//! Building a Merkle tree from a directory walk: the walk entry type, blob
//! creation, partial trees, and the single-pass stack construction.

use vstd::prelude::*;
use crate::hashing::{ObjectHash, spec_blob_hash, spec_tree_hash, tree_preimage, sha1_digest_bytes,
    blob_hash};
use crate::merkle::{NodeModel, Object, Blob, Tree, models_of, lemma_models_of,
    lemma_models_of_push, children_wf, lemma_children_wf};

verus! {

/// The position of the last occurrence of `c` in `s`, or -1 when absent.
pub open spec fn last_pos(s: Seq<char>, c: char) -> int
    decreases s.len(),
{
    if s.len() == 0 {
        -1
    } else if s[s.len() - 1] == c {
        s.len() - 1
    } else {
        last_pos(s.drop_last(), c)
    }
}

/// The file extension of a path, without the dot: the characters after the
/// last dot of the final path segment, empty when the segment has no dot or
/// starts with its only dot (a hidden file).
pub open spec fn ext_of(path: Seq<char>) -> Seq<char> {
    let slash = last_pos(path, '/');
    let dot = last_pos(path, '.');
    if dot > slash + 1 {
        path.subrange(dot + 1, path.len() as int)
    } else {
        Seq::empty()
    }
}

/// `last_pos` is the greatest index holding `c`.
proof fn lemma_last_pos(s: Seq<char>, c: char)
    ensures
        last_pos(s, c) >= 0 ==> {
            &&& last_pos(s, c) < s.len()
            &&& s[last_pos(s, c)] == c
            &&& forall|j: int| last_pos(s, c) < j < s.len() ==> s[j] != c
        },
        last_pos(s, c) < 0 ==> forall|j: int| 0 <= j < s.len() ==> s[j] != c,
    decreases s.len(),
{
    if s.len() > 0 && s[s.len() - 1] != c {
        lemma_last_pos(s.drop_last(), c);
        assert(forall|j: int| 0 <= j < s.len() - 1 ==> s[j] == s.drop_last()[j]);
    }
}

/// Extract the file extension of a path string, per `ext_of`.
pub fn extract_ext(path: &str) -> (r: String)
    ensures
        r@ == ext_of(path@),
{
    let n = path.unicode_len();
    let mut slash_found: bool = false;
    let mut slash: usize = 0;
    let mut dot_found: bool = false;
    let mut dot: usize = 0;
    let mut i: usize = 0;
    while i < n
        invariant
            n == path@.len(),
            i <= n,
            slash_found ==> slash == last_pos(path@.take(i as int), '/') && slash < i,
            !slash_found ==> last_pos(path@.take(i as int), '/') == -1,
            dot_found ==> dot == last_pos(path@.take(i as int), '.') && dot < i,
            !dot_found ==> last_pos(path@.take(i as int), '.') == -1,
        decreases n - i,
    {
        let ch = path.get_char(i);
        proof {
            assert(path@.take(i as int + 1).drop_last() =~= path@.take(i as int));
            assert(path@.take(i as int + 1)[i as int] == path@[i as int]);
        }
        if ch == '/' {
            slash_found = true;
            slash = i;
        } else if ch == '.' {
            dot_found = true;
            dot = i;
        }
        i = i + 1;
    }
    proof {
        assert(path@.take(n as int) =~= path@);
    }
    let has_ext: bool = if dot_found {
        if slash_found {
            dot > slash + 1
        } else {
            dot > 0
        }
    } else {
        false
    };
    if has_ext {
        let from = dot + 1;
        let r = path.substring_char(from, n);
        r.to_owned()
    } else {
        proof {
            assert(ext_of(path@) =~= Seq::<char>::empty());
        }
        String::new()
    }
}

/// Build a blob for a file at `path` with UTF-8 `content`: its hash covers the
/// extension and the contents; its parent is assigned later by the root
/// post-pass.
pub fn create_blob(path: &str, content: &str) -> (b: Blob)
    ensures
        b.model() == (NodeModel::Blob {
            parent: Option::None,
            hash: spec_blob_hash(ext_of(path@), content@),
            path: path@,
        }),
        b.hash@.len() == 20,
{
    let ext = extract_ext(path);
    let hash = blob_hash(content, ext.as_str());
    Blob { parent: Option::None, hash, path: path.to_owned() }
}

/// A directory still being filled during the walk: its path and the children
/// seen so far.
pub struct PreTree {
    pub children: Vec<Object>,
    pub path: String,
}

/// The ghost model of a partial tree.
pub struct PartialModel {
    pub path: Seq<char>,
    pub children: Seq<NodeModel>,
}

impl View for PreTree {
    type V = PartialModel;

    open spec fn view(&self) -> PartialModel {
        PartialModel { path: self.path@, children: models_of(self.children@) }
    }
}

/// The hashes of a sequence of nodes, in order.
pub open spec fn hashes_of(ms: Seq<NodeModel>) -> Seq<Seq<u8>>
    decreases ms,
{
    if ms.len() == 0 {
        seq![]
    } else {
        seq![ms[0].hash()] + hashes_of(ms.drop_first())
    }
}

/// Appending a node appends its hash.
pub proof fn lemma_hashes_of_push(ms: Seq<NodeModel>, m: NodeModel)
    ensures
        hashes_of(ms.push(m)) == hashes_of(ms).push(m.hash()),
    decreases ms.len(),
{
    if ms.len() == 0 {
        assert(ms.push(m)[0] == m);
        assert(ms.push(m).drop_first() =~= Seq::<NodeModel>::empty());
        assert(hashes_of(Seq::<NodeModel>::empty()) == Seq::<Seq<u8>>::empty());
        assert(hashes_of(ms.push(m)) =~= hashes_of(ms).push(m.hash()));
    } else {
        assert(ms.push(m)[0] == ms[0]);
        assert(ms.push(m).drop_first() =~= ms.drop_first().push(m));
        lemma_hashes_of_push(ms.drop_first(), m);
        assert(hashes_of(ms.push(m)) =~= hashes_of(ms).push(m.hash()));
    }
}

/// The tree a finished partial tree turns into: hashed over its children's
/// hashes, with no parent assigned yet.
pub open spec fn finalize_model(p: PartialModel) -> NodeModel {
    NodeModel::Tree {
        parent: Option::None,
        hash: spec_tree_hash(hashes_of(p.children)),
        path: p.path,
        children: p.children,
    }
}

impl PreTree {
    /// Finish a directory: hash it over its children's hashes.
    pub fn finalize(self) -> (t: Tree)
        ensures
            t.model() == finalize_model(self@),
            t.hash@.len() == 20,
    {
        let ghost ms = models_of(self.children@);
        let mut preimage: Vec<u8> = Vec::new();
        preimage.push(116);
        preimage.push(114);
        preimage.push(101);
        preimage.push(101);
        proof {
            lemma_models_of(self.children@);
            assert(ms.take(0) =~= Seq::<NodeModel>::empty());
            assert(hashes_of(Seq::<NodeModel>::empty()) == Seq::<Seq<u8>>::empty());
            assert(Seq::<Seq<u8>>::empty().flatten() =~= Seq::<u8>::empty());
            assert(preimage@ =~= seq![116u8, 114u8, 101u8, 101u8] + hashes_of(ms.take(0)).flatten());
        }
        let mut i: usize = 0;
        while i < self.children.len()
            invariant
                i <= self.children@.len(),
                ms == models_of(self.children@),
                ms.len() == self.children@.len(),
                forall|j: int|
                    0 <= j < self.children@.len() ==> ms[j] == #[trigger] self.children@[j].model(),
                preimage@ == seq![116u8, 114u8, 101u8, 101u8] + hashes_of(ms.take(i as int)).flatten(),
            decreases self.children@.len() - i,
        {
            let h = self.children[i].hash();
            let ghost pre_old = preimage@;
            let mut j: usize = 0;
            while j < h.len()
                invariant
                    j <= h@.len(),
                    h@ == ms[i as int].hash(),
                    i < ms.len(),
                    preimage@ == pre_old + h@.take(j as int),
                decreases h@.len() - j,
            {
                preimage.push(h.byte_at(j));
                j = j + 1;
                proof {
                    assert(pre_old + h@.take(j as int) =~= (pre_old + h@.take(j as int - 1)).push(
                        h@[j as int - 1],
                    ));
                }
            }
            i = i + 1;
            proof {
                assert(h@.take(h@.len() as int) =~= h@);
                assert(ms.take(i as int) =~= ms.take(i as int - 1).push(ms[i as int - 1]));
                lemma_hashes_of_push(ms.take(i as int - 1), ms[i as int - 1]);
                broadcast use vstd::seq::Seq::lemma_flatten_push;
                assert(hashes_of(ms.take(i as int)).flatten() =~= hashes_of(
                    ms.take(i as int - 1),
                ).flatten() + ms[i as int - 1].hash());
                assert(preimage@ =~= seq![116u8, 114u8, 101u8, 101u8] + hashes_of(
                    ms.take(i as int),
                ).flatten());
            }
        }
        proof {
            assert(ms.take(ms.len() as int) =~= ms);
            assert(preimage@ =~= tree_preimage(hashes_of(ms)));
        }
        let digest = sha1_digest_bytes(&preimage);
        Tree {
            parent: Option::None,
            children: self.children,
            hash: ObjectHash::from_bytes(digest),
            path: self.path,
        }
    }
}

/// What one walk entry is: a directory, a UTF-8 text file with its contents,
/// or a file that did not decode as UTF-8 (omitted from the tree).
pub enum EntryKind {
    Dir,
    File { content: String },
    Binary,
}

/// One entry of the filtered, depth-first, name-sorted directory walk. The
/// first entry is the root directory itself at depth 0; each later entry's
/// depth counts the directories between it and the root.
pub struct WalkEntry {
    pub path: String,
    pub depth: usize,
    pub kind: EntryKind,
}

/// The ghost model of an entry kind.
pub enum KindModel {
    Dir,
    File { content: Seq<char> },
    Binary,
}

/// The ghost model of a walk entry.
pub struct EntryModel {
    pub path: Seq<char>,
    pub depth: int,
    pub kind: KindModel,
}

impl View for WalkEntry {
    type V = EntryModel;

    open spec fn view(&self) -> EntryModel {
        EntryModel {
            path: self.path@,
            depth: self.depth as int,
            kind: match self.kind {
                EntryKind::Dir => KindModel::Dir,
                EntryKind::File { content } => KindModel::File { content: content@ },
                EntryKind::Binary => KindModel::Binary,
            },
        }
    }
}

/// The ghost models of a sequence of walk entries.
pub open spec fn entry_views(es: Seq<WalkEntry>) -> Seq<EntryModel> {
    es.map_values(|e: WalkEntry| e@)
}

/// The model of the blob built for a file entry.
pub open spec fn blob_model(path: Seq<char>, content: Seq<char>) -> NodeModel {
    NodeModel::Blob { parent: Option::None, hash: spec_blob_hash(ext_of(path), content), path }
}

/// Finish the top partial tree and append it as a child of the one below.
pub open spec fn pop_once(s: Seq<PartialModel>) -> Seq<PartialModel>
    recommends
        s.len() >= 2,
{
    let top = s.last();
    let parent = s[s.len() - 2];
    s.drop_last().update(
        s.len() - 2,
        PartialModel { path: parent.path, children: parent.children.push(finalize_model(top)) },
    )
}

/// Pop finished directories until the stack holds `d` partial trees.
pub open spec fn pop_to(s: Seq<PartialModel>, d: int) -> Seq<PartialModel>
    decreases s.len(),
{
    if s.len() <= d || s.len() <= 1 {
        s
    } else {
        pop_to(pop_once(s), d)
    }
}

/// How one walk entry transforms the stack of partial trees: close
/// directories the entry has left, then open a directory, add a blob, or (for
/// a binary file) add nothing.
pub open spec fn step_model(s: Seq<PartialModel>, e: EntryModel) -> Seq<PartialModel> {
    let p = pop_to(s, e.depth);
    match e.kind {
        KindModel::Dir => p.push(PartialModel { path: e.path, children: seq![] }),
        KindModel::File { content } => {
            let top = p.last();
            p.update(
                p.len() - 1,
                PartialModel {
                    path: top.path,
                    children: top.children.push(blob_model(e.path, content)),
                },
            )
        },
        KindModel::Binary => p,
    }
}

/// The stack of partial trees after the walk's entries up to and including
/// entry `i`: entry 0 starts the stack with the root directory.
pub open spec fn stack_after(es: Seq<EntryModel>, i: int) -> Seq<PartialModel>
    decreases i,
{
    if i <= 0 {
        seq![PartialModel { path: es[0].path, children: seq![] }]
    } else {
        step_model(stack_after(es, i - 1), es[i])
    }
}

/// The walk's entries up to (excluding) `k` are a valid prefix of a
/// depth-first walk: the first entry is the root directory, and every later
/// entry sits strictly below the root, no deeper than one level below the
/// directories currently open.
pub open spec fn walk_wf_upto(es: Seq<EntryModel>, k: int) -> bool {
    &&& es.len() >= 1
    &&& es[0].depth == 0
    &&& es[0].kind is Dir
    &&& forall|i: int|
        1 <= i < k ==> 1 <= (#[trigger] es[i]).depth <= stack_after(es, i - 1).len()
}

/// The whole entry sequence is a valid depth-first walk.
pub open spec fn walk_wf(es: Seq<EntryModel>) -> bool {
    walk_wf_upto(es, es.len() as int)
}

/// On a valid walk prefix the stack never empties, and its size after each
/// entry is the entry's depth, plus one for a directory entry.
pub proof fn lemma_stack_after_len(es: Seq<EntryModel>, i: int)
    requires
        0 <= i < es.len(),
        walk_wf_upto(es, i + 1),
    ensures
        stack_after(es, i).len() == (if i == 0 {
            1int
        } else if es[i].kind is Dir {
            es[i].depth + 1
        } else {
            es[i].depth
        }),
        stack_after(es, i).len() >= 1,
    decreases i,
{
    if i > 0 {
        lemma_stack_after_len(es, i - 1);
        let s = stack_after(es, i - 1);
        lemma_pop_to_len(s, es[i].depth);
    }
}

/// `pop_to` lands exactly at the requested size when the stack is at least
/// that tall.
pub proof fn lemma_pop_to_len(s: Seq<PartialModel>, d: int)
    requires
        1 <= d <= s.len(),
    ensures
        pop_to(s, d).len() == d,
    decreases s.len(),
{
    if s.len() > d {
        lemma_pop_to_len(pop_once(s), d);
    }
}

/// Attach `parent` as the parent hash of a node, and the node's own hash as
/// the parent of everything below it.
pub open spec fn assign_parents(m: NodeModel, parent: Seq<u8>) -> NodeModel
    decreases m,
{
    match m {
        NodeModel::Blob { hash, path, .. } => NodeModel::Blob {
            parent: Option::Some(parent),
            hash,
            path,
        },
        NodeModel::Tree { hash, path, children, .. } => NodeModel::Tree {
            parent: Option::Some(parent),
            hash,
            path,
            children: assign_parents_seq(children, hash),
        },
    }
}

/// Attach `parent` to each node of a sequence, and propagate below.
pub open spec fn assign_parents_seq(ms: Seq<NodeModel>, parent: Seq<u8>) -> Seq<NodeModel>
    decreases ms,
{
    if ms.len() == 0 {
        seq![]
    } else {
        seq![assign_parents(ms[0], parent)] + assign_parents_seq(ms.drop_first(), parent)
    }
}

/// `assign_parents_seq` maps each node, position by position.
pub proof fn lemma_assign_parents_seq(ms: Seq<NodeModel>, parent: Seq<u8>)
    ensures
        assign_parents_seq(ms, parent).len() == ms.len(),
        forall|i: int|
            0 <= i < ms.len() ==> assign_parents_seq(ms, parent)[i] == assign_parents(
                #[trigger] ms[i],
                parent,
            ),
    decreases ms.len(),
{
    if ms.len() > 0 {
        lemma_assign_parents_seq(ms.drop_first(), parent);
        assert forall|i: int|
            0 <= i < ms.len() implies assign_parents_seq(ms, parent)[i] == assign_parents(
            #[trigger] ms[i],
            parent,
        ) by {
            if i > 0 {
                assert(ms.drop_first()[i - 1] == ms[i]);
                assert(assign_parents_seq(ms, parent)[i] == assign_parents_seq(
                    ms.drop_first(),
                    parent,
                )[i - 1]);
            }
        }
    }
}

/// Attach the root's hash as the parent of each of its children and propagate
/// below; the root's own parent stays absent.
pub open spec fn spec_assign_root(m: NodeModel) -> NodeModel {
    match m {
        NodeModel::Tree { parent, hash, path, children } => NodeModel::Tree {
            parent,
            hash,
            path,
            children: assign_parents_seq(children, hash),
        },
        NodeModel::Blob { .. } => m,
    }
}

/// The tree a valid walk builds: fold the entries through the partial-tree
/// stack, close what remains, finish the root, and assign parents.
pub open spec fn spec_build(es: Seq<EntryModel>) -> NodeModel {
    let final_stack = pop_to(stack_after(es, es.len() - 1), 1);
    spec_assign_root(finalize_model(final_stack[0]))
}

/// Check that a vector of entries is a valid depth-first walk; the builder
/// requires this of its input.
pub fn walk_entries_wellformed(entries: &Vec<WalkEntry>) -> (b: bool)
    ensures
        b == walk_wf(entry_views(entries@)),
{
    let ghost es = entry_views(entries@);
    if entries.len() == 0 {
        return false;
    }
    if entries[0].depth != 0 {
        return false;
    }
    let is_dir = match &entries[0].kind {
        EntryKind::Dir => true,
        EntryKind::File { .. } => false,
        EntryKind::Binary => false,
    };
    if !is_dir {
        return false;
    }
    let mut running: usize = 1;
    let mut i: usize = 1;
    proof {
        assert(walk_wf_upto(es, 1));
        lemma_stack_after_len(es, 0);
    }
    while i < entries.len()
        invariant
            1 <= i <= entries@.len(),
            es == entry_views(entries@),
            es.len() == entries@.len(),
            es[0].depth == 0,
            es[0].kind is Dir,
            walk_wf_upto(es, i as int),
            running == stack_after(es, i as int - 1).len(),
            running <= i,
            running >= 1,
        decreases entries@.len() - i,
    {
        let d = entries[i].depth;
        if d < 1 || d > running {
            proof {
                assert(es[i as int].depth == d);
                assert(!walk_wf(es));
            }
            return false;
        }
        let entry_is_dir = match &entries[i].kind {
            EntryKind::Dir => true,
            EntryKind::File { .. } => false,
            EntryKind::Binary => false,
        };
        running = if entry_is_dir {
            d + 1
        } else {
            d
        };
        i = i + 1;
        proof {
            assert(walk_wf_upto(es, i as int));
            lemma_stack_after_len(es, i as int - 1);
        }
    }
    proof {
        assert(walk_wf(es));
    }
    true
}

/// The ghost models of a stack of partial trees.
pub open spec fn partial_views(s: Seq<PreTree>) -> Seq<PartialModel> {
    s.map_values(|p: PreTree| p@)
}

/// Every child collected so far, anywhere on the stack, is well-formed.
pub open spec fn partials_wf(s: Seq<PartialModel>) -> bool {
    forall|j: int, k: int|
        0 <= j < s.len() && 0 <= k < s[j].children.len() ==> (#[trigger] s[j].children[k]).wf()
}

/// Appending a node appends its parent-assigned form.
pub proof fn lemma_assign_parents_seq_push(ms: Seq<NodeModel>, m: NodeModel, parent: Seq<u8>)
    ensures
        assign_parents_seq(ms.push(m), parent) == assign_parents_seq(ms, parent).push(
            assign_parents(m, parent),
        ),
{
    lemma_assign_parents_seq(ms.push(m), parent);
    lemma_assign_parents_seq(ms, parent);
    assert(ms.push(m)[ms.len() as int] == m);
    assert forall|i: int|
        0 <= i < ms.len() + 1 implies assign_parents_seq(ms.push(m), parent)[i]
        == assign_parents_seq(ms, parent).push(assign_parents(m, parent))[i] by {
        if i < ms.len() {
            assert(ms.push(m)[i] == ms[i]);
        }
    }
    assert(assign_parents_seq(ms.push(m), parent) =~= assign_parents_seq(ms, parent).push(
        assign_parents(m, parent),
    ));
}

/// A well-formed node stays well-formed when parents are attached.
pub proof fn lemma_assign_parents_wf(m: NodeModel, parent: Seq<u8>)
    requires
        m.wf(),
        parent.len() == 20,
    ensures
        assign_parents(m, parent).wf(),
    decreases m,
{
    match m {
        NodeModel::Blob { .. } => {},
        NodeModel::Tree { hash, children, .. } => {
            lemma_assign_parents_seq(children, hash);
            let assigned = assign_parents_seq(children, hash);
            assert(m.hash() == hash);
            lemma_children_wf(children);
            assert forall|k: int| 0 <= k < assigned.len() implies (#[trigger] assigned[k]).wf() by {
                assert(children[k].wf());
                lemma_assign_parents_wf(children[k], hash);
            }
            lemma_children_wf(assigned);
        },
    }
}

impl Tree {
    /// A copy of this tree with `parent` attached and each descendant's
    /// parent set to the hash of the tree that holds it.
    pub fn assign_below(&self, parent: &ObjectHash) -> (r: Tree)
        ensures
            r.model() == assign_parents(self.model(), parent@),
        decreases self,
    {
        let ghost ms = models_of(self.children@);
        let mut new_children: Vec<Object> = Vec::new();
        let mut i: usize = 0;
        proof {
            lemma_models_of(self.children@);
            assert(ms.take(0) =~= Seq::<NodeModel>::empty());
            assert(models_of(new_children@) == Seq::<NodeModel>::empty());
            assert(assign_parents_seq(Seq::<NodeModel>::empty(), self.hash@) == Seq::<
                NodeModel,
            >::empty());
        }
        while i < self.children.len()
            invariant
                i <= self.children@.len(),
                ms == models_of(self.children@),
                ms.len() == self.children@.len(),
                forall|j: int|
                    0 <= j < self.children@.len() ==> ms[j] == #[trigger] self.children@[j].model(),
                models_of(new_children@) == assign_parents_seq(ms.take(i as int), self.hash@),
            decreases self.children@.len() - i,
        {
            let c = self.children[i].with_parent(&self.hash);
            let ghost prev = new_children@;
            new_children.push(c);
            i = i + 1;
            proof {
                lemma_models_of_push(prev, c);
                assert(ms.take(i as int) =~= ms.take(i as int - 1).push(ms[i as int - 1]));
                lemma_assign_parents_seq_push(ms.take(i as int - 1), ms[i as int - 1], self.hash@);
            }
        }
        proof {
            assert(ms.take(ms.len() as int) =~= ms);
        }
        Tree {
            parent: Option::Some(parent.duplicate()),
            children: new_children,
            hash: self.hash.duplicate(),
            path: self.path.clone(),
        }
    }

    /// Assign each child's parent to the hash of the tree that holds it,
    /// throughout the subtree; the root's own parent is left as it is.
    pub fn set_childrens_parent(&self) -> (r: Tree)
        ensures
            r.model() == spec_assign_root(self.model()),
    {
        let ghost ms = models_of(self.children@);
        let mut new_children: Vec<Object> = Vec::new();
        let mut i: usize = 0;
        proof {
            lemma_models_of(self.children@);
            assert(ms.take(0) =~= Seq::<NodeModel>::empty());
            assert(models_of(new_children@) == Seq::<NodeModel>::empty());
            assert(assign_parents_seq(Seq::<NodeModel>::empty(), self.hash@) == Seq::<
                NodeModel,
            >::empty());
        }
        while i < self.children.len()
            invariant
                i <= self.children@.len(),
                ms == models_of(self.children@),
                ms.len() == self.children@.len(),
                forall|j: int|
                    0 <= j < self.children@.len() ==> ms[j] == #[trigger] self.children@[j].model(),
                models_of(new_children@) == assign_parents_seq(ms.take(i as int), self.hash@),
            decreases self.children@.len() - i,
        {
            let c = self.children[i].with_parent(&self.hash);
            let ghost prev = new_children@;
            new_children.push(c);
            i = i + 1;
            proof {
                lemma_models_of_push(prev, c);
                assert(ms.take(i as int) =~= ms.take(i as int - 1).push(ms[i as int - 1]));
                lemma_assign_parents_seq_push(ms.take(i as int - 1), ms[i as int - 1], self.hash@);
            }
        }
        proof {
            assert(ms.take(ms.len() as int) =~= ms);
        }
        let new_parent = match &self.parent {
            Option::Some(p) => Option::Some(p.duplicate()),
            Option::None => Option::None,
        };
        Tree {
            parent: new_parent,
            children: new_children,
            hash: self.hash.duplicate(),
            path: self.path.clone(),
        }
    }
}

impl Object {
    /// A copy of the object with `parent` attached, and each descendant's
    /// parent set to the hash of the tree that holds it.
    pub fn with_parent(&self, parent: &ObjectHash) -> (r: Object)
        ensures
            r.model() == assign_parents(self.model(), parent@),
        decreases self,
    {
        match self {
            Object::Blob(b) => Object::Blob(
                Blob {
                    parent: Option::Some(parent.duplicate()),
                    hash: b.hash.duplicate(),
                    path: b.path.clone(),
                },
            ),
            Object::Tree(t) => Object::Tree(t.assign_below(parent)),
        }
    }
}


/// Close the top directory on the stack: finish it into a tree and append it
/// as a child of the directory below.
fn close_top(stack: &mut Vec<PreTree>)
    requires
        old(stack)@.len() >= 2,
        partials_wf(partial_views(old(stack)@)),
    ensures
        partial_views(final(stack)@) == pop_once(partial_views(old(stack)@)),
        final(stack)@.len() == old(stack)@.len() - 1,
        partials_wf(partial_views(final(stack)@)),
{
    let ghost s0 = partial_views(stack@);
    let top = stack.pop().unwrap();
    let finished = top.finalize();
    let ghost fm = finished.model();
    let ghost fin_hash_len = finished.hash@.len();
    let mut parent = stack.pop().unwrap();
    let ghost parent0 = parent@;
    let ghost pc0 = parent.children@;
    parent.children.push(Object::Tree(finished));
    let ghost pushed = parent.children@.last();
    stack.push(parent);
    proof {
        assert(parent.children@ == pc0.push(pushed));
        lemma_models_of_push(pc0, pushed);
        assert(pushed.model() == fm);
        assert(s0.last() == top@);
        assert(parent0 == s0[s0.len() - 2]);
        assert(fm == finalize_model(s0.last()));
        assert(models_of(parent.children@) == parent0.children.push(fm));
        assert(partial_views(stack@) =~= pop_once(s0));
        // the finished tree is well-formed
        lemma_children_wf(s0.last().children);
        assert forall|k: int| 0 <= k < s0.last().children.len() implies (#[trigger] s0.last()
            .children[k]).wf() by {
            assert(s0[s0.len() - 1].children[k].wf());
        }
        assert(children_wf(s0.last().children));
        assert(fm.hash().len() == 20);
        assert(fm.wf());
        // the new stack is well-formed
        let s1 = partial_views(stack@);
        assert forall|j: int, k: int|
            0 <= j < s1.len() && 0 <= k < s1[j].children.len() implies (#[trigger] s1[j].children[
            k]).wf() by {
            if j == s1.len() - 1 {
                assert(s1[j].children == parent0.children.push(fm));
                if k < parent0.children.len() {
                    assert(s1[j].children[k] == s0[s0.len() - 2].children[k]);
                    assert(s0[s0.len() - 2].children[k].wf());
                } else {
                    assert(s1[j].children[k] == fm);
                }
            } else {
                assert(s1[j] == s0[j]);
                assert(s0[j].children[k].wf());
            }
        }
    }
}

/// Build the Merkle tree for a directory from its walk entries. One pass over
/// the entries keeps a stack of partial trees, closing each directory when
/// the walk leaves it; a final pass assigns each node its parent's hash. The
/// resulting tree is a function of the walk entries alone.
pub fn compute_tree_for_dir(entries: &Vec<WalkEntry>) -> (t: Tree)
    requires
        walk_wf(entry_views(entries@)),
    ensures
        t.model() == spec_build(entry_views(entries@)),
        t.model().wf(),
{
    let ghost es = entry_views(entries@);
    let mut stack: Vec<PreTree> = Vec::new();
    stack.push(PreTree { children: Vec::new(), path: entries[0].path.clone() });
    proof {
        assert(es[0] == entries@[0]@);
        assert(models_of(Seq::<Object>::empty()) == Seq::<NodeModel>::empty());
        assert(partial_views(stack@) =~= stack_after(es, 0));
    }
    let mut i: usize = 1;
    while i < entries.len()
        invariant
            1 <= i <= entries@.len(),
            es == entry_views(entries@),
            es.len() == entries@.len(),
            walk_wf(es),
            partial_views(stack@) == stack_after(es, i as int - 1),
            stack@.len() >= 1,
            partials_wf(partial_views(stack@)),
        decreases entries@.len() - i,
    {
        proof {
            lemma_stack_after_len(es, i as int - 1);
            assert(es[i as int] == entries@[i as int]@);
            assert(1 <= es[i as int].depth <= stack_after(es, i as int - 1).len());
        }
        let d = entries[i].depth;
        let ghost s_entry = partial_views(stack@);
        while stack.len() > d
            invariant
                d >= 1,
                d == es[i as int].depth,
                stack@.len() >= d,
                pop_to(partial_views(stack@), d as int) == pop_to(s_entry, d as int),
                partials_wf(partial_views(stack@)),
            decreases stack@.len(),
        {
            let ghost before = partial_views(stack@);
            close_top(&mut stack);
            proof {
                assert(pop_to(before, d as int) == pop_to(pop_once(before), d as int));
            }
        }
        proof {
            assert(pop_to(partial_views(stack@), d as int) == partial_views(stack@));
            assert(partial_views(stack@) == pop_to(s_entry, d as int));
        }
        match &entries[i].kind {
            EntryKind::Dir => {
                stack.push(PreTree { children: Vec::new(), path: entries[i].path.clone() });
                proof {
                    assert(models_of(Seq::<Object>::empty()) == Seq::<NodeModel>::empty());
                    assert(partial_views(stack@) =~= step_model(s_entry, es[i as int]));
                    let s1 = partial_views(stack@);
                    assert forall|j: int, k: int|
                        0 <= j < s1.len() && 0 <= k < s1[j].children.len() implies (
                    #[trigger] s1[j].children[k]).wf() by {
                        assert(s1[j] == pop_to(s_entry, d as int)[j]);
                    }
                }
            },
            EntryKind::File { content } => {
                let b = create_blob(entries[i].path.as_str(), content.as_str());
                let ghost bm = b.model();
                let mut top = stack.pop().unwrap();
                let ghost top0 = top@;
                let ghost tc0 = top.children@;
                let ghost s_popped = partial_views(stack@);
                top.children.push(Object::Blob(b));
                let ghost pushed = top.children@.last();
                stack.push(top);
                proof {
                    assert(top.children@ == tc0.push(pushed));
                    lemma_models_of_push(tc0, pushed);
                    assert(pushed.model() == bm);
                    assert(top0 == pop_to(s_entry, d as int).last());
                    assert(models_of(top.children@) == top0.children.push(bm));
                    assert(bm == blob_model(es[i as int].path, es[i as int].kind->content));
                    assert(partial_views(stack@) =~= step_model(s_entry, es[i as int]));
                    assert(bm.wf());
                    let s1 = partial_views(stack@);
                    let sp = pop_to(s_entry, d as int);
                    assert forall|j: int, k: int|
                        0 <= j < s1.len() && 0 <= k < s1[j].children.len() implies (
                    #[trigger] s1[j].children[k]).wf() by {
                        if j == s1.len() - 1 {
                            assert(s1[j].children == top0.children.push(bm));
                            if k < top0.children.len() {
                                assert(s1[j].children[k] == sp[j].children[k]);
                                assert(sp[j].children[k].wf());
                            } else {
                                assert(s1[j].children[k] == bm);
                            }
                        } else {
                            assert(s1[j] == sp[j]);
                            assert(sp[j].children[k].wf());
                        }
                    }
                }
            },
            EntryKind::Binary => {
                proof {
                    assert(partial_views(stack@) == step_model(s_entry, es[i as int]));
                }
            },
        }
        i = i + 1;
        proof {
            assert(partial_views(stack@) == stack_after(es, i as int - 1));
        }
    }
    let ghost s_final = partial_views(stack@);
    while stack.len() > 1
        invariant
            stack@.len() >= 1,
            pop_to(partial_views(stack@), 1) == pop_to(s_final, 1),
            partials_wf(partial_views(stack@)),
        decreases stack@.len(),
    {
        let ghost before = partial_views(stack@);
        close_top(&mut stack);
        proof {
            assert(pop_to(before, 1) == pop_to(pop_once(before), 1));
        }
    }
    proof {
        assert(pop_to(partial_views(stack@), 1) == partial_views(stack@));
        assert(partial_views(stack@) == pop_to(s_final, 1));
    }
    let root_pre = stack.pop().unwrap();
    let ghost root_partial = root_pre@;
    let root_tree = root_pre.finalize();
    let ghost root_hash_len = root_tree.hash@.len();
    let ghost fm = root_tree.model();
    let result = root_tree.set_childrens_parent();
    proof {
        assert(root_partial == pop_to(s_final, 1)[0]);
        assert(fm == finalize_model(root_partial));
        assert(result.model() == spec_assign_root(fm));
        assert(result.model() == spec_build(es));
        // well-formedness of the final tree
        lemma_children_wf(root_partial.children);
        assert forall|k: int| 0 <= k < root_partial.children.len() implies (
        #[trigger] root_partial.children[k]).wf() by {
            assert(pop_to(s_final, 1)[0].children[k].wf());
        }
        assert(children_wf(root_partial.children));
        match fm {
            NodeModel::Tree { parent, hash, path, children } => {
                lemma_assign_parents_seq(children, hash);
                let assigned = assign_parents_seq(children, hash);
                lemma_children_wf(children);
                assert forall|k: int| 0 <= k < assigned.len() implies (#[trigger] assigned[
                k]).wf() by {
                    assert(children[k].wf());
                    lemma_assign_parents_wf(children[k], hash);
                }
                lemma_children_wf(assigned);
                assert(result.model().wf());
            },
            NodeModel::Blob { .. } => {
                assert(false);
            },
        }
    }
    result
}


/// Every child of every tree below `m` (and `m`'s own children) carries its
/// holder's hash as its parent.
pub open spec fn parents_linked(m: NodeModel) -> bool
    decreases m,
{
    match m {
        NodeModel::Blob { .. } => true,
        NodeModel::Tree { hash, children, .. } => linked_children(children, hash),
    }
}

/// Every node of the sequence carries `parent` as its parent, and is linked
/// below.
pub open spec fn linked_children(ms: Seq<NodeModel>, parent: Seq<u8>) -> bool
    decreases ms,
{
    if ms.len() == 0 {
        true
    } else {
        ms[0].parent() == Option::Some(parent) && parents_linked(ms[0]) && linked_children(
            ms.drop_first(),
            parent,
        )
    }
}

proof fn lemma_assign_linked(m: NodeModel, parent: Seq<u8>)
    ensures
        assign_parents(m, parent).parent() == Option::Some(parent),
        parents_linked(assign_parents(m, parent)),
    decreases m,
{
    match m {
        NodeModel::Blob { .. } => {},
        NodeModel::Tree { hash, children, .. } => {
            lemma_assign_linked_seq(children, hash);
        },
    }
}

proof fn lemma_assign_linked_seq(ms: Seq<NodeModel>, parent: Seq<u8>)
    ensures
        linked_children(assign_parents_seq(ms, parent), parent),
    decreases ms,
{
    if ms.len() > 0 {
        lemma_assign_linked(ms[0], parent);
        lemma_assign_linked_seq(ms.drop_first(), parent);
        let s = assign_parents_seq(ms, parent);
        assert(s[0] == assign_parents(ms[0], parent));
        assert(s.drop_first() =~= assign_parents_seq(ms.drop_first(), parent));
    }
}

/// Parent linkage: in the tree a walk builds, every non-root node's parent
/// equals the hash of the tree that holds it.
pub proof fn lemma_build_parents_linked(es: Seq<EntryModel>)
    ensures
        parents_linked(spec_build(es)),
{
    let fm = finalize_model(pop_to(stack_after(es, es.len() - 1), 1)[0]);
    match fm {
        NodeModel::Tree { hash, children, .. } => {
            lemma_assign_linked_seq(children, hash);
        },
        NodeModel::Blob { .. } => {},
    }
}

} // verus!
