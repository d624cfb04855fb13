//! The tree differ: given an old and a new Merkle tree, compute the object
//! descriptions to add to and remove from an external index. Children are
//! matched by path name alone; unchanged subtrees are skipped by their hash.

use vstd::prelude::*;
use vstd::pervasive::VecAdditionalExecFns;
use crate::merkle::{NodeModel, DescrModel, Object, Tree, ObjDescription, models_of,
    lemma_models_of, all_descrs, descr_views};

verus! {

/// The number of nodes in a subtree.
pub open spec fn node_size(m: NodeModel) -> nat
    decreases m,
{
    match m {
        NodeModel::Blob { .. } => 1,
        NodeModel::Tree { children, .. } => 1 + seq_size(children),
    }
}

/// The number of nodes in a forest.
pub open spec fn seq_size(ms: Seq<NodeModel>) -> nat
    decreases ms,
{
    if ms.len() == 0 {
        0
    } else {
        node_size(ms[0]) + seq_size(ms.drop_first())
    }
}

/// A subtree holds at least one node.
pub proof fn lemma_node_size_pos(m: NodeModel)
    ensures
        node_size(m) >= 1,
{
    match m {
        NodeModel::Blob { .. } => {},
        NodeModel::Tree { .. } => {},
    }
}

/// Each subtree of a forest is no larger than the forest.
pub proof fn lemma_seq_size_element(ms: Seq<NodeModel>, i: int)
    requires
        0 <= i < ms.len(),
    ensures
        node_size(ms[i]) <= seq_size(ms),
    decreases i,
{
    if i == 0 {
    } else {
        lemma_seq_size_element(ms.drop_first(), i - 1);
        assert(ms.drop_first()[i - 1] == ms[i]);
    }
}

/// The index of the first unused node carrying `path`, or -1 when none does.
pub open spec fn first_unused_with_path(ms: Seq<NodeModel>, used: Seq<bool>, path: Seq<char>) -> int
    decreases ms,
{
    if ms.len() == 0 {
        -1
    } else if !used[0] && ms[0].path() == path {
        0
    } else {
        let r = first_unused_with_path(ms.drop_first(), used.drop_first(), path);
        if r < 0 {
            -1
        } else {
            r + 1
        }
    }
}

/// `first_unused_with_path` finds the least matching index.
pub proof fn lemma_first_unused_with_path(ms: Seq<NodeModel>, used: Seq<bool>, path: Seq<char>)
    requires
        used.len() == ms.len(),
    ensures
        ({
            let r = first_unused_with_path(ms, used, path);
            &&& r >= 0 ==> 0 <= r < ms.len() && !used[r] && ms[r].path() == path && (forall|j: int|
                0 <= j < r ==> used[j] || (#[trigger] ms[j]).path() != path)
            &&& r < 0 ==> forall|j: int|
                0 <= j < ms.len() ==> used[j] || (#[trigger] ms[j]).path() != path
        }),
    decreases ms.len(),
{
    if ms.len() > 0 && !(!used[0] && ms[0].path() == path) {
        lemma_first_unused_with_path(ms.drop_first(), used.drop_first(), path);
        let r0 = first_unused_with_path(ms.drop_first(), used.drop_first(), path);
        let r = first_unused_with_path(ms, used, path);
        if r0 >= 0 {
            assert(r == r0 + 1);
            assert(ms[r] == ms.drop_first()[r0]);
            assert(used[r] == used.drop_first()[r0]);
            assert forall|j: int| 0 <= j < r implies used[j] || (#[trigger] ms[j]).path()
                != path by {
                if j > 0 {
                    assert(ms.drop_first()[j - 1] == ms[j]);
                    assert(used.drop_first()[j - 1] == used[j]);
                }
            }
        } else {
            assert forall|j: int| 0 <= j < ms.len() implies used[j] || (#[trigger] ms[j]).path()
                != path by {
                if j > 0 {
                    assert(ms.drop_first()[j - 1] == ms[j]);
                    assert(used.drop_first()[j - 1] == used[j]);
                }
            }
        }
    }
}

/// Process the new children left to right: each new child either pairs with
/// the first unused old child of the same path and their diff is taken, or it
/// is new and its whole subtree is added. Returns the additions, the removals,
/// and which old children were consumed.
pub open spec fn diff_news(olds: Seq<NodeModel>, used: Seq<bool>, news: Seq<NodeModel>) -> (
    Seq<DescrModel>,
    Seq<DescrModel>,
    Seq<bool>,
)
    decreases seq_size(olds) + seq_size(news), 1int,
{
    if news.len() == 0 {
        (seq![], seq![], used)
    } else {
        let idx = first_unused_with_path(olds, used, news[0].path());
        if 0 <= idx < olds.len() {
            proof {
                lemma_seq_size_element(olds, idx);
                lemma_node_size_pos(news[0]);
            }
            let (a1, r1) = spec_obj_diff(olds[idx], news[0]);
            let (a2, r2, used2) = diff_news(olds, used.update(idx, true), news.drop_first());
            (a1 + a2, r1 + r2, used2)
        } else {
            proof {
                lemma_node_size_pos(news[0]);
            }
            let (a2, r2, used2) = diff_news(olds, used, news.drop_first());
            (all_descrs(news[0]) + a2, r2, used2)
        }
    }
}

/// The removal descriptions of the old children no new child matched, in
/// their old order.
pub open spec fn removed_leftovers(olds: Seq<NodeModel>, used: Seq<bool>) -> Seq<DescrModel>
    decreases olds,
{
    if olds.len() == 0 {
        seq![]
    } else {
        (if used[0] {
            seq![]
        } else {
            all_descrs(olds[0])
        }) + removed_leftovers(olds.drop_first(), used.drop_first())
    }
}

/// The diff of two matched nodes: nothing when the hashes agree; otherwise
/// descend tree-to-tree by matching children, swap blob-to-blob, and replace
/// a whole subtree when a path changes between file and directory.
pub open spec fn spec_obj_diff(old: NodeModel, new: NodeModel) -> (Seq<DescrModel>, Seq<
    DescrModel,
>)
    decreases node_size(old) + node_size(new), 0int,
{
    if old.hash() == new.hash() {
        (seq![], seq![])
    } else {
        match (old, new) {
            (
                NodeModel::Tree { children: oc, .. },
                NodeModel::Tree { children: nc, .. },
            ) => {
                let (ca, cr) = spec_diff_children(oc, nc);
                (seq![new.descr()] + ca, seq![old.descr()] + cr)
            },
            (NodeModel::Blob { .. }, NodeModel::Blob { .. }) => (
                seq![new.descr()],
                seq![old.descr()],
            ),
            (NodeModel::Blob { .. }, NodeModel::Tree { .. }) => (
                all_descrs(new),
                seq![old.descr()],
            ),
            (NodeModel::Tree { .. }, NodeModel::Blob { .. }) => (
                seq![new.descr()],
                all_descrs(old),
            ),
        }
    }
}

/// The diff of two children lists: pair new children with old ones by path,
/// then remove the old children left unmatched.
pub open spec fn spec_diff_children(olds: Seq<NodeModel>, news: Seq<NodeModel>) -> (Seq<
    DescrModel,
>, Seq<DescrModel>)
    decreases seq_size(olds) + seq_size(news), 2int,
{
    let init_used = Seq::new(olds.len(), |i: int| false);
    let (a, r, used) = diff_news(olds, init_used, news);
    (a, r + removed_leftovers(olds, used))
}

/// The top-level diff of two trees: empty when the root hashes agree,
/// otherwise both roots change and the children are matched by path.
pub open spec fn spec_diff(old: NodeModel, new: NodeModel) -> (Seq<DescrModel>, Seq<DescrModel>) {
    if old.hash() == new.hash() {
        (seq![], seq![])
    } else {
        let (ca, cr) = spec_diff_children(old.children(), new.children());
        (seq![new.descr()] + ca, seq![old.descr()] + cr)
    }
}


impl Object {
    /// The diff of two matched objects, as additions and removals.
    pub fn diff(&self, new_obj: &Object) -> (r: (Vec<ObjDescription>, Vec<ObjDescription>))
        ensures
            (descr_views(r.0@), descr_views(r.1@)) == spec_obj_diff(self.model(), new_obj.model()),
        decreases self,
    {
        let mut add: Vec<ObjDescription> = Vec::new();
        let mut remove: Vec<ObjDescription> = Vec::new();
        proof {
            assert(descr_views(add@) =~= Seq::<DescrModel>::empty());
            assert(descr_views(remove@) =~= Seq::<DescrModel>::empty());
        }
        if *self.hash_ref() == *new_obj.hash_ref() {
            return (add, remove);
        }
        match (self, new_obj) {
            (Object::Tree(old_tree), Object::Tree(new_tree)) => {
                let (mut ca, mut cr) = old_tree.diff_children(new_tree);
                let ghost cav = descr_views(ca@);
                let ghost crv = descr_views(cr@);
                add.push(new_tree.descr());
                remove.push(old_tree.descr());
                add.append(&mut ca);
                remove.append(&mut cr);
                proof {
                    assert(descr_views(add@) =~= seq![new_tree.model().descr()] + cav);
                    assert(descr_views(remove@) =~= seq![old_tree.model().descr()] + crv);
                }
            },
            (Object::Blob(old_blob), Object::Blob(new_blob)) => {
                add.push(new_blob.descr());
                remove.push(old_blob.descr());
                proof {
                    assert(descr_views(add@) =~= seq![new_blob.model().descr()]);
                    assert(descr_views(remove@) =~= seq![old_blob.model().descr()]);
                }
            },
            (Object::Blob(old_blob), Object::Tree(new_tree)) => {
                remove.push(old_blob.descr());
                let mut a0 = new_tree.all_obj_descriptions();
                let ghost a0v = descr_views(a0@);
                add.append(&mut a0);
                proof {
                    assert(descr_views(add@) =~= a0v);
                    assert(descr_views(remove@) =~= seq![old_blob.model().descr()]);
                }
            },
            (Object::Tree(old_tree), Object::Blob(new_blob)) => {
                let mut r0 = old_tree.all_obj_descriptions();
                let ghost r0v = descr_views(r0@);
                remove.append(&mut r0);
                add.push(new_blob.descr());
                proof {
                    assert(descr_views(add@) =~= seq![new_blob.model().descr()]);
                    assert(descr_views(remove@) =~= r0v);
                }
            },
        }
        (add, remove)
    }
}

impl Tree {
    /// Diff the children of two trees: match by path name only, take the diff
    /// of each matched pair, add the whole subtree of each unmatched new
    /// child, and remove the whole subtree of each unmatched old child.
    pub fn diff_children(&self, new_tree: &Tree) -> (r: (Vec<ObjDescription>, Vec<
        ObjDescription,
    >))
        ensures
            (descr_views(r.0@), descr_views(r.1@)) == spec_diff_children(
                models_of(self.children@),
                models_of(new_tree.children@),
            ),
        decreases self,
    {
        let ghost olds_m = models_of(self.children@);
        let ghost news_m = models_of(new_tree.children@);
        proof {
            lemma_models_of(self.children@);
            lemma_models_of(new_tree.children@);
        }
        let mut used: Vec<bool> = Vec::new();
        let mut k0: usize = 0;
        while k0 < self.children.len()
            invariant
                used@.len() == k0,
                k0 <= self.children@.len(),
                forall|j: int| 0 <= j < k0 ==> used@[j] == false,
            decreases self.children@.len() - k0,
        {
            used.push(false);
            k0 = k0 + 1;
        }
        proof {
            assert(used@ =~= Seq::new(olds_m.len(), |i: int| false));
        }
        let ghost target = diff_news(olds_m, used@, news_m);
        let mut add: Vec<ObjDescription> = Vec::new();
        let mut remove: Vec<ObjDescription> = Vec::new();
        proof {
            assert(descr_views(add@) =~= Seq::<DescrModel>::empty());
            assert(descr_views(remove@) =~= Seq::<DescrModel>::empty());
            assert(news_m.skip(0) =~= news_m);
        }
        let mut i: usize = 0;
        while i < new_tree.children.len()
            invariant
                i <= news_m.len(),
                used@.len() == olds_m.len(),
                olds_m == models_of(self.children@),
                news_m == models_of(new_tree.children@),
                olds_m.len() == self.children@.len(),
                news_m.len() == new_tree.children@.len(),
                forall|j: int|
                    0 <= j < self.children@.len() ==> olds_m[j] == #[trigger] self.children@[
                    j].model(),
                forall|j: int|
                    0 <= j < new_tree.children@.len() ==> news_m[j] == #[trigger] new_tree.children@[
                    j].model(),
                target == ({
                    let (a2, r2, u2) = diff_news(olds_m, used@, news_m.skip(i as int));
                    (descr_views(add@) + a2, descr_views(remove@) + r2, u2)
                }),
            decreases news_m.len() - i,
        {
            let ghost path_m = news_m[i as int].path();
            let ghost used0 = used@;
            let mut found: bool = false;
            let mut idx: usize = 0;
            let mut k: usize = 0;
            while k < self.children.len()
                invariant
                    k <= self.children@.len(),
                    used@.len() == olds_m.len(),
                    used@ == used0,
                    olds_m.len() == self.children@.len(),
                    olds_m == models_of(self.children@),
                    forall|j: int|
                        0 <= j < self.children@.len() ==> olds_m[j] == #[trigger] self.children@[
                        j].model(),
                    i < news_m.len(),
                    news_m == models_of(new_tree.children@),
                    news_m.len() == new_tree.children@.len(),
                    forall|j: int|
                        0 <= j < new_tree.children@.len() ==> news_m[j]
                            == #[trigger] new_tree.children@[j].model(),
                    path_m == news_m[i as int].path(),
                    !found ==> forall|j: int|
                        0 <= j < k ==> used@[j] || (#[trigger] olds_m[j]).path() != path_m,
                    found ==> idx < olds_m.len() && !used@[idx as int] && olds_m[idx as int].path()
                        == path_m && (forall|j: int|
                        0 <= j < idx ==> used@[j] || (#[trigger] olds_m[j]).path() != path_m),
                decreases self.children@.len() - k,
            {
                if !found && !used[k] {
                    if *self.children[k].path() == *new_tree.children[i].path() {
                        found = true;
                        idx = k;
                    }
                }
                k = k + 1;
            }
            let ghost spec_idx = first_unused_with_path(olds_m, used@, path_m);
            proof {
                lemma_first_unused_with_path(olds_m, used@, path_m);
                if found {
                    if spec_idx < idx as int {
                        assert(used@[spec_idx] || olds_m[spec_idx].path() != path_m);
                        assert(false);
                    }
                    if spec_idx > idx as int || spec_idx < 0 {
                        assert(used@[idx as int] || olds_m[idx as int].path() != path_m);
                        assert(false);
                    }
                    assert(spec_idx == idx as int);
                } else {
                    assert(spec_idx < 0 || (0 <= spec_idx < olds_m.len() && !used@[spec_idx]
                        && olds_m[spec_idx].path() == path_m));
                    if spec_idx >= 0 {
                        assert(used@[spec_idx] || olds_m[spec_idx].path() != path_m);
                        assert(false);
                    }
                }
                assert(news_m.skip(i as int)[0] == news_m[i as int]);
                assert(news_m.skip(i as int).drop_first() =~= news_m.skip(i as int + 1));
            }
            if found {
                let (mut a1, mut r1) = self.children[idx].diff(&new_tree.children[i]);
                let ghost a1v = descr_views(a1@);
                let ghost r1v = descr_views(r1@);
                let ghost add0 = add@;
                let ghost remove0 = remove@;
                add.append(&mut a1);
                remove.append(&mut r1);
                used.set(idx, true);
                proof {
                    assert(descr_views(add@) =~= descr_views(add0) + a1v);
                    assert(descr_views(remove@) =~= descr_views(remove0) + r1v);
                    let (a2, r2, u2) = diff_news(olds_m, used@, news_m.skip(i as int + 1));
                    assert(diff_news(olds_m, used0, news_m.skip(i as int)) == (
                        a1v + a2,
                        r1v + r2,
                        u2,
                    ));
                    assert(descr_views(add0) + (a1v + a2) =~= descr_views(add@) + a2);
                    assert(descr_views(remove0) + (r1v + r2) =~= descr_views(remove@) + r2);
                }
            } else {
                let mut a0 = new_tree.children[i].all_obj_descriptions_obj();
                let ghost a0v = descr_views(a0@);
                let ghost add0 = add@;
                add.append(&mut a0);
                proof {
                    assert(descr_views(add@) =~= descr_views(add0) + a0v);
                    let (a2, r2, u2) = diff_news(olds_m, used@, news_m.skip(i as int + 1));
                    assert(diff_news(olds_m, used0, news_m.skip(i as int)) == (
                        a0v + a2,
                        r2,
                        u2,
                    ));
                    assert(descr_views(add0) + (a0v + a2) =~= descr_views(add@) + a2);
                }
            }
            i = i + 1;
        }
        proof {
            assert(news_m.skip(news_m.len() as int) =~= Seq::<NodeModel>::empty());
            let (a2, r2, u2) = diff_news(olds_m, used@, Seq::<NodeModel>::empty());
            assert(a2 =~= Seq::<DescrModel>::empty());
            assert(r2 =~= Seq::<DescrModel>::empty());
            assert(descr_views(add@) + Seq::<DescrModel>::empty() =~= descr_views(add@));
            assert(descr_views(remove@) + Seq::<DescrModel>::empty() =~= descr_views(remove@));
            assert(target == (descr_views(add@), descr_views(remove@), used@));
            assert(olds_m.skip(0) =~= olds_m);
            assert(used@.skip(0) =~= used@);
        }
        let ghost used_final = used@;
        let mut j: usize = 0;
        while j < self.children.len()
            invariant
                j <= olds_m.len(),
                used@ == used_final,
                used@.len() == olds_m.len(),
                olds_m == models_of(self.children@),
                olds_m.len() == self.children@.len(),
                forall|jj: int|
                    0 <= jj < self.children@.len() ==> olds_m[jj] == #[trigger] self.children@[
                    jj].model(),
                descr_views(remove@) + removed_leftovers(olds_m.skip(j as int), used@.skip(j as int))
                    == target.1 + removed_leftovers(olds_m, used_final),
                descr_views(add@) == target.0,
            decreases olds_m.len() - j,
        {
            proof {
                assert(olds_m.skip(j as int)[0] == olds_m[j as int]);
                assert(olds_m.skip(j as int).drop_first() =~= olds_m.skip(j as int + 1));
                assert(used@.skip(j as int)[0] == used@[j as int]);
                assert(used@.skip(j as int).drop_first() =~= used@.skip(j as int + 1));
            }
            if !used[j] {
                let mut r0 = self.children[j].all_obj_descriptions_obj();
                let ghost r0v = descr_views(r0@);
                let ghost remove0 = remove@;
                remove.append(&mut r0);
                proof {
                    assert(descr_views(remove@) =~= descr_views(remove0) + r0v);
                    assert(removed_leftovers(olds_m.skip(j as int), used@.skip(j as int)) == r0v
                        + removed_leftovers(olds_m.skip(j as int + 1), used@.skip(j as int + 1)));
                    assert(descr_views(remove0) + (r0v + removed_leftovers(
                        olds_m.skip(j as int + 1),
                        used@.skip(j as int + 1),
                    )) =~= descr_views(remove@) + removed_leftovers(
                        olds_m.skip(j as int + 1),
                        used@.skip(j as int + 1),
                    ));
                }
            } else {
                proof {
                    assert(removed_leftovers(olds_m.skip(j as int), used@.skip(j as int))
                        == Seq::<DescrModel>::empty() + removed_leftovers(
                        olds_m.skip(j as int + 1),
                        used@.skip(j as int + 1),
                    ));
                    assert(Seq::<DescrModel>::empty() + removed_leftovers(
                        olds_m.skip(j as int + 1),
                        used@.skip(j as int + 1),
                    ) =~= removed_leftovers(olds_m.skip(j as int + 1), used@.skip(j as int + 1)));
                }
            }
            j = j + 1;
        }
        proof {
            assert(olds_m.skip(olds_m.len() as int) =~= Seq::<NodeModel>::empty());
            assert(used@.skip(olds_m.len() as int) =~= Seq::<bool>::empty());
            assert(removed_leftovers(Seq::<NodeModel>::empty(), Seq::<bool>::empty()) == Seq::<
                DescrModel,
            >::empty());
            assert(descr_views(remove@) + Seq::<DescrModel>::empty() =~= descr_views(remove@));
        }
        (add, remove)
    }
}

/// The diff of two whole trees: empty when the root hashes agree, otherwise
/// both roots change and the children are matched by path. Ordering within
/// each stream is an implementation detail.
pub fn diff(old_tree: &Tree, new_tree: &Tree) -> (r: (Vec<ObjDescription>, Vec<ObjDescription>))
    ensures
        (descr_views(r.0@), descr_views(r.1@)) == spec_diff(old_tree.model(), new_tree.model()),
        old_tree.model().hash() == new_tree.model().hash() ==> r.0@.len() == 0 && r.1@.len() == 0,
{
    let mut add: Vec<ObjDescription> = Vec::new();
    let mut remove: Vec<ObjDescription> = Vec::new();
    proof {
        assert(descr_views(add@) =~= Seq::<DescrModel>::empty());
        assert(descr_views(remove@) =~= Seq::<DescrModel>::empty());
    }
    if old_tree.hash == new_tree.hash {
        return (add, remove);
    }
    let (mut ca, mut cr) = old_tree.diff_children(new_tree);
    let ghost cav = descr_views(ca@);
    let ghost crv = descr_views(cr@);
    add.push(new_tree.descr());
    remove.push(old_tree.descr());
    add.append(&mut ca);
    remove.append(&mut cr);
    proof {
        assert(descr_views(add@) =~= seq![new_tree.model().descr()] + cav);
        assert(descr_views(remove@) =~= seq![old_tree.model().descr()] + crv);
    }
    (add, remove)
}

} // verus!
