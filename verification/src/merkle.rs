//! The Merkle objects: blobs (files) and trees (directories), their ghost
//! models, and flat object descriptions used as the unit of diff output.

use vstd::prelude::*;
use crate::hashing::{ObjectHash, spec_tree_hash, sha1_digest_bytes};

verus! {

/// The ghost model of a Merkle object: the same shape as the executable
/// objects, over mathematical sequences.
pub enum NodeModel {
    Blob { parent: Option<Seq<u8>>, hash: Seq<u8>, path: Seq<char> },
    Tree { parent: Option<Seq<u8>>, hash: Seq<u8>, path: Seq<char>, children: Seq<NodeModel> },
}

/// The ghost model of a flat object description.
pub struct DescrModel {
    pub hash: Seq<u8>,
    pub path: Seq<char>,
    pub is_blob: bool,
}

impl NodeModel {
    /// The node's content hash.
    pub open spec fn hash(self) -> Seq<u8> {
        match self {
            NodeModel::Blob { hash, .. } => hash,
            NodeModel::Tree { hash, .. } => hash,
        }
    }

    /// The node's path.
    pub open spec fn path(self) -> Seq<char> {
        match self {
            NodeModel::Blob { path, .. } => path,
            NodeModel::Tree { path, .. } => path,
        }
    }

    /// The node's parent hash, if assigned.
    pub open spec fn parent(self) -> Option<Seq<u8>> {
        match self {
            NodeModel::Blob { parent, .. } => parent,
            NodeModel::Tree { parent, .. } => parent,
        }
    }

    /// Whether the node is a blob.
    pub open spec fn is_blob(self) -> bool {
        self is Blob
    }

    /// The node's children (empty for a blob).
    pub open spec fn children(self) -> Seq<NodeModel> {
        match self {
            NodeModel::Blob { .. } => seq![],
            NodeModel::Tree { children, .. } => children,
        }
    }

    /// The flat description of the node alone.
    pub open spec fn descr(self) -> DescrModel {
        DescrModel { hash: self.hash(), path: self.path(), is_blob: self.is_blob() }
    }

    /// Every hash in the node has the 20-byte width.
    pub open spec fn wf(self) -> bool
        decreases self,
    {
        &&& self.hash().len() == 20
        &&& (self.parent() is Some ==> self.parent()->0.len() == 20)
        &&& match self {
            NodeModel::Blob { .. } => true,
            NodeModel::Tree { children, .. } => children_wf(children),
        }
    }
}

/// Every node of the sequence is well-formed.
pub open spec fn children_wf(ms: Seq<NodeModel>) -> bool
    decreases ms,
{
    if ms.len() == 0 {
        true
    } else {
        ms[0].wf() && children_wf(ms.drop_first())
    }
}

/// `children_wf` holds exactly when each node is well-formed.
pub proof fn lemma_children_wf(ms: Seq<NodeModel>)
    ensures
        children_wf(ms) <==> (forall|i: int| 0 <= i < ms.len() ==> (#[trigger] ms[i]).wf()),
    decreases ms.len(),
{
    if ms.len() > 0 {
        lemma_children_wf(ms.drop_first());
        if children_wf(ms) {
            assert forall|i: int| 0 <= i < ms.len() implies (#[trigger] ms[i]).wf() by {
                if i > 0 {
                    assert(ms.drop_first()[i - 1] == ms[i]);
                }
            }
        }
        if forall|i: int| 0 <= i < ms.len() ==> (#[trigger] ms[i]).wf() {
            assert forall|j: int|
                0 <= j < ms.drop_first().len() implies (#[trigger] ms.drop_first()[j]).wf() by {
                assert(ms.drop_first()[j] == ms[j + 1]);
            }
            assert(ms[0].wf());
        }
    }
}

/// The descriptions of a whole subtree, in pre-order: the node itself first,
/// then each child's subtree in child order.
pub open spec fn all_descrs(m: NodeModel) -> Seq<DescrModel>
    decreases m,
{
    match m {
        NodeModel::Blob { .. } => seq![m.descr()],
        NodeModel::Tree { children, .. } => seq![m.descr()] + all_descrs_seq(children),
    }
}

/// The concatenated pre-order descriptions of a sequence of subtrees.
pub open spec fn all_descrs_seq(ms: Seq<NodeModel>) -> Seq<DescrModel>
    decreases ms,
{
    if ms.len() == 0 {
        seq![]
    } else {
        all_descrs(ms[0]) + all_descrs_seq(ms.drop_first())
    }
}

/// Splitting the last subtree off a non-empty sequence splits its
/// concatenated descriptions.
pub proof fn lemma_all_descrs_seq_push(ms: Seq<NodeModel>, m: NodeModel)
    ensures
        all_descrs_seq(ms.push(m)) == all_descrs_seq(ms) + all_descrs(m),
    decreases ms.len(),
{
    if ms.len() == 0 {
        assert(ms.push(m)[0] == m);
        assert(ms.push(m).drop_first() =~= Seq::<NodeModel>::empty());
        assert(all_descrs_seq(Seq::<NodeModel>::empty()) == Seq::<DescrModel>::empty());
        assert(all_descrs_seq(ms.push(m)) == all_descrs(m) + Seq::<DescrModel>::empty());
        assert(all_descrs(m) + Seq::<DescrModel>::empty() =~= all_descrs(m));
        assert(all_descrs_seq(ms) == Seq::<DescrModel>::empty());
        assert(Seq::<DescrModel>::empty() + all_descrs(m) =~= all_descrs(m));
    } else {
        assert(ms.push(m)[0] == ms[0]);
        assert(ms.push(m).drop_first() =~= ms.drop_first().push(m));
        lemma_all_descrs_seq_push(ms.drop_first(), m);
        assert(all_descrs_seq(ms.push(m)) == all_descrs(ms[0]) + (all_descrs_seq(ms.drop_first())
            + all_descrs(m)));
        assert(all_descrs_seq(ms) == all_descrs(ms[0]) + all_descrs_seq(ms.drop_first()));
        assert(all_descrs(ms[0]) + (all_descrs_seq(ms.drop_first()) + all_descrs(m)) =~= (
        all_descrs(ms[0]) + all_descrs_seq(ms.drop_first())) + all_descrs(m));
    }
}

/// The ghost models of a sequence of objects, in order.
pub open spec fn models_of(objs: Seq<Object>) -> Seq<NodeModel>
    decreases objs,
{
    if objs.len() == 0 {
        seq![]
    } else {
        seq![objs[0].model()] + models_of(objs.drop_first())
    }
}

/// `models_of` maps each object to its model, position by position.
pub proof fn lemma_models_of(objs: Seq<Object>)
    ensures
        models_of(objs).len() == objs.len(),
        forall|i: int| 0 <= i < objs.len() ==> models_of(objs)[i] == #[trigger] objs[i].model(),
    decreases objs.len(),
{
    if objs.len() > 0 {
        lemma_models_of(objs.drop_first());
        assert forall|i: int| 0 <= i < objs.len() implies models_of(objs)[i] == #[trigger] objs[i].model() by {
            if i > 0 {
                assert(objs.drop_first()[i - 1] == objs[i]);
                assert(models_of(objs)[i] == models_of(objs.drop_first())[i - 1]);
            }
        }
    }
}

/// Appending an object appends its model.
pub proof fn lemma_models_of_push(objs: Seq<Object>, o: Object)
    ensures
        models_of(objs.push(o)) == models_of(objs).push(o.model()),
{
    lemma_models_of(objs.push(o));
    lemma_models_of(objs);
    assert(objs.push(o)[objs.len() as int] == o);
    assert forall|i: int|
        0 <= i < models_of(objs.push(o)).len() implies models_of(objs.push(o))[i] == models_of(
        objs,
    ).push(o.model())[i] by {
        if i < objs.len() {
            assert(objs.push(o)[i] == objs[i]);
            assert(models_of(objs.push(o))[i] == objs[i].model());
        }
    }
    assert(models_of(objs.push(o)) =~= models_of(objs).push(o.model()));
}

/// A file in the Merkle structure.
pub struct Blob {
    pub parent: Option<ObjectHash>,
    pub hash: ObjectHash,
    pub path: String,
}

/// A directory in the Merkle structure.
pub struct Tree {
    pub parent: Option<ObjectHash>,
    pub children: Vec<Object>,
    pub hash: ObjectHash,
    pub path: String,
}

/// Either a file or a directory.
pub enum Object {
    Tree(Tree),
    Blob(Blob),
}

/// A flat description of one object: its hash, its path, and whether it is a
/// file.
pub struct ObjDescription {
    pub hash: ObjectHash,
    pub path: String,
    pub is_blob: bool,
}

/// The model of an optional hash.
pub open spec fn opt_hash_view(p: Option<ObjectHash>) -> Option<Seq<u8>> {
    match p {
        Option::None => Option::None,
        Option::Some(h) => Option::Some(h@),
    }
}

impl View for ObjDescription {
    type V = DescrModel;

    open spec fn view(&self) -> DescrModel {
        DescrModel { hash: self.hash@, path: self.path@, is_blob: self.is_blob }
    }
}

/// The models of a vector of descriptions.
pub open spec fn descr_views(ds: Seq<ObjDescription>) -> Seq<DescrModel> {
    ds.map(|i: int, d: ObjDescription| d@)
}

impl Blob {
    /// The blob's ghost model.
    pub open spec fn model(&self) -> NodeModel {
        NodeModel::Blob { parent: opt_hash_view(self.parent), hash: self.hash@, path: self.path@ }
    }

    /// The flat description of the blob.
    pub fn descr(&self) -> (r: ObjDescription)
        ensures
            r@ == self.model().descr(),
    {
        ObjDescription { hash: self.hash.duplicate(), path: self.path.clone(), is_blob: true }
    }
}

impl Tree {
    /// The tree's ghost model.
    pub open spec fn model(&self) -> NodeModel
        decreases self,
    {
        NodeModel::Tree {
            parent: opt_hash_view(self.parent),
            hash: self.hash@,
            path: self.path@,
            children: models_of(self.children@),
        }
    }

    /// The flat description of the tree node alone.
    pub fn descr(&self) -> (r: ObjDescription)
        ensures
            r@ == self.model().descr(),
    {
        ObjDescription { hash: self.hash.duplicate(), path: self.path.clone(), is_blob: false }
    }

    /// The empty workspace: a root with no children, hashed over the empty
    /// child list, with an empty path.
    pub fn empty() -> (r: Tree)
        ensures
            r.model() == (NodeModel::Tree {
                parent: Option::None,
                hash: spec_tree_hash(seq![]),
                path: Seq::<char>::empty(),
                children: seq![],
            }),
    {
        let mut preimage: Vec<u8> = Vec::new();
        preimage.push(116);
        preimage.push(114);
        preimage.push(101);
        preimage.push(101);
        proof {
            assert(preimage@ =~= seq![116u8, 114u8, 101u8, 101u8]);
            assert(Seq::<Seq<u8>>::empty().flatten() =~= Seq::<u8>::empty());
            assert(preimage@ =~= crate::hashing::tree_preimage(seq![]));
        }
        let digest = sha1_digest_bytes(&preimage);
        let t = Tree {
            parent: Option::None,
            children: Vec::new(),
            hash: ObjectHash::from_bytes(digest),
            path: String::new(),
        };
        proof {
            assert(t.children@ =~= Seq::<Object>::empty());
            assert(models_of(t.children@) == Seq::<NodeModel>::empty());
            assert(models_of(t.children@) =~= seq![]);
        }
        t
    }

    /// The descriptions of every node of the subtree, in pre-order.
    pub fn all_obj_descriptions(&self) -> (r: Vec<ObjDescription>)
        ensures
            descr_views(r@) == all_descrs(self.model()),
        decreases self,
    {
        let mut out: Vec<ObjDescription> = Vec::new();
        out.push(self.descr());
        let ghost children_models = models_of(self.children@);
        let mut i: usize = 0;
        proof {
            lemma_models_of(self.children@);
            assert(children_models.take(0) =~= Seq::<NodeModel>::empty());
            assert(all_descrs_seq(Seq::<NodeModel>::empty()) == Seq::<DescrModel>::empty());
            assert(descr_views(out@) =~= seq![self.model().descr()] + all_descrs_seq(
                children_models.take(0),
            ));
        }
        while i < self.children.len()
            invariant
                i <= self.children@.len(),
                children_models == models_of(self.children@),
                children_models.len() == self.children@.len(),
                forall|j: int|
                    0 <= j < self.children@.len() ==> children_models[j]
                        == #[trigger] self.children@[j].model(),
                descr_views(out@) == seq![self.model().descr()] + all_descrs_seq(
                    children_models.take(i as int),
                ),
            decreases self.children@.len() - i,
        {
            let mut child_descrs = self.children[i].all_obj_descriptions_obj();
            let ghost prev_out = out@;
            let ghost child_views = descr_views(child_descrs@);
            out.append(&mut child_descrs);
            i = i + 1;
            proof {
                assert(children_models.take(i as int) =~= children_models.take(
                    i as int - 1,
                ).push(children_models[i as int - 1]));
                lemma_all_descrs_seq_push(
                    children_models.take(i as int - 1),
                    children_models[i as int - 1],
                );
                assert(descr_views(out@) =~= descr_views(prev_out) + child_views);
                assert(descr_views(out@) =~= seq![self.model().descr()] + all_descrs_seq(
                    children_models.take(i as int),
                ));
            }
        }
        proof {
            assert(children_models.take(self.children@.len() as int) =~= children_models);
        }
        out
    }
}

impl Object {
    /// The object's ghost model.
    pub open spec fn model(&self) -> NodeModel
        decreases self,
    {
        match self {
            Object::Tree(t) => t.model(),
            Object::Blob(b) => b.model(),
        }
    }

    /// The object's content hash.
    pub fn hash(&self) -> (r: ObjectHash)
        ensures
            r@ == self.model().hash(),
    {
        match self {
            Object::Tree(t) => t.hash.duplicate(),
            Object::Blob(b) => b.hash.duplicate(),
        }
    }

    /// The object's content hash, borrowed.
    pub fn hash_ref(&self) -> (r: &ObjectHash)
        ensures
            r@ == self.model().hash(),
    {
        match self {
            Object::Tree(t) => &t.hash,
            Object::Blob(b) => &b.hash,
        }
    }

    /// The object's path.
    pub fn path(&self) -> (r: &String)
        ensures
            r@ == self.model().path(),
    {
        match self {
            Object::Tree(t) => &t.path,
            Object::Blob(b) => &b.path,
        }
    }

    /// The flat description of the object.
    pub fn descr(&self) -> (r: ObjDescription)
        ensures
            r@ == self.model().descr(),
    {
        match self {
            Object::Tree(t) => t.descr(),
            Object::Blob(b) => b.descr(),
        }
    }

    /// The descriptions of the object's whole subtree, in pre-order.
    pub fn all_obj_descriptions_obj(&self) -> (r: Vec<ObjDescription>)
        ensures
            descr_views(r@) == all_descrs(self.model()),
        decreases self,
    {
        match self {
            Object::Tree(t) => t.all_obj_descriptions(),
            Object::Blob(b) => {
                let mut out: Vec<ObjDescription> = Vec::new();
                out.push(b.descr());
                proof {
                    assert(descr_views(out@) =~= all_descrs(b.model()));
                }
                out
            },
        }
    }
}

} // verus!
