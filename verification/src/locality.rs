//! Locality of change: when two walks differ only in the contents of one
//! file, the trees they build agree, hash for hash, everywhere off the chain
//! of directories leading to that file. (That the chain's own hashes actually
//! differ would need the hash function to be collision-free, which no fixed
//! digest is; tests exercise that direction.)

use vstd::prelude::*;
use crate::merkle::NodeModel;
use crate::builder::{EntryModel, KindModel, PartialModel, walk_wf, stack_after, spec_build,
    pop_once, pop_to, step_model, blob_model, finalize_model, hashes_of, spec_assign_root,
    assign_parents, assign_parents_seq, lemma_assign_parents_seq, lemma_stack_after_len,
    walk_wf_upto};

verus! {

/// Two nodes carry the same hashes throughout: same kind, same path, same
/// hash, and children alike, position by position. Parent fields are not
/// compared: they record where a node sits, not what it contains.
pub open spec fn same_hashes(m1: NodeModel, m2: NodeModel) -> bool
    decreases m1,
{
    match (m1, m2) {
        (NodeModel::Blob { .. }, NodeModel::Blob { .. }) => m1.path() == m2.path() && m1.hash()
            == m2.hash(),
        (
            NodeModel::Tree { children: c1, .. },
            NodeModel::Tree { children: c2, .. },
        ) => m1.path() == m2.path() && m1.hash() == m2.hash() && same_hashes_seq(c1, c2),
        _ => false,
    }
}

/// Two forests carry the same hashes, position by position.
pub open spec fn same_hashes_seq(c1: Seq<NodeModel>, c2: Seq<NodeModel>) -> bool
    decreases c1,
{
    if c1.len() != c2.len() {
        false
    } else if c1.len() == 0 {
        true
    } else {
        same_hashes(c1[0], c2[0]) && same_hashes_seq(c1.drop_first(), c2.drop_first())
    }
}

/// The two trees agree everywhere off the descending chain of child indices:
/// same shape and paths throughout; identical hashes at every child off the
/// chain; and at the chain's end, a pair of files at the same path (whose
/// hashes alone may differ).
pub open spec fn agree_off_chain(m1: NodeModel, m2: NodeModel, chain: Seq<int>) -> bool
    decreases chain.len(),
{
    if chain.len() == 0 {
        m1 is Blob && m2 is Blob && m1.path() == m2.path()
    } else {
        &&& m1 is Tree
        &&& m2 is Tree
        &&& m1.path() == m2.path()
        &&& m1.children().len() == m2.children().len()
        &&& 0 <= chain[0] < m1.children().len()
        &&& forall|j: int|
            0 <= j < m1.children().len() && j != chain[0] ==> same_hashes(
                #[trigger] m1.children()[j],
                m2.children()[j],
            )
        &&& agree_off_chain(m1.children()[chain[0]], m2.children()[chain[0]], chain.drop_first())
    }
}

/// Same hashes is reflexive.
pub proof fn lemma_same_hashes_refl(m: NodeModel)
    ensures
        same_hashes(m, m),
    decreases m,
{
    match m {
        NodeModel::Blob { .. } => {},
        NodeModel::Tree { children, .. } => {
            lemma_same_hashes_seq_refl(children);
        },
    }
}

/// Same hashes on forests is reflexive.
pub proof fn lemma_same_hashes_seq_refl(c: Seq<NodeModel>)
    ensures
        same_hashes_seq(c, c),
    decreases c,
{
    if c.len() > 0 {
        lemma_same_hashes_refl(c[0]);
        lemma_same_hashes_seq_refl(c.drop_first());
    }
}

/// Positionwise characterization of `same_hashes_seq`.
pub proof fn lemma_same_hashes_seq_index(c1: Seq<NodeModel>, c2: Seq<NodeModel>)
    ensures
        same_hashes_seq(c1, c2) <==> (c1.len() == c2.len() && forall|j: int|
            0 <= j < c1.len() ==> same_hashes(#[trigger] c1[j], c2[j])),
    decreases c1.len(),
{
    if c1.len() > 0 && c1.len() == c2.len() {
        lemma_same_hashes_seq_index(c1.drop_first(), c2.drop_first());
        if same_hashes_seq(c1, c2) {
            assert forall|j: int| 0 <= j < c1.len() implies same_hashes(
                #[trigger] c1[j],
                c2[j],
            ) by {
                if j > 0 {
                    assert(c1.drop_first()[j - 1] == c1[j]);
                    assert(c2.drop_first()[j - 1] == c2[j]);
                }
            }
        }
        if c1.len() == c2.len() && (forall|j: int|
            0 <= j < c1.len() ==> same_hashes(#[trigger] c1[j], c2[j])) {
            assert forall|j: int|
                0 <= j < c1.drop_first().len() implies same_hashes(
                #[trigger] c1.drop_first()[j],
                c2.drop_first()[j],
            ) by {
                assert(c1.drop_first()[j] == c1[j + 1]);
                assert(c2.drop_first()[j] == c2[j + 1]);
            }
            assert(same_hashes(c1[0], c2[0]));
        }
    }
}

/// Forests with the same hashes list the same hashes.
pub proof fn lemma_hashes_of_same(c1: Seq<NodeModel>, c2: Seq<NodeModel>)
    requires
        same_hashes_seq(c1, c2),
    ensures
        hashes_of(c1) == hashes_of(c2),
    decreases c1.len(),
{
    if c1.len() > 0 {
        lemma_hashes_of_same(c1.drop_first(), c2.drop_first());
        assert(same_hashes(c1[0], c2[0]));
        assert(c1[0].hash() == c2[0].hash()) by {
            match (c1[0], c2[0]) {
                (NodeModel::Blob { .. }, NodeModel::Blob { .. }) => {},
                (NodeModel::Tree { .. }, NodeModel::Tree { .. }) => {},
                _ => {
                    assert(false);
                },
            }
        }
        assert(hashes_of(c1) =~= hashes_of(c2));
    }
}

/// Two partial trees alike: same path, children with the same hashes.
pub open spec fn partial_same(p1: PartialModel, p2: PartialModel) -> bool {
    p1.path == p2.path && same_hashes_seq(p1.children, p2.children)
}

/// Two stacks alike except the partial at `p` (no exception when `p` is one
/// past the end): there, the children agree except at `q`, below which the
/// trees agree off `chain`.
pub open spec fn stacks_rel(
    s1: Seq<PartialModel>,
    s2: Seq<PartialModel>,
    p: int,
    q: int,
    chain: Seq<int>,
) -> bool {
    &&& s1.len() == s2.len()
    &&& 0 <= p <= s1.len()
    &&& forall|j: int| 0 <= j < s1.len() && j != p ==> partial_same(#[trigger] s1[j], s2[j])
    &&& (p < s1.len() ==> {
        &&& s1[p].path == s2[p].path
        &&& s1[p].children.len() == s2[p].children.len()
        &&& 0 <= q < s1[p].children.len()
        &&& forall|j: int|
            0 <= j < s1[p].children.len() && j != q ==> same_hashes(
                #[trigger] s1[p].children[j],
                s2[p].children[j],
            )
        &&& agree_off_chain(s1[p].children[q], s2[p].children[q], chain)
    })
}

/// Finishing alike partials yields trees with the same hashes.
pub proof fn lemma_finalize_same(p1: PartialModel, p2: PartialModel)
    requires
        partial_same(p1, p2),
    ensures
        same_hashes(finalize_model(p1), finalize_model(p2)),
{
    lemma_hashes_of_same(p1.children, p2.children);
}

/// Appending alike nodes keeps forests alike.
pub proof fn lemma_same_seq_push(
    c1: Seq<NodeModel>,
    c2: Seq<NodeModel>,
    m1: NodeModel,
    m2: NodeModel,
)
    requires
        same_hashes_seq(c1, c2),
        same_hashes(m1, m2),
    ensures
        same_hashes_seq(c1.push(m1), c2.push(m2)),
{
    lemma_same_hashes_seq_index(c1, c2);
    lemma_same_hashes_seq_index(c1.push(m1), c2.push(m2));
    assert forall|j: int|
        0 <= j < c1.push(m1).len() implies same_hashes(
        #[trigger] c1.push(m1)[j],
        c2.push(m2)[j],
    ) by {
        if j < c1.len() {
            assert(c1.push(m1)[j] == c1[j]);
            assert(c2.push(m2)[j] == c2[j]);
        } else {
            assert(c1.push(m1)[j] == m1);
            assert(c2.push(m2)[j] == m2);
        }
    }
}

/// Closing the top directory keeps the stacks related; the one differing
/// partial (if any) moves down a level when it is the one closed.
pub proof fn lemma_pop_once_rel(
    s1: Seq<PartialModel>,
    s2: Seq<PartialModel>,
    p: int,
    q: int,
    chain: Seq<int>,
) -> (r: (int, int, Seq<int>))
    requires
        stacks_rel(s1, s2, p, q, chain),
        s1.len() >= 2,
    ensures
        stacks_rel(pop_once(s1), pop_once(s2), r.0, r.1, r.2),
{
    let li = s1.len() - 1;
    let pi = s1.len() - 2;
    let t1 = finalize_model(s1.last());
    let t2 = finalize_model(s2.last());
    let n1 = pop_once(s1);
    let n2 = pop_once(s2);
    let newp: int = if p == li || p == pi {
        pi
    } else {
        p
    };
    assert forall|j: int|
        0 <= j < n1.len() && j != newp && j != pi implies partial_same(
        #[trigger] n1[j],
        n2[j],
    ) by {
        assert(n1[j] == s1[j]);
        assert(n2[j] == s2[j]);
    }
    if p == li {
        // the closed directory is the differing one: its finished trees agree
        // off the chain extended by the differing child's index, and they sit
        // at the end of the parent's children
        assert(partial_same(s1[pi], s2[pi]));
        assert(agree_off_chain(t1, t2, seq![q] + chain)) by {
            assert((seq![q] + chain)[0] == q);
            assert((seq![q] + chain).drop_first() =~= chain);
            assert(t1.children() == s1[li].children);
            assert(t2.children() == s2[li].children);
            assert(t1.path() == s1[li].path);
            assert(t2.path() == s2[li].path);
            assert forall|j: int|
                0 <= j < t1.children().len() && j != q implies same_hashes(
                #[trigger] t1.children()[j],
                t2.children()[j],
            ) by {
                assert(same_hashes(s1[li].children[j], s2[li].children[j]));
            }
            assert(agree_off_chain(t1.children()[q], t2.children()[q], chain));
        }
        let newq = s1[pi].children.len() as int;
        lemma_same_hashes_seq_index(s1[pi].children, s2[pi].children);
        assert forall|j: int|
            0 <= j < n1[pi].children.len() && j != newq implies same_hashes(
            #[trigger] n1[pi].children[j],
            n2[pi].children[j],
        ) by {
            assert(n1[pi].children[j] == s1[pi].children[j]);
            assert(n2[pi].children[j] == s2[pi].children[j]);
        }
        assert(n1[pi].children[newq] == t1);
        assert(n2[pi].children[newq] == t2);
        assert(stacks_rel(n1, n2, pi, newq, seq![q] + chain));
        (pi, newq, seq![q] + chain)
    } else if p == pi {
        // the closed directory is alike; its finished tree lands at the end
        // of the differing parent's children
        assert(partial_same(s1[li], s2[li]));
        lemma_finalize_same(s1[li], s2[li]);
        assert forall|j: int|
            0 <= j < n1[pi].children.len() && j != q implies same_hashes(
            #[trigger] n1[pi].children[j],
            n2[pi].children[j],
        ) by {
            if j < s1[pi].children.len() {
                assert(n1[pi].children[j] == s1[pi].children[j]);
                assert(n2[pi].children[j] == s2[pi].children[j]);
            } else {
                assert(n1[pi].children[j] == t1);
                assert(n2[pi].children[j] == t2);
            }
        }
        assert(n1[pi].children[q] == s1[pi].children[q]);
        assert(n2[pi].children[q] == s2[pi].children[q]);
        assert(stacks_rel(n1, n2, pi, q, chain));
        (pi, q, chain)
    } else if p == s1.len() {
        // nothing differs anywhere
        assert(partial_same(s1[li], s2[li]));
        lemma_finalize_same(s1[li], s2[li]);
        assert(partial_same(s1[pi], s2[pi]));
        lemma_same_seq_push(s1[pi].children, s2[pi].children, t1, t2);
        assert(partial_same(n1[pi], n2[pi]));
        assert(stacks_rel(n1, n2, n1.len() as int, 0, Seq::<int>::empty()));
        (n1.len() as int, 0int, Seq::<int>::empty())
    } else {
        // both closed directories are alike, and so are their parents
        assert(partial_same(s1[li], s2[li]));
        lemma_finalize_same(s1[li], s2[li]);
        assert(partial_same(s1[pi], s2[pi]));
        lemma_same_seq_push(s1[pi].children, s2[pi].children, t1, t2);
        assert(partial_same(n1[pi], n2[pi]));
        assert(n1[p] == s1[p]);
        assert(n2[p] == s2[p]);
        assert(stacks_rel(n1, n2, p, q, chain));
        (p, q, chain)
    }
}

/// Closing directories down to a level keeps the stacks related.
pub proof fn lemma_pop_to_rel(
    s1: Seq<PartialModel>,
    s2: Seq<PartialModel>,
    d: int,
    p: int,
    q: int,
    chain: Seq<int>,
) -> (r: (int, int, Seq<int>))
    requires
        stacks_rel(s1, s2, p, q, chain),
    ensures
        stacks_rel(pop_to(s1, d), pop_to(s2, d), r.0, r.1, r.2),
    decreases s1.len(),
{
    if s1.len() <= d || s1.len() <= 1 {
        (p, q, chain)
    } else {
        let r1 = lemma_pop_once_rel(s1, s2, p, q, chain);
        lemma_pop_to_rel(pop_once(s1), pop_once(s2), d, r1.0, r1.1, r1.2)
    }
}

/// A non-empty stack stays non-empty under closing.
pub proof fn lemma_pop_to_nonempty(s: Seq<PartialModel>, d: int)
    requires
        s.len() >= 1,
    ensures
        pop_to(s, d).len() >= 1,
    decreases s.len(),
{
    if s.len() <= d || s.len() <= 1 {
    } else {
        lemma_pop_to_nonempty(pop_once(s), d);
    }
}

/// One identical walk entry keeps the stacks related.
pub proof fn lemma_step_rel(
    s1: Seq<PartialModel>,
    s2: Seq<PartialModel>,
    e: EntryModel,
    p: int,
    q: int,
    chain: Seq<int>,
) -> (r: (int, int, Seq<int>))
    requires
        stacks_rel(s1, s2, p, q, chain),
        s1.len() >= 1,
    ensures
        stacks_rel(step_model(s1, e), step_model(s2, e), r.0, r.1, r.2),
{
    let rr = lemma_pop_to_rel(s1, s2, e.depth, p, q, chain);
    lemma_pop_to_nonempty(s1, e.depth);
    let q1 = pop_to(s1, e.depth);
    let q2 = pop_to(s2, e.depth);
    let p2 = rr.0;
    let qq = rr.1;
    let ch = rr.2;
    match e.kind {
        KindModel::Dir => {
            let fresh = PartialModel { path: e.path, children: seq![] };
            let n1 = q1.push(fresh);
            let n2 = q2.push(fresh);
            lemma_same_hashes_seq_refl(fresh.children);
            assert forall|j: int|
                0 <= j < n1.len() && j != p2 implies partial_same(#[trigger] n1[j], n2[j]) by {
                if j < q1.len() {
                    assert(n1[j] == q1[j]);
                    assert(n2[j] == q2[j]);
                } else {
                    assert(n1[j] == fresh);
                    assert(n2[j] == fresh);
                }
            }
            if p2 < q1.len() {
                assert(n1[p2] == q1[p2]);
                assert(n2[p2] == q2[p2]);
                assert(stacks_rel(n1, n2, p2, qq, ch));
                (p2, qq, ch)
            } else {
                assert forall|j: int|
                    0 <= j < n1.len() && j != n1.len() as int implies partial_same(
                    #[trigger] n1[j],
                    n2[j],
                ) by {}
                assert(stacks_rel(n1, n2, n1.len() as int, 0, Seq::<int>::empty()));
                (n1.len() as int, 0int, Seq::<int>::empty())
            }
        },
        KindModel::File { content } => {
            {
                let b = blob_model(e.path, content);
                lemma_same_hashes_refl(b);
                let li = q1.len() - 1;
                let top1 = q1.last();
                let top2 = q2.last();
                let n1 = step_model(s1, e);
                let n2 = step_model(s2, e);
                assert(n1 == q1.update(
                    li,
                    PartialModel { path: top1.path, children: top1.children.push(b) },
                ));
                assert(n2 == q2.update(
                    li,
                    PartialModel { path: top2.path, children: top2.children.push(b) },
                ));
                assert forall|j: int|
                    0 <= j < n1.len() && j != p2 && j != li implies partial_same(
                    #[trigger] n1[j],
                    n2[j],
                ) by {
                    assert(n1[j] == q1[j]);
                    assert(n2[j] == q2[j]);
                }
                if p2 == li {
                    assert forall|j: int|
                        0 <= j < n1[li].children.len() && j != qq implies same_hashes(
                        #[trigger] n1[li].children[j],
                        n2[li].children[j],
                    ) by {
                        if j < top1.children.len() {
                            assert(n1[li].children[j] == top1.children[j]);
                            assert(n2[li].children[j] == top2.children[j]);
                        } else {
                            assert(n1[li].children[j] == b);
                            assert(n2[li].children[j] == b);
                        }
                    }
                    assert(n1[li].children[qq] == top1.children[qq]);
                    assert(n2[li].children[qq] == top2.children[qq]);
                    assert(stacks_rel(n1, n2, p2, qq, ch));
                    (p2, qq, ch)
                } else {
                    assert(partial_same(top1, top2));
                    lemma_same_seq_push(top1.children, top2.children, b, b);
                    assert(partial_same(n1[li], n2[li]));
                    if p2 < n1.len() {
                        assert(n1[p2] == q1[p2]);
                        assert(n2[p2] == q2[p2]);
                    }
                    assert(stacks_rel(n1, n2, p2, qq, ch));
                    (p2, qq, ch)
                }
            }
        },
        KindModel::Binary => {
            (p2, qq, ch)
        },
    }
}


/// Attaching parents never disturbs hashes: nodes with the same hashes keep
/// the same hashes under any parent assignments.
pub proof fn lemma_assign_same_hashes(m1: NodeModel, m2: NodeModel, pa1: Seq<u8>, pa2: Seq<u8>)
    requires
        same_hashes(m1, m2),
    ensures
        same_hashes(assign_parents(m1, pa1), assign_parents(m2, pa2)),
    decreases m1,
{
    match (m1, m2) {
        (NodeModel::Blob { .. }, NodeModel::Blob { .. }) => {},
        (NodeModel::Tree { children: c1, .. }, NodeModel::Tree { children: c2, .. }) => {
            lemma_assign_same_hashes_seq(c1, c2, m1.hash(), m2.hash());
        },
        _ => {},
    }
}

/// The forest version of hash preservation under parent assignment.
pub proof fn lemma_assign_same_hashes_seq(
    c1: Seq<NodeModel>,
    c2: Seq<NodeModel>,
    pa1: Seq<u8>,
    pa2: Seq<u8>,
)
    requires
        same_hashes_seq(c1, c2),
    ensures
        same_hashes_seq(assign_parents_seq(c1, pa1), assign_parents_seq(c2, pa2)),
    decreases c1,
{
    lemma_assign_parents_seq(c1, pa1);
    lemma_assign_parents_seq(c2, pa2);
    lemma_same_hashes_seq_index(c1, c2);
    lemma_same_hashes_seq_index(assign_parents_seq(c1, pa1), assign_parents_seq(c2, pa2));
    assert forall|j: int|
        0 <= j < c1.len() implies same_hashes(
        #[trigger] assign_parents_seq(c1, pa1)[j],
        assign_parents_seq(c2, pa2)[j],
    ) by {
        lemma_assign_same_hashes(c1[j], c2[j], pa1, pa2);
    }
}

/// Attaching parents keeps trees agreeing off a chain.
pub proof fn lemma_assign_agree(
    m1: NodeModel,
    m2: NodeModel,
    chain: Seq<int>,
    pa1: Seq<u8>,
    pa2: Seq<u8>,
)
    requires
        agree_off_chain(m1, m2, chain),
    ensures
        agree_off_chain(assign_parents(m1, pa1), assign_parents(m2, pa2), chain),
    decreases chain.len(),
{
    if chain.len() == 0 {
    } else {
        let c1 = m1.children();
        let c2 = m2.children();
        lemma_assign_parents_seq(c1, m1.hash());
        lemma_assign_parents_seq(c2, m2.hash());
        let a1 = assign_parents(m1, pa1);
        let a2 = assign_parents(m2, pa2);
        assert(a1.children() == assign_parents_seq(c1, m1.hash()));
        assert(a2.children() == assign_parents_seq(c2, m2.hash()));
        assert forall|j: int|
            0 <= j < a1.children().len() && j != chain[0] implies same_hashes(
            #[trigger] a1.children()[j],
            a2.children()[j],
        ) by {
            assert(same_hashes(c1[j], c2[j]));
            lemma_assign_same_hashes(c1[j], c2[j], m1.hash(), m2.hash());
        }
        lemma_assign_agree(c1[chain[0]], c2[chain[0]], chain.drop_first(), m1.hash(), m2.hash());
        assert(a1.children()[chain[0]] == assign_parents(c1[chain[0]], m1.hash()));
        assert(a2.children()[chain[0]] == assign_parents(c2[chain[0]], m2.hash()));
    }
}

/// Equal walk prefixes build equal stacks.
proof fn lemma_prefix_equal(es1: Seq<EntryModel>, es2: Seq<EntryModel>, i: int)
    requires
        es1.len() == es2.len(),
        0 <= i < es1.len(),
        forall|j: int| 0 <= j <= i ==> es1[j] == es2[j],
    ensures
        stack_after(es1, i) == stack_after(es2, i),
    decreases i,
{
    if i > 0 {
        lemma_prefix_equal(es1, es2, i - 1);
    }
}

/// Every partial in a stack is alike itself.
proof fn lemma_stack_refl(s: Seq<PartialModel>)
    ensures
        forall|j: int| 0 <= j < s.len() ==> partial_same(#[trigger] s[j], s[j]),
{
    assert forall|j: int| 0 <= j < s.len() implies partial_same(#[trigger] s[j], s[j]) by {
        lemma_same_hashes_seq_refl(s[j].children);
    }
}

/// From the differing file entry on, the stacks of the two walks stay
/// related.
proof fn lemma_walk_rel(es1: Seq<EntryModel>, es2: Seq<EntryModel>, k: int, i: int) -> (r: (
    int,
    int,
    Seq<int>,
))
    requires
        walk_wf(es1),
        es1.len() == es2.len(),
        1 <= k <= i < es1.len(),
        forall|j: int| 0 <= j < es1.len() && j != k ==> es1[j] == es2[j],
        es1[k].path == es2[k].path,
        es1[k].depth == es2[k].depth,
        es1[k].kind is File,
        es2[k].kind is File,
    ensures
        stacks_rel(stack_after(es1, i), stack_after(es2, i), r.0, r.1, r.2),
        stack_after(es1, i).len() >= 1,
    decreases i,
{
    assert(walk_wf_upto(es1, i as int + 1));
    lemma_stack_after_len(es1, i);
    if i == k {
        lemma_prefix_equal(es1, es2, k - 1);
        let a = stack_after(es1, k - 1);
        assert(stack_after(es2, k - 1) == a);
        assert(walk_wf_upto(es1, k));
        lemma_stack_after_len(es1, k - 1);
        let d = es1[k].depth;
        let pt = pop_to(a, d);
        lemma_pop_to_nonempty(a, d);
        let li = pt.len() - 1;
        let top = pt.last();
        let c1 = es1[k].kind->content;
        let c2 = es2[k].kind->content;
        let b1 = blob_model(es1[k].path, c1);
        let b2 = blob_model(es2[k].path, c2);
        let n1 = stack_after(es1, k);
        let n2 = stack_after(es2, k);
        assert(n1 == pt.update(li, PartialModel { path: top.path, children: top.children.push(b1) }));
        assert(n2 == pt.update(li, PartialModel { path: top.path, children: top.children.push(b2) }));
        lemma_stack_refl(pt);
        assert forall|j: int|
            0 <= j < n1.len() && j != li implies partial_same(#[trigger] n1[j], n2[j]) by {
            assert(n1[j] == pt[j]);
            assert(n2[j] == pt[j]);
        }
        let nq = top.children.len() as int;
        assert forall|j: int|
            0 <= j < n1[li].children.len() && j != nq implies same_hashes(
            #[trigger] n1[li].children[j],
            n2[li].children[j],
        ) by {
            assert(n1[li].children[j] == top.children[j]);
            assert(n2[li].children[j] == top.children[j]);
            lemma_same_hashes_refl(top.children[j]);
        }
        assert(n1[li].children[nq] == b1);
        assert(n2[li].children[nq] == b2);
        assert(agree_off_chain(b1, b2, Seq::<int>::empty()));
        assert(stacks_rel(n1, n2, li, nq, Seq::<int>::empty()));
        (li, nq, Seq::<int>::empty())
    } else {
        let r0 = lemma_walk_rel(es1, es2, k, i - 1);
        assert(es1[i] == es2[i]);
        lemma_step_rel(stack_after(es1, i - 1), stack_after(es2, i - 1), es1[i], r0.0, r0.1, r0.2)
    }
}

/// Locality of change: two well-formed walks that differ only in the contents
/// of the file at one entry build trees that agree, hash for hash, off a
/// single descending chain. Either the two trees carry the same hashes
/// throughout, or there is a chain of child indices ending at that file's
/// blob such that every subtree off the chain keeps its exact hash; only the
/// blob and the directories holding it can hash differently.
#[verifier::rlimit(100)]
pub proof fn lemma_locality_of_change(es1: Seq<EntryModel>, es2: Seq<EntryModel>, k: int) -> (r: (
    bool,
    Seq<int>,
))
    requires
        walk_wf(es1),
        walk_wf(es2),
        es1.len() == es2.len(),
        0 <= k < es1.len(),
        forall|j: int| 0 <= j < es1.len() && j != k ==> es1[j] == es2[j],
        es1[k].path == es2[k].path,
        es1[k].depth == es2[k].depth,
        es1[k].kind is File,
        es2[k].kind is File,
    ensures
        r.0 ==> agree_off_chain(spec_build(es1), spec_build(es2), r.1),
        !r.0 ==> same_hashes(spec_build(es1), spec_build(es2)),
{
    assert(k >= 1) by {
        assert(es1[0].kind is Dir);
    }
    let last = es1.len() - 1;
    let rw = lemma_walk_rel(es1, es2, k, last);
    let s1 = stack_after(es1, last);
    let s2 = stack_after(es2, last);
    let rc = lemma_pop_to_rel(s1, s2, 1, rw.0, rw.1, rw.2);
    lemma_pop_to_nonempty(s1, 1);
    let f1 = pop_to(s1, 1);
    let f2 = pop_to(s2, 1);
    let raw1 = finalize_model(f1[0]);
    let raw2 = finalize_model(f2[0]);
    if rc.0 == 0 {
        // the root partial is the differing one
        let chain = seq![rc.1] + rc.2;
        assert(agree_off_chain(raw1, raw2, chain)) by {
            assert(chain[0] == rc.1);
            assert(chain.drop_first() =~= rc.2);
            assert(raw1.children() == f1[0].children);
            assert(raw2.children() == f2[0].children);
            assert(raw1.path() == f1[0].path);
            assert(raw2.path() == f2[0].path);
        }
        lemma_assign_agree_root(raw1, raw2, chain);
        (true, chain)
    } else {
        assert(partial_same(f1[0], f2[0]));
        lemma_finalize_same(f1[0], f2[0]);
        lemma_assign_same_root(raw1, raw2);
        (false, Seq::<int>::empty())
    }
}

/// The root parent pass keeps trees with the same hashes alike.
proof fn lemma_assign_same_root(m1: NodeModel, m2: NodeModel)
    requires
        same_hashes(m1, m2),
    ensures
        same_hashes(spec_assign_root(m1), spec_assign_root(m2)),
{
    match (m1, m2) {
        (NodeModel::Blob { .. }, NodeModel::Blob { .. }) => {},
        (NodeModel::Tree { children: c1, .. }, NodeModel::Tree { children: c2, .. }) => {
            lemma_assign_same_hashes_seq(c1, c2, m1.hash(), m2.hash());
        },
        _ => {},
    }
}

/// The root parent pass keeps trees agreeing off a chain.
proof fn lemma_assign_agree_root(m1: NodeModel, m2: NodeModel, chain: Seq<int>)
    requires
        agree_off_chain(m1, m2, chain),
    ensures
        agree_off_chain(spec_assign_root(m1), spec_assign_root(m2), chain),
{
    if chain.len() == 0 {
    } else {
        let c1 = m1.children();
        let c2 = m2.children();
        lemma_assign_parents_seq(c1, m1.hash());
        lemma_assign_parents_seq(c2, m2.hash());
        let a1 = spec_assign_root(m1);
        let a2 = spec_assign_root(m2);
        assert(a1.children() == assign_parents_seq(c1, m1.hash()));
        assert(a2.children() == assign_parents_seq(c2, m2.hash()));
        assert forall|j: int|
            0 <= j < a1.children().len() && j != chain[0] implies same_hashes(
            #[trigger] a1.children()[j],
            a2.children()[j],
        ) by {
            assert(same_hashes(c1[j], c2[j]));
            lemma_assign_same_hashes(c1[j], c2[j], m1.hash(), m2.hash());
        }
        lemma_assign_agree(c1[chain[0]], c2[chain[0]], chain.drop_first(), m1.hash(), m2.hash());
        assert(a1.children()[chain[0]] == assign_parents(c1[chain[0]], m1.hash()));
        assert(a2.children()[chain[0]] == assign_parents(c2[chain[0]], m2.hash()));
    }
}

} // verus!
