//! The sync classification: turn a tree diff into the four action streams
//! `compute`, `delete`, `add_label` and `remove_label`, updating the global
//! presence cache, the tag's presence cache and the reverse-tag index as each
//! blob is registered or retired.

use vstd::prelude::*;
use crate::merkle::{ObjDescription, DescrModel, descr_views};
use crate::hashing::{hex_of, hash_string};
use crate::disk_set::{DiskSet, spec_add, spec_remove};
use crate::rev_tags::{RevTags, rev_get, rev_add, rev_remove_entry, rev_remove_tag};

verus! {

/// One logical index view: a directory, a branch, and an embeddings
/// provider.
pub struct Tag {
    pub dir: String,
    pub branch: String,
    pub provider_id: String,
}

/// The canonical string form of a tag: `dir::branch::provider`.
pub open spec fn spec_tag_string(dir: Seq<char>, branch: Seq<char>, provider: Seq<char>) -> Seq<
    char,
> {
    dir + seq![':', ':'] + branch + seq![':', ':'] + provider
}

impl Tag {
    /// Render the tag in its canonical `dir::branch::provider` form.
    pub fn to_string(&self) -> (r: String)
        ensures
            r@ == spec_tag_string(self.dir@, self.branch@, self.provider_id@),
    {
        let mut s = self.dir.clone();
        s.append("::");
        s.append(self.branch.as_str());
        s.append("::");
        s.append(self.provider_id.as_str());
        proof {
            reveal_strlit("::");
            assert("::"@ =~= seq![':', ':']);
            assert(s@ =~= spec_tag_string(self.dir@, self.branch@, self.provider_id@));
        }
        s
    }
}

/// The views of a vector of `(path, hex hash)` pairs.
pub open spec fn pairs_views(s: Seq<(String, String)>) -> Seq<(Seq<char>, Seq<char>)> {
    s.map_values(|p: (String, String)| (p.0@, p.1@))
}

/// Everything one sync classification reads and writes: the two presence
/// caches, the reverse-tag index, and the four output streams.
pub struct ClassifyState {
    pub global: Seq<Seq<u8>>,
    pub local: Seq<Seq<u8>>,
    pub rev: Seq<(Seq<u8>, Seq<Seq<char>>)>,
    pub compute: Seq<(Seq<char>, Seq<char>)>,
    pub delete: Seq<(Seq<char>, Seq<char>)>,
    pub add_label: Seq<(Seq<char>, Seq<char>)>,
    pub remove_label: Seq<(Seq<char>, Seq<char>)>,
}

/// What one added blob does: a hash the provider has seen before is merely
/// re-labelled, a new one must be computed; either way the blob is registered
/// in both caches and under the tag in the reverse index. Trees pass through
/// untouched.
pub open spec fn add_step(st: ClassifyState, tag: Seq<char>, d: DescrModel) -> ClassifyState {
    if !d.is_blob {
        st
    } else {
        let labeled = st.global.contains(d.hash);
        let pair = (d.path, hex_of(d.hash));
        ClassifyState {
            global: spec_add(st.global, d.hash),
            local: spec_add(st.local, d.hash),
            rev: rev_add(st.rev, d.hash, tag),
            compute: if labeled {
                st.compute
            } else {
                st.compute.push(pair)
            },
            delete: st.delete,
            add_label: if labeled {
                st.add_label.push(pair)
            } else {
                st.add_label
            },
            remove_label: st.remove_label,
        }
    }
}

/// What one removed blob does: with no other tag holding the hash it is
/// evicted everywhere, otherwise only this tag's label comes off. A hash the
/// global cache does not know is left alone. Trees pass through untouched.
pub open spec fn remove_step(st: ClassifyState, tag: Seq<char>, d: DescrModel) -> ClassifyState {
    if !d.is_blob || !st.global.contains(d.hash) {
        st
    } else {
        let pair = (d.path, hex_of(d.hash));
        if rev_get(st.rev, d.hash).len() <= 1 {
            ClassifyState {
                global: spec_remove(st.global, d.hash),
                local: spec_remove(st.local, d.hash),
                rev: rev_remove_entry(st.rev, d.hash),
                compute: st.compute,
                delete: st.delete.push(pair),
                add_label: st.add_label,
                remove_label: st.remove_label,
            }
        } else {
            ClassifyState {
                global: st.global,
                local: spec_remove(st.local, d.hash),
                rev: rev_remove_tag(st.rev, d.hash, tag),
                compute: st.compute,
                delete: st.delete,
                add_label: st.add_label,
                remove_label: st.remove_label.push(pair),
            }
        }
    }
}

/// Fold the added descriptions through `add_step`, left to right.
pub open spec fn run_adds(st: ClassifyState, tag: Seq<char>, ds: Seq<DescrModel>) -> ClassifyState
    decreases ds.len(),
{
    if ds.len() == 0 {
        st
    } else {
        run_adds(add_step(st, tag, ds[0]), tag, ds.drop_first())
    }
}

/// Fold the removed descriptions through `remove_step`, left to right.
pub open spec fn run_removes(
    st: ClassifyState,
    tag: Seq<char>,
    ds: Seq<DescrModel>,
) -> ClassifyState
    decreases ds.len(),
{
    if ds.len() == 0 {
        st
    } else {
        run_removes(remove_step(st, tag, ds[0]), tag, ds.drop_first())
    }
}

/// The whole classification: all additions, then all removals.
pub open spec fn spec_classify(
    st: ClassifyState,
    tag: Seq<char>,
    adds: Seq<DescrModel>,
    removes: Seq<DescrModel>,
) -> ClassifyState {
    run_removes(run_adds(st, tag, adds), tag, removes)
}

/// Classify a diff's blobs into the four action streams, updating the
/// provider-global cache, this tag's cache and the reverse-tag index as
/// specified by the `add_step` / `remove_step` fold.
pub fn classify(
    tag_str: &String,
    add: &Vec<ObjDescription>,
    remove: &Vec<ObjDescription>,
    global_cache: &mut DiskSet,
    tag_cache: &mut DiskSet,
    rev_tags: &mut RevTags,
) -> (r: (
    Vec<(String, String)>,
    Vec<(String, String)>,
    Vec<(String, String)>,
    Vec<(String, String)>,
))
    requires
        old(global_cache).wf(),
        old(tag_cache).wf(),
        old(rev_tags).wf(),
        forall|i: int| 0 <= i < add@.len() ==> (#[trigger] add@[i])@.hash.len() == 20,
    ensures
        ({
            let st0 = ClassifyState {
                global: old(global_cache)@,
                local: old(tag_cache)@,
                rev: old(rev_tags)@,
                compute: seq![],
                delete: seq![],
                add_label: seq![],
                remove_label: seq![],
            };
            let stf = spec_classify(st0, tag_str@, descr_views(add@), descr_views(remove@));
            &&& final(global_cache)@ == stf.global
            &&& final(tag_cache)@ == stf.local
            &&& final(rev_tags)@ == stf.rev
            &&& pairs_views(r.0@) == stf.compute
            &&& pairs_views(r.1@) == stf.delete
            &&& pairs_views(r.2@) == stf.add_label
            &&& pairs_views(r.3@) == stf.remove_label
            &&& final(global_cache).wf()
            &&& final(tag_cache).wf()
            &&& final(rev_tags).wf()
        }),
{
    let ghost tag = tag_str@;
    let ghost av = descr_views(add@);
    let ghost rv = descr_views(remove@);
    let ghost st0 = ClassifyState {
        global: global_cache@,
        local: tag_cache@,
        rev: rev_tags@,
        compute: seq![],
        delete: seq![],
        add_label: seq![],
        remove_label: seq![],
    };
    let mut compute_v: Vec<(String, String)> = Vec::new();
    let mut delete_v: Vec<(String, String)> = Vec::new();
    let mut add_label_v: Vec<(String, String)> = Vec::new();
    let mut remove_label_v: Vec<(String, String)> = Vec::new();
    proof {
        assert(pairs_views(compute_v@) =~= Seq::<(Seq<char>, Seq<char>)>::empty());
        assert(pairs_views(delete_v@) =~= Seq::<(Seq<char>, Seq<char>)>::empty());
        assert(pairs_views(add_label_v@) =~= Seq::<(Seq<char>, Seq<char>)>::empty());
        assert(pairs_views(remove_label_v@) =~= Seq::<(Seq<char>, Seq<char>)>::empty());
        assert(av.skip(0) =~= av);
    }
    let mut i: usize = 0;
    while i < add.len()
        invariant
            i <= add@.len(),
            av == descr_views(add@),
            rv == descr_views(remove@),
            av.len() == add@.len(),
            tag == tag_str@,
            forall|k: int| 0 <= k < add@.len() ==> (#[trigger] add@[k])@.hash.len() == 20,
            global_cache.wf(),
            tag_cache.wf(),
            rev_tags.wf(),
            spec_classify(st0, tag, av, rv) == run_removes(
                run_adds(
                    ClassifyState {
                        global: global_cache@,
                        local: tag_cache@,
                        rev: rev_tags@,
                        compute: pairs_views(compute_v@),
                        delete: pairs_views(delete_v@),
                        add_label: pairs_views(add_label_v@),
                        remove_label: pairs_views(remove_label_v@),
                    },
                    tag,
                    av.skip(i as int),
                ),
                tag,
                rv,
            ),
        decreases add@.len() - i,
    {
        let ghost st_pre = ClassifyState {
            global: global_cache@,
            local: tag_cache@,
            rev: rev_tags@,
            compute: pairs_views(compute_v@),
            delete: pairs_views(delete_v@),
            add_label: pairs_views(add_label_v@),
            remove_label: pairs_views(remove_label_v@),
        };
        proof {
            assert(av.skip(i as int)[0] == av[i as int]);
            assert(av[i as int] == add@[i as int]@);
            assert(av.skip(i as int).drop_first() =~= av.skip(i as int + 1));
        }
        let d = &add[i];
        if d.is_blob {
            let labeled = global_cache.contains(&d.hash);
            let hexs = hash_string(&d.hash);
            let pr = (d.path.clone(), hexs);
            let ghost pr_view = (pr.0@, pr.1@);
            if labeled {
                add_label_v.push(pr);
            } else {
                compute_v.push(pr);
            }
            global_cache.add(&d.hash);
            tag_cache.add(&d.hash);
            rev_tags.add(&d.hash, tag_str);
            proof {
                let st_post = ClassifyState {
                    global: global_cache@,
                    local: tag_cache@,
                    rev: rev_tags@,
                    compute: pairs_views(compute_v@),
                    delete: pairs_views(delete_v@),
                    add_label: pairs_views(add_label_v@),
                    remove_label: pairs_views(remove_label_v@),
                };
                if labeled {
                    assert(pairs_views(add_label_v@) =~= st_pre.add_label.push(pr_view));
                } else {
                    assert(pairs_views(compute_v@) =~= st_pre.compute.push(pr_view));
                }
                assert(st_post == add_step(st_pre, tag, av[i as int]));
            }
        } else {
            proof {
                assert(add_step(st_pre, tag, av[i as int]) == st_pre);
            }
        }
        i = i + 1;
    }
    proof {
        assert(av.skip(av.len() as int) =~= Seq::<DescrModel>::empty());
        assert(rv.skip(0) =~= rv);
    }
    let mut i2: usize = 0;
    while i2 < remove.len()
        invariant
            i2 <= remove@.len(),
            rv == descr_views(remove@),
            rv.len() == remove@.len(),
            tag == tag_str@,
            global_cache.wf(),
            tag_cache.wf(),
            rev_tags.wf(),
            spec_classify(st0, tag, av, rv) == run_removes(
                ClassifyState {
                    global: global_cache@,
                    local: tag_cache@,
                    rev: rev_tags@,
                    compute: pairs_views(compute_v@),
                    delete: pairs_views(delete_v@),
                    add_label: pairs_views(add_label_v@),
                    remove_label: pairs_views(remove_label_v@),
                },
                tag,
                rv.skip(i2 as int),
            ),
        decreases remove@.len() - i2,
    {
        let ghost st_pre = ClassifyState {
            global: global_cache@,
            local: tag_cache@,
            rev: rev_tags@,
            compute: pairs_views(compute_v@),
            delete: pairs_views(delete_v@),
            add_label: pairs_views(add_label_v@),
            remove_label: pairs_views(remove_label_v@),
        };
        proof {
            assert(rv.skip(i2 as int)[0] == rv[i2 as int]);
            assert(rv[i2 as int] == remove@[i2 as int]@);
            assert(rv.skip(i2 as int).drop_first() =~= rv.skip(i2 as int + 1));
        }
        let d = &remove[i2];
        if d.is_blob {
            if global_cache.contains(&d.hash) {
                let holders = rev_tags.get(&d.hash);
                let hexs = hash_string(&d.hash);
                let pr = (d.path.clone(), hexs);
                let ghost pr_view = (pr.0@, pr.1@);
                proof {
                    assert(crate::rev_tags::strs_views(holders@).len() == holders@.len());
                }
                if holders.len() <= 1 {
                    delete_v.push(pr);
                    global_cache.remove(&d.hash);
                    tag_cache.remove(&d.hash);
                    rev_tags.remove_global(&d.hash);
                    proof {
                        let st_post = ClassifyState {
                            global: global_cache@,
                            local: tag_cache@,
                            rev: rev_tags@,
                            compute: pairs_views(compute_v@),
                            delete: pairs_views(delete_v@),
                            add_label: pairs_views(add_label_v@),
                            remove_label: pairs_views(remove_label_v@),
                        };
                        assert(pairs_views(delete_v@) =~= st_pre.delete.push(pr_view));
                        assert(st_post == remove_step(st_pre, tag, rv[i2 as int]));
                    }
                } else {
                    remove_label_v.push(pr);
                    tag_cache.remove(&d.hash);
                    rev_tags.remove_local(&d.hash, tag_str);
                    proof {
                        let st_post = ClassifyState {
                            global: global_cache@,
                            local: tag_cache@,
                            rev: rev_tags@,
                            compute: pairs_views(compute_v@),
                            delete: pairs_views(delete_v@),
                            add_label: pairs_views(add_label_v@),
                            remove_label: pairs_views(remove_label_v@),
                        };
                        assert(pairs_views(remove_label_v@) =~= st_pre.remove_label.push(pr_view));
                        assert(st_post == remove_step(st_pre, tag, rv[i2 as int]));
                    }
                }
            } else {
                proof {
                    assert(remove_step(st_pre, tag, rv[i2 as int]) == st_pre);
                }
            }
        } else {
            proof {
                assert(remove_step(st_pre, tag, rv[i2 as int]) == st_pre);
            }
        }
        i2 = i2 + 1;
    }
    proof {
        assert(rv.skip(rv.len() as int) =~= Seq::<DescrModel>::empty());
    }
    (compute_v, delete_v, add_label_v, remove_label_v)
}


/// Reverse-tag conservation: for each hash, the tags its reverse entry lists
/// are exactly the tags whose caches hold the hash, and every listed tag is
/// a known cache.
pub open spec fn conserved(
    world: Map<Seq<char>, Set<Seq<u8>>>,
    m: Seq<(Seq<u8>, Seq<Seq<char>>)>,
) -> bool {
    &&& forall|t: Seq<char>, h: Seq<u8>|
        world.contains_key(t) ==> ((#[trigger] world[t].contains(h)) <==> rev_get(m, h).contains(
            t,
        ))
    &&& forall|h: Seq<u8>, t: Seq<char>|
        #[trigger] rev_get(m, h).contains(t) ==> world.contains_key(t)
}

/// Registering a blob under a tag — adding the hash to the tag's cache and
/// the tag to the hash's reverse entry — preserves conservation.
pub proof fn lemma_register_conserved(
    world: Map<Seq<char>, Set<Seq<u8>>>,
    m: Seq<(Seq<u8>, Seq<Seq<char>>)>,
    t: Seq<char>,
    h: Seq<u8>,
)
    requires
        conserved(world, m),
        world.contains_key(t),
        crate::rev_tags::rt_keys_unique(m),
    ensures
        conserved(world.insert(t, world[t].insert(h)), rev_add(m, h, t)),
{
    let w2 = world.insert(t, world[t].insert(h));
    let m2 = rev_add(m, h, t);
    assert forall|t2: Seq<char>, h2: Seq<u8>|
        w2.contains_key(t2) implies ((#[trigger] w2[t2].contains(h2)) <==> rev_get(m2, h2).contains(
        t2,
    )) by {
        crate::rev_tags::lemma_rev_add_get(m, h, t, h2);
        if h2 == h {
            if !rev_get(m, h).contains(t) {
                assert(rev_get(m2, h) == rev_get(m, h).push(t));
                assert(rev_get(m2, h)[rev_get(m, h).len() as int] == t);
                assert(rev_get(m2, h).contains(t));
                if t2 != t {
                    assert(w2[t2] == world[t2]);
                    if rev_get(m2, h).contains(t2) {
                        let w = choose|w: int|
                            0 <= w < rev_get(m2, h).len() && rev_get(m2, h)[w] == t2;
                        assert(rev_get(m, h)[w] == t2);
                        assert(rev_get(m, h).contains(t2));
                    }
                    if rev_get(m, h).contains(t2) {
                        let w = choose|w: int|
                            0 <= w < rev_get(m, h).len() && rev_get(m, h)[w] == t2;
                        assert(rev_get(m2, h)[w] == t2);
                        assert(rev_get(m2, h).contains(t2));
                    }
                }
            } else {
                assert(rev_get(m2, h) == rev_get(m, h));
            }
            if t2 == t {
                assert(w2[t].contains(h));
                assert(rev_get(m2, h).contains(t));
            }
        } else {
            assert(rev_get(m2, h2) == rev_get(m, h2));
            if t2 == t {
                assert(w2[t].contains(h2) == world[t].contains(h2));
            } else {
                assert(w2[t2] == world[t2]);
            }
        }
    }
    assert forall|h2: Seq<u8>, t2: Seq<char>|
        #[trigger] rev_get(m2, h2).contains(t2) implies w2.contains_key(t2) by {
        crate::rev_tags::lemma_rev_add_get(m, h, t, h2);
        if h2 == h && !rev_get(m, h).contains(t) {
            let w = choose|w: int| 0 <= w < rev_get(m2, h).len() && rev_get(m2, h)[w] == t2;
            if w < rev_get(m, h).len() {
                assert(rev_get(m, h)[w] == t2);
                assert(rev_get(m, h).contains(t2));
            } else {
                assert(t2 == t);
            }
        }
    }
}

/// Evicting a hash that only this tag holds — dropping it from the tag's
/// cache and dropping its reverse entry — preserves conservation.
pub proof fn lemma_evict_conserved(
    world: Map<Seq<char>, Set<Seq<u8>>>,
    m: Seq<(Seq<u8>, Seq<Seq<char>>)>,
    t: Seq<char>,
    h: Seq<u8>,
)
    requires
        conserved(world, m),
        world.contains_key(t),
        world[t].contains(h),
        rev_get(m, h).len() <= 1,
        crate::rev_tags::rt_keys_unique(m),
    ensures
        conserved(world.insert(t, world[t].remove(h)), rev_remove_entry(m, h)),
{
    let w2 = world.insert(t, world[t].remove(h));
    let m2 = rev_remove_entry(m, h);
    assert(rev_get(m, h).contains(t));
    let wi = choose|wi: int| 0 <= wi < rev_get(m, h).len() && rev_get(m, h)[wi] == t;
    assert(rev_get(m, h) =~= seq![t]);
    assert forall|t2: Seq<char>, h2: Seq<u8>|
        w2.contains_key(t2) implies ((#[trigger] w2[t2].contains(h2)) <==> rev_get(m2, h2).contains(
        t2,
    )) by {
        crate::rev_tags::lemma_rev_remove_entry_get(m, h, h2);
        if h2 == h {
            assert(!rev_get(m2, h).contains(t2));
            if t2 == t {
                assert(!w2[t].contains(h));
            } else {
                assert(w2[t2] == world[t2]);
                if world[t2].contains(h) {
                    assert(rev_get(m, h).contains(t2));
                    assert(rev_get(m, h)[0] == t);
                    let w = choose|w: int| 0 <= w < rev_get(m, h).len() && rev_get(m, h)[w] == t2;
                    assert(w == 0);
                    assert(false);
                }
            }
        } else {
            assert(rev_get(m2, h2) == rev_get(m, h2));
            if t2 == t {
                assert(w2[t].contains(h2) == world[t].contains(h2));
            } else {
                assert(w2[t2] == world[t2]);
            }
        }
    }
    assert forall|h2: Seq<u8>, t2: Seq<char>|
        #[trigger] rev_get(m2, h2).contains(t2) implies w2.contains_key(t2) by {
        crate::rev_tags::lemma_rev_remove_entry_get(m, h, h2);
        if h2 != h {
            assert(rev_get(m, h2).contains(t2));
        }
    }
}

/// Unlabelling a hash that another tag still holds — dropping it from this
/// tag's cache and this tag from its reverse entry — preserves conservation.
pub proof fn lemma_unlabel_conserved(
    world: Map<Seq<char>, Set<Seq<u8>>>,
    m: Seq<(Seq<u8>, Seq<Seq<char>>)>,
    t: Seq<char>,
    h: Seq<u8>,
)
    requires
        conserved(world, m),
        world.contains_key(t),
        crate::rev_tags::rt_keys_unique(m),
        crate::rev_tags::rt_lists_unique(m),
    ensures
        conserved(world.insert(t, world[t].remove(h)), rev_remove_tag(m, h, t)),
{
    let w2 = world.insert(t, world[t].remove(h));
    let m2 = rev_remove_tag(m, h, t);
    crate::rev_tags::lemma_rt_idx(m, h);
    assert forall|a: int, b: int|
        0 <= a < b < rev_get(m, h).len() implies rev_get(m, h)[a] != rev_get(m, h)[b] by {
        if rt_idx_pos(m, h) {
            let i = crate::rev_tags::rt_idx(m, h);
            assert(m[i].1[a] != m[i].1[b]);
        }
    }
    assert forall|t2: Seq<char>, h2: Seq<u8>|
        w2.contains_key(t2) implies ((#[trigger] w2[t2].contains(h2)) <==> rev_get(m2, h2).contains(
        t2,
    )) by {
        crate::rev_tags::lemma_rev_remove_tag_get(m, h, t, h2);
        if h2 == h {
            crate::rev_tags::lemma_remove_tag_list(rev_get(m, h), t, t2);
            if t2 == t {
                assert(!w2[t].contains(h));
                assert(!rev_get(m2, h).contains(t));
            } else {
                assert(w2[t2] == world[t2]);
                assert(rev_get(m2, h).contains(t2) == rev_get(m, h).contains(t2));
            }
        } else {
            assert(rev_get(m2, h2) == rev_get(m, h2));
            if t2 == t {
                assert(w2[t].contains(h2) == world[t].contains(h2));
            } else {
                assert(w2[t2] == world[t2]);
            }
        }
    }
    assert forall|h2: Seq<u8>, t2: Seq<char>|
        #[trigger] rev_get(m2, h2).contains(t2) implies w2.contains_key(t2) by {
        crate::rev_tags::lemma_rev_remove_tag_get(m, h, t, h2);
        if h2 == h {
            crate::rev_tags::lemma_remove_tag_list(rev_get(m, h), t, t2);
            assert(rev_get(m, h).contains(t2));
        } else {
            assert(rev_get(m, h2).contains(t2));
        }
    }
}

/// Inserting into the cache inserts into the set of its items.
pub proof fn lemma_spec_add_to_set(s: Seq<Seq<u8>>, x: Seq<u8>)
    ensures
        spec_add(s, x).to_set() == s.to_set().insert(x),
{
    if s.contains(x) {
        assert(spec_add(s, x).to_set() =~= s.to_set().insert(x));
    } else {
        assert forall|a: Seq<u8>| #[trigger]
            s.push(x).contains(a) implies s.to_set().insert(x).contains(a) by {
            let w = choose|w: int| 0 <= w < s.push(x).len() && s.push(x)[w] == a;
            if w < s.len() {
                assert(s[w] == a);
            }
        }
        assert forall|a: Seq<u8>| #[trigger]
            s.to_set().insert(x).contains(a) implies s.push(x).contains(a) by {
            if a == x {
                assert(s.push(x)[s.len() as int] == a);
            } else {
                let w = choose|w: int| 0 <= w < s.len() && s[w] == a;
                assert(s.push(x)[w] == a);
            }
        }
        assert(spec_add(s, x).to_set() =~= s.to_set().insert(x));
    }
}

/// The whole registration phase of one sync preserves reverse-tag
/// conservation: afterwards the syncing tag's cache has absorbed every added
/// blob, and the index still lists exactly the holders of every hash.
pub proof fn lemma_run_adds_conserved(
    world: Map<Seq<char>, Set<Seq<u8>>>,
    st: ClassifyState,
    tag: Seq<char>,
    ds: Seq<DescrModel>,
)
    requires
        conserved(world, st.rev),
        world.contains_key(tag),
        world[tag] == st.local.to_set(),
        crate::rev_tags::rt_keys_unique(st.rev),
    ensures
        ({
            let stf = run_adds(st, tag, ds);
            &&& conserved(world.insert(tag, stf.local.to_set()), stf.rev)
            &&& crate::rev_tags::rt_keys_unique(stf.rev)
        }),
    decreases ds.len(),
{
    if ds.len() == 0 {
        assert(world.insert(tag, st.local.to_set()) =~= world);
    } else {
        let d = ds[0];
        let st1 = add_step(st, tag, d);
        let stf = run_adds(st, tag, ds);
        assert(stf == run_adds(st1, tag, ds.drop_first()));
        if d.is_blob {
            lemma_register_conserved(world, st.rev, tag, d.hash);
            crate::rev_tags::lemma_rev_add_get(st.rev, d.hash, tag, d.hash);
            lemma_spec_add_to_set(st.local, d.hash);
            let world1 = world.insert(tag, world[tag].insert(d.hash));
            assert(world1[tag] == st1.local.to_set());
            lemma_run_adds_conserved(world1, st1, tag, ds.drop_first());
            assert(world1.insert(tag, stf.local.to_set()) =~= world.insert(
                tag,
                stf.local.to_set(),
            ));
        } else {
            lemma_run_adds_conserved(world, st1, tag, ds.drop_first());
        }
    }
}

/// Whether the reverse index has an entry for `h`.
pub open spec fn rt_idx_pos(m: Seq<(Seq<u8>, Seq<Seq<char>>)>, h: Seq<u8>) -> bool {
    crate::rev_tags::rt_idx(m, h) >= 0
}


/// An action the chunk database must apply after a sync: retire a hash's
/// chunks, or add or drop one tag row for a hash.
pub enum DbAction {
    RemoveChunks { hash: String },
    AddTag { hash: String, tag: String },
    RemoveTag { hash: String, tag: String },
}

/// The ghost model of a database action.
pub enum DbActionModel {
    RemoveChunks { hash: Seq<char> },
    AddTag { hash: Seq<char>, tag: Seq<char> },
    RemoveTag { hash: Seq<char>, tag: Seq<char> },
}

impl View for DbAction {
    type V = DbActionModel;

    open spec fn view(&self) -> DbActionModel {
        match self {
            DbAction::RemoveChunks { hash } => DbActionModel::RemoveChunks { hash: hash@ },
            DbAction::AddTag { hash, tag } => DbActionModel::AddTag { hash: hash@, tag: tag@ },
            DbAction::RemoveTag { hash, tag } => DbActionModel::RemoveTag {
                hash: hash@,
                tag: tag@,
            },
        }
    }
}

/// The views of a vector of database actions.
pub open spec fn actions_views(s: Seq<DbAction>) -> Seq<DbActionModel> {
    s.map_values(|a: DbAction| a@)
}

/// The database actions one sync implies: a chunk removal per deletion, then
/// a tag insertion per re-label, then a tag removal per un-label.
pub open spec fn db_actions_for(
    deletes: Seq<(Seq<char>, Seq<char>)>,
    add_labels: Seq<(Seq<char>, Seq<char>)>,
    remove_labels: Seq<(Seq<char>, Seq<char>)>,
    tag: Seq<char>,
) -> Seq<DbActionModel> {
    Seq::new(deletes.len(), |i: int| DbActionModel::RemoveChunks { hash: deletes[i].1 }) + Seq::new(
        add_labels.len(),
        |i: int| DbActionModel::AddTag { hash: add_labels[i].1, tag },
    ) + Seq::new(
        remove_labels.len(),
        |i: int| DbActionModel::RemoveTag { hash: remove_labels[i].1, tag },
    )
}

/// Turn one sync's four streams into what the chunk database must do: the
/// `compute` stream passes through for the embedder, and each deletion,
/// re-label and un-label becomes a database action carrying this tag.
pub fn sync_db(
    compute: &Vec<(String, String)>,
    delete: &Vec<(String, String)>,
    add_label: &Vec<(String, String)>,
    remove_label: &Vec<(String, String)>,
    tag_str: &String,
) -> (r: (Vec<(String, String)>, Vec<DbAction>))
    ensures
        pairs_views(r.0@) == pairs_views(compute@),
        actions_views(r.1@) == db_actions_for(
            pairs_views(delete@),
            pairs_views(add_label@),
            pairs_views(remove_label@),
            tag_str@,
        ),
{
    let mut out_compute: Vec<(String, String)> = Vec::new();
    let mut i: usize = 0;
    while i < compute.len()
        invariant
            i <= compute@.len(),
            out_compute@.len() == i,
            forall|k: int|
                0 <= k < i ==> (#[trigger] out_compute@[k]).0@ == compute@[k].0@ && out_compute@[
                k].1@ == compute@[k].1@,
        decreases compute@.len() - i,
    {
        out_compute.push((compute[i].0.clone(), compute[i].1.clone()));
        i = i + 1;
    }
    let mut actions: Vec<DbAction> = Vec::new();
    let mut j: usize = 0;
    while j < delete.len()
        invariant
            j <= delete@.len(),
            actions@.len() == j,
            forall|k: int|
                0 <= k < j ==> (#[trigger] actions@[k])@ == (DbActionModel::RemoveChunks {
                    hash: delete@[k].1@,
                }),
        decreases delete@.len() - j,
    {
        actions.push(DbAction::RemoveChunks { hash: delete[j].1.clone() });
        j = j + 1;
    }
    let mut j2: usize = 0;
    while j2 < add_label.len()
        invariant
            j2 <= add_label@.len(),
            actions@.len() == delete@.len() + j2,
            forall|k: int|
                0 <= k < delete@.len() ==> (#[trigger] actions@[k])@
                    == (DbActionModel::RemoveChunks { hash: delete@[k].1@ }),
            forall|k: int|
                0 <= k < j2 ==> (#[trigger] actions@[delete@.len() + k])@ == (DbActionModel::AddTag {
                    hash: add_label@[k].1@,
                    tag: tag_str@,
                }),
        decreases add_label@.len() - j2,
    {
        actions.push(DbAction::AddTag { hash: add_label[j2].1.clone(), tag: tag_str.clone() });
        j2 = j2 + 1;
    }
    let mut j3: usize = 0;
    while j3 < remove_label.len()
        invariant
            j3 <= remove_label@.len(),
            actions@.len() == delete@.len() + add_label@.len() + j3,
            forall|k: int|
                0 <= k < delete@.len() ==> (#[trigger] actions@[k])@
                    == (DbActionModel::RemoveChunks { hash: delete@[k].1@ }),
            forall|k: int|
                0 <= k < add_label@.len() ==> (#[trigger] actions@[delete@.len() + k])@
                    == (DbActionModel::AddTag { hash: add_label@[k].1@, tag: tag_str@ }),
            forall|k: int|
                0 <= k < j3 ==> (#[trigger] actions@[delete@.len() + add_label@.len() + k])@
                    == (DbActionModel::RemoveTag { hash: remove_label@[k].1@, tag: tag_str@ }),
        decreases remove_label@.len() - j3,
    {
        actions.push(
            DbAction::RemoveTag { hash: remove_label[j3].1.clone(), tag: tag_str.clone() },
        );
        j3 = j3 + 1;
    }
    proof {
        assert(pairs_views(out_compute@) =~= pairs_views(compute@));
        let dv = pairs_views(delete@);
        let av2 = pairs_views(add_label@);
        let rv2 = pairs_views(remove_label@);
        let target = db_actions_for(dv, av2, rv2, tag_str@);
        assert(target.len() == delete@.len() + add_label@.len() + remove_label@.len());
        assert forall|k: int|
            0 <= k < target.len() implies actions_views(actions@)[k] == target[k] by {
            assert(actions_views(actions@)[k] == actions@[k]@);
            if k < dv.len() {
                assert(dv[k] == (delete@[k].0@, delete@[k].1@));
                assert(target[k] == (DbActionModel::RemoveChunks { hash: dv[k].1 }));
            } else if k < dv.len() + av2.len() {
                let k2 = k - dv.len();
                assert(av2[k2] == (add_label@[k2].0@, add_label@[k2].1@));
                assert(target[k] == (DbActionModel::AddTag { hash: av2[k2].1, tag: tag_str@ }));
                assert(actions@[delete@.len() + k2]@ == (DbActionModel::AddTag {
                    hash: add_label@[k2].1@,
                    tag: tag_str@,
                }));
                assert(k == delete@.len() + k2);
            } else {
                let k3 = k - dv.len() - av2.len();
                assert(rv2[k3] == (remove_label@[k3].0@, remove_label@[k3].1@));
                assert(target[k] == (DbActionModel::RemoveTag { hash: rv2[k3].1, tag: tag_str@ }));
                assert(actions@[delete@.len() + add_label@.len() + k3]@ == (DbActionModel::RemoveTag {
                    hash: remove_label@[k3].1@,
                    tag: tag_str@,
                }));
                assert(k == delete@.len() + add_label@.len() + k3);
            }
        }
        assert(actions_views(actions@) =~= target);
    }
    (out_compute, actions)
}

/// The paths recorded as modified after `last_sync_time`, in walk order.
pub open spec fn spec_modified(es: Seq<(Seq<char>, u64)>, t: u64) -> Seq<Seq<char>>
    decreases es,
{
    if es.len() == 0 {
        seq![]
    } else {
        (if es[0].1 > t {
            seq![es[0].0]
        } else {
            seq![]
        }) + spec_modified(es.drop_first(), t)
    }
}

/// The views of path / modification-second pairs.
pub open spec fn stamp_views(s: Seq<(String, u64)>) -> Seq<(Seq<char>, u64)> {
    s.map_values(|e: (String, u64)| (e.0@, e.1))
}

/// Select the files modified since the last sync: each entry pairs a path
/// with its modification time in Unix seconds.
pub fn get_modified_files(entries: &Vec<(String, u64)>, last_sync_time: u64) -> (r: Vec<String>)
    ensures
        crate::rev_tags::strs_views(r@) == spec_modified(stamp_views(entries@), last_sync_time),
{
    let ghost es = stamp_views(entries@);
    let mut out: Vec<String> = Vec::new();
    let mut i: usize = 0;
    proof {
        assert(es.skip(0) =~= es);
        assert(crate::rev_tags::strs_views(out@) =~= Seq::<Seq<char>>::empty());
    }
    while i < entries.len()
        invariant
            i <= entries@.len(),
            es == stamp_views(entries@),
            es.len() == entries@.len(),
            crate::rev_tags::strs_views(out@) + spec_modified(es.skip(i as int), last_sync_time)
                == spec_modified(es, last_sync_time),
        decreases entries@.len() - i,
    {
        let ghost pre = out@;
        proof {
            assert(es.skip(i as int)[0] == es[i as int]);
            assert(es.skip(i as int).drop_first() =~= es.skip(i as int + 1));
        }
        if entries[i].1 > last_sync_time {
            out.push(entries[i].0.clone());
            proof {
                assert(crate::rev_tags::strs_views(out@) =~= crate::rev_tags::strs_views(pre).push(
                    es[i as int].0,
                ));
                assert(crate::rev_tags::strs_views(pre).push(es[i as int].0) + spec_modified(
                    es.skip(i as int + 1),
                    last_sync_time,
                ) =~= crate::rev_tags::strs_views(pre) + (seq![es[i as int].0] + spec_modified(
                    es.skip(i as int + 1),
                    last_sync_time,
                )));
            }
        } else {
            proof {
                assert(Seq::<Seq<char>>::empty() + spec_modified(
                    es.skip(i as int + 1),
                    last_sync_time,
                ) =~= spec_modified(es.skip(i as int + 1), last_sync_time));
            }
        }
        i = i + 1;
    }
    proof {
        assert(es.skip(es.len() as int) =~= Seq::<(Seq<char>, u64)>::empty());
        assert(crate::rev_tags::strs_views(out@) + Seq::<Seq<char>>::empty() =~= crate::rev_tags::strs_views(out@));
    }
    out
}


/// A path with its separators removed: the components concatenated, any
/// leading separator gone with the empty leading component.
pub open spec fn spec_strip_seps(s: Seq<char>) -> Seq<char>
    decreases s,
{
    if s.len() == 0 {
        seq![]
    } else {
        (if s[0] == '/' || s[0] == '\\' {
            seq![]
        } else {
            seq![s[0]]
        }) + spec_strip_seps(s.drop_first())
    }
}

/// Collapse a directory path into the single name its tag directory uses:
/// path separators are removed and the components concatenated.
pub fn remove_seps_from_path(dir: &str) -> (r: String)
    ensures
        r@ == spec_strip_seps(dir@),
{
    let ghost dv = dir@;
    let n = dir.unicode_len();
    let mut out: Vec<char> = Vec::new();
    let mut i: usize = 0;
    proof {
        assert(dv.skip(0) =~= dv);
        assert(out@ + spec_strip_seps(dv.skip(0)) =~= spec_strip_seps(dv));
    }
    while i < n
        invariant
            n == dv.len(),
            dv == dir@,
            i <= n,
            out@ + spec_strip_seps(dv.skip(i as int)) == spec_strip_seps(dv),
        decreases n - i,
    {
        let c = dir.get_char(i);
        let ghost pre = out@;
        proof {
            assert(dv.skip(i as int)[0] == dv[i as int]);
            assert(dv.skip(i as int).drop_first() =~= dv.skip(i as int + 1));
        }
        if c != '/' && c != '\\' {
            out.push(c);
            proof {
                assert(pre.push(dv[i as int]) + spec_strip_seps(dv.skip(i as int + 1)) =~= pre + (
                seq![dv[i as int]] + spec_strip_seps(dv.skip(i as int + 1))));
            }
        } else {
            proof {
                assert(Seq::<char>::empty() + spec_strip_seps(dv.skip(i as int + 1))
                    =~= spec_strip_seps(dv.skip(i as int + 1)));
            }
        }
        i = i + 1;
    }
    proof {
        assert(dv.skip(n as int) =~= Seq::<char>::empty());
        assert(out@ + Seq::<char>::empty() =~= out@);
    }
    crate::hashing::chars_to_string(&out)
}

} // verus!
