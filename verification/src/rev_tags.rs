//! The reverse-tag index: for every indexed hash, the list of tags that
//! currently hold it, in insertion order and without duplicates. On disk the
//! index is sharded by hash prefix; in memory it is an association list from
//! hash to tag list.

use vstd::prelude::*;
use crate::hashing::ObjectHash;

verus! {

/// The views of a vector of tag strings.
pub open spec fn strs_views(s: Seq<String>) -> Seq<Seq<char>> {
    s.map_values(|t: String| t@)
}

/// The ghost model of the index: hash / tag-list pairs.
pub open spec fn pair_views(s: Seq<(ObjectHash, Vec<String>)>) -> Seq<(Seq<u8>, Seq<Seq<char>>)> {
    s.map_values(|e: (ObjectHash, Vec<String>)| (e.0@, strs_views(e.1@)))
}

/// The first index keyed by `h`, or -1.
pub open spec fn rt_idx(m: Seq<(Seq<u8>, Seq<Seq<char>>)>, h: Seq<u8>) -> int
    decreases m,
{
    if m.len() == 0 {
        -1
    } else if m[0].0 == h {
        0
    } else {
        let r = rt_idx(m.drop_first(), h);
        if r < 0 {
            -1
        } else {
            r + 1
        }
    }
}

/// `rt_idx` finds the least index keyed by `h`.
pub proof fn lemma_rt_idx(m: Seq<(Seq<u8>, Seq<Seq<char>>)>, h: Seq<u8>)
    ensures
        rt_idx(m, h) >= 0 ==> rt_idx(m, h) < m.len() && m[rt_idx(m, h)].0 == h,
        rt_idx(m, h) >= 0 ==> forall|j: int| 0 <= j < rt_idx(m, h) ==> (#[trigger] m[j]).0 != h,
        rt_idx(m, h) < 0 ==> forall|j: int| 0 <= j < m.len() ==> (#[trigger] m[j]).0 != h,
    decreases m.len(),
{
    if m.len() > 0 && m[0].0 != h {
        lemma_rt_idx(m.drop_first(), h);
        assert(forall|j: int| 0 <= j < m.len() - 1 ==> m.drop_first()[j] == m[j + 1]);
        if rt_idx(m.drop_first(), h) >= 0 {
            assert forall|j: int| 0 <= j < rt_idx(m, h) implies (#[trigger] m[j]).0 != h by {
                if j > 0 {
                    assert(m.drop_first()[j - 1] == m[j]);
                }
            }
        } else {
            assert forall|j: int| 0 <= j < m.len() implies (#[trigger] m[j]).0 != h by {
                if j > 0 {
                    assert(m.drop_first()[j - 1] == m[j]);
                }
            }
        }
    }
}

/// The tags holding `h`: empty when the hash is unknown.
pub open spec fn rev_get(m: Seq<(Seq<u8>, Seq<Seq<char>>)>, h: Seq<u8>) -> Seq<Seq<char>> {
    if rt_idx(m, h) >= 0 {
        m[rt_idx(m, h)].1
    } else {
        seq![]
    }
}

/// What registering a tag for `h` does: a new one-tag entry for an unknown
/// hash; an append for a known one, unless the tag is already listed.
pub open spec fn rev_add(m: Seq<(Seq<u8>, Seq<Seq<char>>)>, h: Seq<u8>, t: Seq<char>) -> Seq<
    (Seq<u8>, Seq<Seq<char>>),
> {
    let i = rt_idx(m, h);
    if i < 0 {
        m.push((h, seq![t]))
    } else if m[i].1.contains(t) {
        m
    } else {
        m.update(i, (h, m[i].1.push(t)))
    }
}

/// What dropping a hash entirely does.
pub open spec fn rev_remove_entry(m: Seq<(Seq<u8>, Seq<Seq<char>>)>, h: Seq<u8>) -> Seq<
    (Seq<u8>, Seq<Seq<char>>),
> {
    let i = rt_idx(m, h);
    if i < 0 {
        m
    } else {
        m.remove(i)
    }
}

/// The first index of `t` in a tag list, or -1.
pub open spec fn tag_idx(l: Seq<Seq<char>>, t: Seq<char>) -> int
    decreases l,
{
    if l.len() == 0 {
        -1
    } else if l[0] == t {
        0
    } else {
        let r = tag_idx(l.drop_first(), t);
        if r < 0 {
            -1
        } else {
            r + 1
        }
    }
}

/// `tag_idx` finds the least index of `t`.
pub proof fn lemma_tag_idx(l: Seq<Seq<char>>, t: Seq<char>)
    ensures
        tag_idx(l, t) >= 0 ==> tag_idx(l, t) < l.len() && l[tag_idx(l, t)] == t,
        tag_idx(l, t) >= 0 <==> l.contains(t),
        tag_idx(l, t) >= 0 ==> forall|j: int| 0 <= j < tag_idx(l, t) ==> l[j] != t,
    decreases l.len(),
{
    if l.len() > 0 && l[0] != t {
        lemma_tag_idx(l.drop_first(), t);
        assert(forall|j: int| 0 <= j < l.len() - 1 ==> l.drop_first()[j] == l[j + 1]);
        if tag_idx(l.drop_first(), t) >= 0 {
            assert(l.contains(t)) by {
                assert(l[tag_idx(l, t)] == t);
            }
            assert forall|j: int| 0 <= j < tag_idx(l, t) implies l[j] != t by {
                if j > 0 {
                    assert(l.drop_first()[j - 1] == l[j]);
                }
            }
        } else {
            if l.contains(t) {
                let w = choose|w: int| 0 <= w < l.len() && l[w] == t;
                assert(l.drop_first()[w - 1] == t);
                assert(false);
            }
        }
    } else if l.len() > 0 {
        assert(l.contains(t)) by {
            assert(l[0] == t);
        }
    } else {
        assert(!l.contains(t));
    }
}

/// What removing one tag from `h`'s list does: the entry disappears when its
/// last tag goes.
pub open spec fn rev_remove_tag(m: Seq<(Seq<u8>, Seq<Seq<char>>)>, h: Seq<u8>, t: Seq<char>) -> Seq<
    (Seq<u8>, Seq<Seq<char>>),
> {
    let i = rt_idx(m, h);
    if i < 0 {
        m
    } else {
        let j = tag_idx(m[i].1, t);
        if j < 0 {
            m
        } else {
            let l2 = m[i].1.remove(j);
            if l2.len() == 0 {
                m.remove(i)
            } else {
                m.update(i, (h, l2))
            }
        }
    }
}

/// The in-memory reverse-tag index.
pub struct RevTags {
    entries: Vec<(ObjectHash, Vec<String>)>,
}

impl View for RevTags {
    type V = Seq<(Seq<u8>, Seq<Seq<char>>)>;

    closed spec fn view(&self) -> Seq<(Seq<u8>, Seq<Seq<char>>)> {
        pair_views(self.entries@)
    }
}

impl RevTags {
    /// Hashes are 20 bytes and listed once; tag lists are non-empty and hold
    /// no duplicates.
    pub open spec fn wf(&self) -> bool {
        &&& forall|i: int, j: int| 0 <= i < j < self@.len() ==> self@[i].0 != self@[j].0
        &&& forall|i: int| 0 <= i < self@.len() ==> (#[trigger] self@[i]).0.len() == 20
        &&& forall|i: int| 0 <= i < self@.len() ==> (#[trigger] self@[i]).1.len() >= 1
        &&& forall|i: int, a: int, b: int|
            0 <= i < self@.len() && 0 <= a < b < self@[i].1.len() ==> #[trigger] self@[i].1[a]
                != #[trigger] self@[i].1[b]
    }

    /// An empty index.
    pub fn new() -> (r: RevTags)
        ensures
            r@ == Seq::<(Seq<u8>, Seq<Seq<char>>)>::empty(),
            r.wf(),
    {
        let r = RevTags { entries: Vec::new() };
        proof {
            assert(r@ =~= Seq::<(Seq<u8>, Seq<Seq<char>>)>::empty());
        }
        r
    }
}


impl RevTags {
    /// Borrow the entries, for the shard codec.
    pub(crate) fn entries_ref(&self) -> (r: &Vec<(ObjectHash, Vec<String>)>)
        ensures
            pair_views(r@) == self@,
    {
        &self.entries
    }

    /// Find the entry keyed by `hash`.
    fn find_entry(&self, hash: &ObjectHash) -> (r: Option<usize>)
        ensures
            match r {
                Option::Some(i) => i < self@.len() && rt_idx(self@, hash@) == i as int,
                Option::None => rt_idx(self@, hash@) < 0,
            },
    {
        let ghost m = self@;
        let mut i: usize = 0;
        while i < self.entries.len()
            invariant
                i <= self.entries@.len(),
                m == self@,
                m.len() == self.entries@.len(),
                forall|j: int| 0 <= j < i ==> (#[trigger] m[j]).0 != hash@,
            decreases self.entries@.len() - i,
        {
            if self.entries[i].0 == *hash {
                proof {
                    assert(m[i as int].0 == hash@);
                    lemma_rt_idx(m, hash@);
                    if rt_idx(m, hash@) < i as int {
                        assert(m[rt_idx(m, hash@)].0 != hash@);
                        assert(false);
                    }
                    if rt_idx(m, hash@) > i as int || rt_idx(m, hash@) < 0 {
                        assert(m[i as int].0 != hash@);
                        assert(false);
                    }
                }
                return Option::Some(i);
            }
            proof {
                assert(m[i as int].0 == self.entries@[i as int].0@);
            }
            i = i + 1;
        }
        proof {
            lemma_rt_idx(m, hash@);
            if rt_idx(m, hash@) >= 0 {
                assert(m[rt_idx(m, hash@)].0 == hash@);
                assert(m[rt_idx(m, hash@)].0 != hash@);
            }
        }
        Option::None
    }

    /// The index of `tag` in a tag vector, if present.
    fn find_tag(tags: &Vec<String>, tag: &String) -> (r: Option<usize>)
        ensures
            match r {
                Option::Some(j) => j < tags@.len() && tag_idx(strs_views(tags@), tag@) == j as int,
                Option::None => tag_idx(strs_views(tags@), tag@) < 0,
            },
    {
        let ghost l = strs_views(tags@);
        let mut j: usize = 0;
        while j < tags.len()
            invariant
                j <= tags@.len(),
                l == strs_views(tags@),
                l.len() == tags@.len(),
                forall|k: int| 0 <= k < j ==> l[k] != tag@,
            decreases tags@.len() - j,
        {
            if tags[j] == *tag {
                proof {
                    assert(l[j as int] == tag@);
                    lemma_tag_idx(l, tag@);
                    if tag_idx(l, tag@) < j as int {
                        assert(l[tag_idx(l, tag@)] != tag@);
                    }
                    if tag_idx(l, tag@) > j as int || tag_idx(l, tag@) < 0 {
                        assert(l[j as int] != tag@);
                    }
                }
                return Option::Some(j);
            }
            proof {
                assert(l[j as int] == tags@[j as int]@);
            }
            j = j + 1;
        }
        proof {
            lemma_tag_idx(l, tag@);
            if tag_idx(l, tag@) >= 0 {
                assert(l[tag_idx(l, tag@)] == tag@);
                assert(l[tag_idx(l, tag@)] != tag@);
            }
        }
        Option::None
    }

    /// The tags currently holding `hash`, in insertion order; empty when the
    /// hash is unknown.
    pub fn get(&self, hash: &ObjectHash) -> (r: Vec<String>)
        ensures
            strs_views(r@) == rev_get(self@, hash@),
    {
        match self.find_entry(hash) {
            Option::None => {
                let empty: Vec<String> = Vec::new();
                proof {
                    assert(strs_views(empty@) =~= rev_get(self@, hash@));
                }
                empty
            },
            Option::Some(i) => {
                let src = &self.entries[i].1;
                let mut out: Vec<String> = Vec::new();
                let mut j: usize = 0;
                proof {
                    assert(self@[i as int].1 == strs_views(self.entries@[i as int].1@));
                }
                while j < src.len()
                    invariant
                        j <= src@.len(),
                        i < self.entries@.len(),
                        src == &self.entries@[i as int].1,
                        out@.len() == j,
                        forall|k: int| 0 <= k < j ==> (#[trigger] out@[k])@ == src@[k]@,
                    decreases src@.len() - j,
                {
                    out.push(src[j].clone());
                    j = j + 1;
                }
                proof {
                    assert(strs_views(out@) =~= strs_views(src@));
                    assert(rev_get(self@, hash@) == self@[i as int].1);
                    assert(self@[i as int].1 == strs_views(src@));
                }
                out
            },
        }
    }

    /// Register `tag` as a holder of `hash`: appended to the hash's list
    /// unless already present; a new entry for an unknown hash.
    pub fn add(&mut self, hash: &ObjectHash, tag: &String)
        requires
            old(self).wf(),
            hash.wf(),
        ensures
            final(self)@ == rev_add(old(self)@, hash@, tag@),
            final(self).wf(),
    {
        let ghost m = self@;
        match self.find_entry(hash) {
            Option::None => {
                let mut l: Vec<String> = Vec::new();
                l.push(tag.clone());
                let ghost pre = self.entries@;
                self.entries.push((hash.duplicate(), l));
                proof {
                    assert(strs_views(self.entries@[pre.len() as int].1@) =~= seq![tag@]);
                    assert(self@ =~= m.push((hash@, seq![tag@])));
                }
            },
            Option::Some(i) => {
                proof {
                    lemma_rt_idx(m, hash@);
                    assert(m[i as int].0 == hash@);
                    assert(self@[i as int].1 == strs_views(self.entries@[i as int].1@));
                }
                let present = match Self::find_tag(&self.entries[i].1, tag) {
                    Option::Some(_) => true,
                    Option::None => false,
                };
                proof {
                    lemma_tag_idx(m[i as int].1, tag@);
                    assert(present == m[i as int].1.contains(tag@));
                }
                if !present {
                    let ghost pre = self.entries@;
                    let mut pair = self.entries.remove(i);
                    pair.1.push(tag.clone());
                    self.entries.insert(i, pair);
                    proof {
                        assert(self.entries@ =~= pre.update(
                            i as int,
                            self.entries@[i as int],
                        ));
                        assert(strs_views(self.entries@[i as int].1@) =~= m[i as int].1.push(
                            tag@,
                        ));
                        assert(self@ =~= m.update(i as int, (hash@, m[i as int].1.push(tag@))));
                        assert(m[i as int].0 == hash@);
                    }
                }
            },
        }
        proof {
            let m2 = self@;
            assert forall|a: int, b: int| 0 <= a < b < m2.len() implies m2[a].0 != m2[b].0 by {
                if b < m.len() {
                    assert(m[a].0 != m[b].0);
                } else if m2.len() > m.len() {
                    lemma_rt_idx(m, hash@);
                    assert(m[a].0 != hash@);
                }
            }
            assert forall|a: int| 0 <= a < m2.len() implies (#[trigger] m2[a]).0.len() == 20 by {
                if a < m.len() {
                    assert(m[a].0.len() == 20);
                }
            }
            assert forall|a: int| 0 <= a < m2.len() implies (#[trigger] m2[a]).1.len() >= 1 by {
                if a < m.len() && m2[a].1 != m[a].1 {
                    assert(m[a].1.len() >= 1);
                }
                if a < m.len() && m2[a].1 == m[a].1 {
                    assert(m[a].1.len() >= 1);
                }
            }
            assert forall|a: int, x: int, y: int|
                0 <= a < m2.len() && 0 <= x < y < m2[a].1.len() implies #[trigger] m2[a].1[x]
                != #[trigger] m2[a].1[y] by {
                if a < m.len() {
                    if m2[a].1 == m[a].1 {
                        assert(m[a].1[x] != m[a].1[y]);
                    } else {
                        if y < m[a].1.len() {
                            assert(m[a].1[x] != m[a].1[y]);
                        } else {
                            assert(m2[a].1[y] == tag@);
                            assert(!m[a].1.contains(tag@));
                            if m2[a].1[x] == tag@ {
                                assert(m[a].1[x] == tag@);
                                assert(m[a].1.contains(tag@));
                            }
                        }
                    }
                }
            }
        }
    }

    /// Drop the whole entry for `hash`: every holder forgets it at once.
    pub fn remove_global(&mut self, hash: &ObjectHash)
        requires
            old(self).wf(),
        ensures
            final(self)@ == rev_remove_entry(old(self)@, hash@),
            final(self).wf(),
    {
        let ghost m = self@;
        match self.find_entry(hash) {
            Option::None => {},
            Option::Some(i) => {
                let ghost pre = self.entries@;
                let _ = self.entries.remove(i);
                proof {
                    assert(self@ =~= m.remove(i as int));
                    let m2 = self@;
                    assert forall|a: int, b: int|
                        0 <= a < b < m2.len() implies m2[a].0 != m2[b].0 by {
                        let a0 = if a < i as int {
                            a
                        } else {
                            a + 1
                        };
                        let b0 = if b < i as int {
                            b
                        } else {
                            b + 1
                        };
                        assert(m2[a] == m[a0]);
                        assert(m2[b] == m[b0]);
                        assert(m[a0].0 != m[b0].0);
                    }
                    assert forall|a: int|
                        0 <= a < m2.len() implies (#[trigger] m2[a]).0.len() == 20 && m2[a].1.len()
                        >= 1 by {
                        let a0 = if a < i as int {
                            a
                        } else {
                            a + 1
                        };
                        assert(m2[a] == m[a0]);
                        assert(m[a0].0.len() == 20);
                        assert(m[a0].1.len() >= 1);
                    }
                    assert forall|a: int, x: int, y: int|
                        0 <= a < m2.len() && 0 <= x < y < m2[a].1.len() implies #[trigger] m2[
                    a].1[x] != #[trigger] m2[a].1[y] by {
                        let a0 = if a < i as int {
                            a
                        } else {
                            a + 1
                        };
                        assert(m2[a] == m[a0]);
                        assert(m[a0].1[x] != m[a0].1[y]);
                    }
                }
            },
        }
    }

    /// Remove `tag` from `hash`'s list; the entry disappears when its last
    /// tag goes.
    pub fn remove_local(&mut self, hash: &ObjectHash, tag: &String)
        requires
            old(self).wf(),
        ensures
            final(self)@ == rev_remove_tag(old(self)@, hash@, tag@),
            final(self).wf(),
    {
        let ghost m = self@;
        match self.find_entry(hash) {
            Option::None => {},
            Option::Some(i) => {
                proof {
                    lemma_rt_idx(m, hash@);
                    assert(m[i as int].0 == hash@);
                    assert(self@[i as int].1 == strs_views(self.entries@[i as int].1@));
                }
                match Self::find_tag(&self.entries[i].1, tag) {
                    Option::None => {},
                    Option::Some(j) => {
                        let ghost pre = self.entries@;
                        let mut pair = self.entries.remove(i);
                        let _ = pair.1.remove(j);
                        proof {
                            assert(strs_views(pair.1@) =~= m[i as int].1.remove(j as int));
                        }
                        if pair.1.len() == 0 {
                            proof {
                                assert(self@ =~= m.remove(i as int));
                            }
                        } else {
                            self.entries.insert(i, pair);
                            proof {
                                assert(self@ =~= m.update(
                                    i as int,
                                    (m[i as int].0, m[i as int].1.remove(j as int)),
                                ));
                                assert(m[i as int].0 == hash@);
                            }
                        }
                        proof {
                            let m2 = self@;
                            let dropped = pair.1@.len() == 0;
                            assert forall|a: int, b: int|
                                0 <= a < b < m2.len() implies m2[a].0 != m2[b].0 by {
                                if dropped {
                                    let a0 = if a < i as int {
                                        a
                                    } else {
                                        a + 1
                                    };
                                    let b0 = if b < i as int {
                                        b
                                    } else {
                                        b + 1
                                    };
                                    assert(m2[a] == m[a0]);
                                    assert(m2[b] == m[b0]);
                                    assert(m[a0].0 != m[b0].0);
                                } else {
                                    assert(m[a].0 != m[b].0);
                                    assert(m2[a].0 == m[a].0);
                                    assert(m2[b].0 == m[b].0);
                                }
                            }
                            assert forall|a: int|
                                0 <= a < m2.len() implies (#[trigger] m2[a]).0.len() == 20 && m2[
                            a].1.len() >= 1 by {
                                if dropped {
                                    let a0 = if a < i as int {
                                        a
                                    } else {
                                        a + 1
                                    };
                                    assert(m2[a] == m[a0]);
                                    assert(m[a0].0.len() == 20);
                                    assert(m[a0].1.len() >= 1);
                                } else {
                                    assert(m[a].0.len() == 20);
                                    assert(m[a].1.len() >= 1);
                                    if a == i as int {
                                        assert(m2[a].1.len() == m[a].1.len() - 1);
                                        assert(m2[a].1.len() >= 1);
                                    }
                                }
                            }
                            assert forall|a: int, x: int, y: int|
                                0 <= a < m2.len() && 0 <= x < y < m2[a].1.len() implies #[trigger] m2[
                            a].1[x] != #[trigger] m2[a].1[y] by {
                                if dropped {
                                    let a0 = if a < i as int {
                                        a
                                    } else {
                                        a + 1
                                    };
                                    assert(m2[a] == m[a0]);
                                    assert(m[a0].1[x] != m[a0].1[y]);
                                } else if a == i as int {
                                    let l = m[i as int].1;
                                    let x0 = if x < j as int {
                                        x
                                    } else {
                                        x + 1
                                    };
                                    let y0 = if y < j as int {
                                        y
                                    } else {
                                        y + 1
                                    };
                                    assert(m2[a].1[x] == l[x0]);
                                    assert(m2[a].1[y] == l[y0]);
                                    assert(l[x0] != l[y0]);
                                } else {
                                    assert(m[a].1[x] != m[a].1[y]);
                                }
                            }
                        }
                    },
                }
            },
        }
    }
}


impl RevTags {
    /// Export the index as `(hex hash, tags)` pairs, in entry order, for the
    /// shard files.
    pub fn to_pairs(&self) -> (r: Vec<(String, Vec<String>)>)
        ensures
            r@.len() == self@.len(),
            forall|i: int|
                0 <= i < self@.len() ==> (#[trigger] r@[i]).0@ == crate::hashing::hex_of(
                    self@[i].0,
                ) && strs_views(r@[i].1@) == self@[i].1,
    {
        let mut out: Vec<(String, Vec<String>)> = Vec::new();
        let mut i: usize = 0;
        while i < self.entries.len()
            invariant
                i <= self.entries@.len(),
                self@.len() == self.entries@.len(),
                out@.len() == i,
                forall|k: int|
                    0 <= k < i ==> (#[trigger] out@[k]).0@ == crate::hashing::hex_of(self@[k].0)
                        && strs_views(out@[k].1@) == self@[k].1,
            decreases self.entries@.len() - i,
        {
            proof {
                assert(self@[i as int] == (self.entries@[i as int].0@, strs_views(
                    self.entries@[i as int].1@,
                )));
            }
            let key = crate::hashing::hash_string(&self.entries[i].0);
            let src = &self.entries[i].1;
            let mut tags: Vec<String> = Vec::new();
            let mut j: usize = 0;
            while j < src.len()
                invariant
                    j <= src@.len(),
                    i < self.entries@.len(),
                    src == &self.entries@[i as int].1,
                    tags@.len() == j,
                    forall|k: int| 0 <= k < j ==> (#[trigger] tags@[k])@ == src@[k]@,
                decreases src@.len() - j,
            {
                tags.push(src[j].clone());
                j = j + 1;
            }
            proof {
                assert(strs_views(tags@) =~= strs_views(src@));
            }
            out.push((key, tags));
            i = i + 1;
        }
        out
    }
}

/// No two entries share a key.
pub open spec fn rt_keys_unique(m: Seq<(Seq<u8>, Seq<Seq<char>>)>) -> bool {
    forall|i: int, j: int| 0 <= i < j < m.len() ==> m[i].0 != m[j].0
}

/// No tag appears twice in one entry's list.
pub open spec fn rt_lists_unique(m: Seq<(Seq<u8>, Seq<Seq<char>>)>) -> bool {
    forall|i: int, a: int, b: int|
        0 <= i < m.len() && 0 <= a < b < m[i].1.len() ==> #[trigger] m[i].1[a] != #[trigger] m[
        i].1[b]
}

/// With unique keys, an entry's position is where `rt_idx` points.
pub proof fn lemma_rt_idx_at(m: Seq<(Seq<u8>, Seq<Seq<char>>)>, h: Seq<u8>, i: int)
    requires
        rt_keys_unique(m),
        0 <= i < m.len(),
        m[i].0 == h,
    ensures
        rt_idx(m, h) == i,
{
    lemma_rt_idx(m, h);
    if rt_idx(m, h) < 0 {
        assert(m[i].0 != h);
    } else if rt_idx(m, h) != i {
        let r = rt_idx(m, h);
        assert(m[r].0 == h);
        if r < i {
            assert(m[r].0 != m[i].0);
        } else {
            assert(m[i].0 != m[r].0);
        }
    }
}

/// When no entry carries `h`, `rt_idx` reports it absent.
pub proof fn lemma_rt_idx_absent(m: Seq<(Seq<u8>, Seq<Seq<char>>)>, h: Seq<u8>)
    requires
        forall|j: int| 0 <= j < m.len() ==> (#[trigger] m[j]).0 != h,
    ensures
        rt_idx(m, h) < 0,
{
    lemma_rt_idx(m, h);
    if rt_idx(m, h) >= 0 {
        assert(m[rt_idx(m, h)].0 == h);
        assert(m[rt_idx(m, h)].0 != h);
    }
}

/// What registering a tag for `h` does to every lookup: `h`'s list gains the
/// tag (unless already listed); every other hash's list stands.
pub proof fn lemma_rev_add_get(
    m: Seq<(Seq<u8>, Seq<Seq<char>>)>,
    h: Seq<u8>,
    t: Seq<char>,
    h2: Seq<u8>,
)
    requires
        rt_keys_unique(m),
    ensures
        rev_get(rev_add(m, h, t), h2) == (if h2 == h {
            if rev_get(m, h).contains(t) {
                rev_get(m, h)
            } else {
                rev_get(m, h).push(t)
            }
        } else {
            rev_get(m, h2)
        }),
        rt_keys_unique(rev_add(m, h, t)),
{
    lemma_rt_idx(m, h);
    lemma_rt_idx(m, h2);
    let i = rt_idx(m, h);
    let m2 = rev_add(m, h, t);
    if i < 0 {
        assert(m2 == m.push((h, seq![t])));
        assert forall|a: int, b: int| 0 <= a < b < m2.len() implies m2[a].0 != m2[b].0 by {
            if b < m.len() {
                assert(m[a].0 != m[b].0);
            } else {
                assert(m2[b].0 == h);
                assert(m[a].0 != h);
            }
        }
        if h2 == h {
            lemma_rt_idx_at(m2, h, m.len() as int);
            assert(rev_get(m2, h) == seq![t]);
            assert(rev_get(m, h) == Seq::<Seq<char>>::empty());
            assert(!rev_get(m, h).contains(t));
            assert(rev_get(m, h).push(t) =~= seq![t]);
        } else {
            if rt_idx(m, h2) >= 0 {
                let j = rt_idx(m, h2);
                assert(m2[j] == m[j]);
                lemma_rt_idx_at(m2, h2, j);
            } else {
                assert forall|j: int| 0 <= j < m2.len() implies (#[trigger] m2[j]).0 != h2 by {
                    if j < m.len() {
                        assert(m[j].0 != h2);
                    }
                }
                lemma_rt_idx_absent(m2, h2);
            }
        }
    } else if m[i].1.contains(t) {
        assert(m2 == m);
        assert(rev_get(m, h) == m[i].1);
    } else {
        assert(m2 == m.update(i, (h, m[i].1.push(t))));
        assert forall|a: int, b: int| 0 <= a < b < m2.len() implies m2[a].0 != m2[b].0 by {
            assert(m2[a].0 == m[a].0);
            assert(m2[b].0 == m[b].0);
            assert(m[a].0 != m[b].0);
        }
        if h2 == h {
            lemma_rt_idx_at(m2, h, i);
            assert(rev_get(m2, h) == m[i].1.push(t));
            assert(rev_get(m, h) == m[i].1);
        } else {
            if rt_idx(m, h2) >= 0 {
                let j = rt_idx(m, h2);
                assert(j != i);
                assert(m2[j] == m[j]);
                lemma_rt_idx_at(m2, h2, j);
            } else {
                assert forall|j: int| 0 <= j < m2.len() implies (#[trigger] m2[j]).0 != h2 by {
                    assert(m2[j].0 == m[j].0);
                    assert(m[j].0 != h2);
                }
                lemma_rt_idx_absent(m2, h2);
            }
        }
    }
}

/// What dropping `h`'s entry does to every lookup: `h` loses all tags, every
/// other hash stands.
pub proof fn lemma_rev_remove_entry_get(m: Seq<(Seq<u8>, Seq<Seq<char>>)>, h: Seq<u8>, h2: Seq<u8>)
    requires
        rt_keys_unique(m),
    ensures
        rev_get(rev_remove_entry(m, h), h2) == (if h2 == h {
            Seq::<Seq<char>>::empty()
        } else {
            rev_get(m, h2)
        }),
        rt_keys_unique(rev_remove_entry(m, h)),
{
    lemma_rt_idx(m, h);
    lemma_rt_idx(m, h2);
    let i = rt_idx(m, h);
    let m2 = rev_remove_entry(m, h);
    if i < 0 {
        assert(m2 == m);
        if h2 == h {
            assert(rev_get(m, h) == Seq::<Seq<char>>::empty());
        }
    } else {
        assert(m2 == m.remove(i));
        assert forall|a: int, b: int| 0 <= a < b < m2.len() implies m2[a].0 != m2[b].0 by {
            let a0 = if a < i {
                a
            } else {
                a + 1
            };
            let b0 = if b < i {
                b
            } else {
                b + 1
            };
            assert(m2[a] == m[a0]);
            assert(m2[b] == m[b0]);
            assert(m[a0].0 != m[b0].0);
        }
        if h2 == h {
            assert forall|j: int| 0 <= j < m2.len() implies (#[trigger] m2[j]).0 != h by {
                let j0 = if j < i {
                    j
                } else {
                    j + 1
                };
                assert(m2[j] == m[j0]);
                assert(j0 != i);
                if j0 < i {
                    assert(m[j0].0 != m[i].0);
                } else {
                    assert(m[i].0 != m[j0].0);
                }
            }
            lemma_rt_idx_absent(m2, h);
        } else {
            if rt_idx(m, h2) >= 0 {
                let j = rt_idx(m, h2);
                assert(j != i);
                let j2 = if j < i {
                    j
                } else {
                    j - 1
                };
                assert(m2[j2] == m[j]);
                lemma_rt_idx_at(m2, h2, j2);
            } else {
                assert forall|j: int| 0 <= j < m2.len() implies (#[trigger] m2[j]).0 != h2 by {
                    let j0 = if j < i {
                        j
                    } else {
                        j + 1
                    };
                    assert(m2[j] == m[j0]);
                    assert(m[j0].0 != h2);
                }
                lemma_rt_idx_absent(m2, h2);
            }
        }
    }
}

/// What a tag list looks like after one tag is taken out.
pub open spec fn remove_tag_list(l: Seq<Seq<char>>, t: Seq<char>) -> Seq<Seq<char>> {
    if tag_idx(l, t) < 0 {
        l
    } else {
        l.remove(tag_idx(l, t))
    }
}

/// In a duplicate-free list, taking a tag out removes exactly that tag.
pub proof fn lemma_remove_tag_list(l: Seq<Seq<char>>, t: Seq<char>, t2: Seq<char>)
    requires
        forall|a: int, b: int| 0 <= a < b < l.len() ==> l[a] != l[b],
    ensures
        remove_tag_list(l, t).contains(t2) <==> (l.contains(t2) && t2 != t),
{
    lemma_tag_idx(l, t);
    let j = tag_idx(l, t);
    if j < 0 {
        if l.contains(t2) && t2 == t {
            assert(l.contains(t));
        }
    } else {
        let l2 = l.remove(j);
        if l2.contains(t2) {
            let w = choose|w: int| 0 <= w < l2.len() && l2[w] == t2;
            let w0 = if w < j {
                w
            } else {
                w + 1
            };
            assert(l2[w] == l[w0]);
            assert(l.contains(t2)) by {
                assert(l[w0] == t2);
            }
            if t2 == t {
                assert(w0 != j);
                if w0 < j {
                    assert(l[w0] != l[j]);
                } else {
                    assert(l[j] != l[w0]);
                }
                assert(false);
            }
        }
        if l.contains(t2) && t2 != t {
            let w = choose|w: int| 0 <= w < l.len() && l[w] == t2;
            assert(w != j);
            let w2 = if w < j {
                w
            } else {
                w - 1
            };
            assert(l2[w2] == l[w]);
            assert(l2.contains(t2)) by {
                assert(l2[w2] == t2);
            }
        }
    }
}

/// What unlabelling does to every lookup: `h`'s list loses the tag, every
/// other hash stands.
pub proof fn lemma_rev_remove_tag_get(
    m: Seq<(Seq<u8>, Seq<Seq<char>>)>,
    h: Seq<u8>,
    t: Seq<char>,
    h2: Seq<u8>,
)
    requires
        rt_keys_unique(m),
    ensures
        rev_get(rev_remove_tag(m, h, t), h2) == (if h2 == h {
            remove_tag_list(rev_get(m, h), t)
        } else {
            rev_get(m, h2)
        }),
        rt_keys_unique(rev_remove_tag(m, h, t)),
{
    lemma_rt_idx(m, h);
    lemma_rt_idx(m, h2);
    let i = rt_idx(m, h);
    let m2 = rev_remove_tag(m, h, t);
    if i < 0 {
        assert(m2 == m);
        if h2 == h {
            assert(rev_get(m, h) == Seq::<Seq<char>>::empty());
            lemma_tag_idx(Seq::<Seq<char>>::empty(), t);
        }
    } else {
        let l = m[i].1;
        lemma_tag_idx(l, t);
        let j = tag_idx(l, t);
        if j < 0 {
            assert(m2 == m);
            if h2 == h {
                assert(rev_get(m, h) == l);
            }
        } else {
            let l2 = l.remove(j);
            if l2.len() == 0 {
                assert(m2 == m.remove(i));
                lemma_rev_remove_entry_get(m, h, h2);
                assert(rev_remove_entry(m, h) == m.remove(i));
                if h2 == h {
                    assert(remove_tag_list(rev_get(m, h), t) =~= Seq::<Seq<char>>::empty());
                }
            } else {
                assert(m2 == m.update(i, (h, l2)));
                assert forall|a: int, b: int| 0 <= a < b < m2.len() implies m2[a].0 != m2[b].0 by {
                    assert(m2[a].0 == m[a].0);
                    assert(m2[b].0 == m[b].0);
                    assert(m[a].0 != m[b].0);
                }
                if h2 == h {
                    lemma_rt_idx_at(m2, h, i);
                    assert(rev_get(m2, h) == l2);
                } else {
                    if rt_idx(m, h2) >= 0 {
                        let k = rt_idx(m, h2);
                        assert(k != i);
                        assert(m2[k] == m[k]);
                        lemma_rt_idx_at(m2, h2, k);
                    } else {
                        assert forall|k: int|
                            0 <= k < m2.len() implies (#[trigger] m2[k]).0 != h2 by {
                            assert(m2[k].0 == m[k].0);
                            assert(m[k].0 != h2);
                        }
                        lemma_rt_idx_absent(m2, h2);
                    }
                }
            }
        }
    }
}

} // verus!
