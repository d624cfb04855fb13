//! The on-disk presence cache: a set of fixed-width 20-byte items backed by a
//! single file with no header. Lookup scans the items; insertion appends;
//! removal copies the last item into the freed slot and truncates.

use vstd::prelude::*;
use crate::hashing::ObjectHash;

verus! {

/// The views of a vector of hashes.
pub open spec fn hash_views(s: Seq<ObjectHash>) -> Seq<Seq<u8>> {
    s.map_values(|h: ObjectHash| h@)
}

/// What insertion does to the item sequence: nothing when the item is
/// present, else an append.
pub open spec fn spec_add(s: Seq<Seq<u8>>, x: Seq<u8>) -> Seq<Seq<u8>> {
    if s.contains(x) {
        s
    } else {
        s.push(x)
    }
}

/// The first index holding `x`, or -1.
pub open spec fn item_idx(s: Seq<Seq<u8>>, x: Seq<u8>) -> int
    decreases s,
{
    if s.len() == 0 {
        -1
    } else if s[0] == x {
        0
    } else {
        let r = item_idx(s.drop_first(), x);
        if r < 0 {
            -1
        } else {
            r + 1
        }
    }
}

/// What removal does to the item sequence: nothing when the item is absent,
/// else the last item moves into its slot and the sequence shortens by one.
pub open spec fn spec_remove(s: Seq<Seq<u8>>, x: Seq<u8>) -> Seq<Seq<u8>> {
    if s.contains(x) {
        s.update(item_idx(s, x), s.last()).drop_last()
    } else {
        s
    }
}

/// `item_idx` finds the least index holding `x`.
pub proof fn lemma_item_idx(s: Seq<Seq<u8>>, x: Seq<u8>)
    ensures
        item_idx(s, x) >= 0 ==> item_idx(s, x) < s.len() && s[item_idx(s, x)] == x,
        item_idx(s, x) >= 0 <==> s.contains(x),
        item_idx(s, x) >= 0 ==> forall|j: int| 0 <= j < item_idx(s, x) ==> s[j] != x,
        item_idx(s, x) < 0 ==> forall|j: int| 0 <= j < s.len() ==> s[j] != x,
    decreases s.len(),
{
    if s.len() > 0 && s[0] != x {
        lemma_item_idx(s.drop_first(), x);
        assert(forall|j: int| 0 <= j < s.len() - 1 ==> s.drop_first()[j] == s[j + 1]);
        if item_idx(s.drop_first(), x) >= 0 {
            assert forall|j: int| 0 <= j < item_idx(s, x) implies s[j] != x by {
                if j > 0 {
                    assert(s.drop_first()[j - 1] == s[j]);
                }
            }
        }
        if item_idx(s.drop_first(), x) < 0 {
            assert forall|j: int| 0 <= j < s.len() implies s[j] != x by {
                if j > 0 {
                    assert(s.drop_first()[j - 1] == s[j]);
                }
            }
            assert(!s.contains(x)) by {
                if s.contains(x) {
                    let w = choose|w: int| 0 <= w < s.len() && s[w] == x;
                    assert(s[w] != x);
                }
            }
        } else {
            assert(s.contains(x)) by {
                assert(s[item_idx(s, x)] == x);
            }
        }
    } else if s.len() > 0 {
        assert(s.contains(x)) by {
            assert(s[0] == x);
        }
    } else {
        assert(!s.contains(x));
    }
}

/// No two items are equal.
pub open spec fn unique_items(s: Seq<Seq<u8>>) -> bool {
    forall|i: int, j: int| 0 <= i < j < s.len() ==> s[i] != s[j]
}

/// The 20-byte window at position `i` of a file image.
pub open spec fn image_item(data: Seq<u8>, i: int) -> Seq<u8> {
    data.subrange(i * 20, i * 20 + 20)
}

/// A set of 20-byte items, as a file image holds them: in insertion order,
/// each item at most once.
pub struct DiskSet {
    items: Vec<ObjectHash>,
}

impl View for DiskSet {
    type V = Seq<Seq<u8>>;

    closed spec fn view(&self) -> Seq<Seq<u8>> {
        hash_views(self.items@)
    }
}

impl DiskSet {
    /// Every item is 20 bytes wide and occurs once.
    pub open spec fn wf(&self) -> bool {
        &&& unique_items(self@)
        &&& forall|i: int| 0 <= i < self@.len() ==> (#[trigger] self@[i]).len() == 20
    }

    /// An empty set.
    pub fn new() -> (r: DiskSet)
        ensures
            r@ == Seq::<Seq<u8>>::empty(),
            r.wf(),
    {
        let r = DiskSet { items: Vec::new() };
        proof {
            assert(r@ =~= Seq::<Seq<u8>>::empty());
        }
        r
    }

    /// The number of items held.
    pub fn len(&self) -> (n: usize)
        ensures
            n == self@.len(),
    {
        self.items.len()
    }

    /// Whether `item` is in the set.
    pub fn contains(&self, item: &ObjectHash) -> (r: bool)
        ensures
            r == self@.contains(item@),
    {
        let mut i: usize = 0;
        while i < self.items.len()
            invariant
                i <= self.items@.len(),
                forall|j: int| 0 <= j < i ==> hash_views(self.items@)[j] != item@,
            decreases self.items@.len() - i,
        {
            if self.items[i] == *item {
                proof {
                    assert(self@[i as int] == item@);
                }
                return true;
            }
            i = i + 1;
        }
        proof {
            if self@.contains(item@) {
                let w = choose|w: int| 0 <= w < self@.len() && self@[w] == item@;
                assert(self@[w] != item@);
            }
        }
        false
    }

    /// Insert `item`: a no-op when it is already present, an append when not.
    pub fn add(&mut self, item: &ObjectHash)
        requires
            old(self).wf(),
            item.wf(),
        ensures
            final(self)@ == spec_add(old(self)@, item@),
            final(self).wf(),
    {
        if self.contains(item) {
            return;
        }
        let ghost pre = self.items@;
        self.items.push(item.duplicate());
        proof {
            assert(self@ =~= hash_views(pre).push(item@));
        }
    }

    /// Remove `item`: a no-op when it is absent; otherwise the last item
    /// moves into its slot and the set shortens by one.
    pub fn remove(&mut self, item: &ObjectHash)
        requires
            old(self).wf(),
        ensures
            final(self)@ == spec_remove(old(self)@, item@),
            final(self).wf(),
            old(self)@.contains(item@) ==> final(self)@.len() == old(self)@.len() - 1,
            !final(self)@.contains(item@),
    {
        let ghost s0 = self@;
        let mut i: usize = 0;
        let mut found: bool = false;
        let mut idx: usize = 0;
        while i < self.items.len()
            invariant
                i <= self.items@.len(),
                self@ == s0,
                !found ==> forall|j: int| 0 <= j < i ==> s0[j] != item@,
                found ==> idx < s0.len() && s0[idx as int] == item@ && (forall|j: int|
                    0 <= j < idx ==> s0[j] != item@),
            decreases self.items@.len() - i,
        {
            if !found && self.items[i] == *item {
                found = true;
                idx = i;
            }
            i = i + 1;
        }
        proof {
            lemma_item_idx(s0, item@);
            if found {
                if item_idx(s0, item@) < idx as int {
                    assert(s0[item_idx(s0, item@)] != item@);
                }
                if item_idx(s0, item@) > idx as int || item_idx(s0, item@) < 0 {
                    assert(s0[idx as int] != item@);
                }
                assert(item_idx(s0, item@) == idx as int);
                assert(s0.contains(item@));
            } else {
                if s0.contains(item@) {
                    assert(s0[item_idx(s0, item@)] == item@);
                    assert(s0[item_idx(s0, item@)] != item@);
                }
                assert(!s0.contains(item@));
            }
        }
        if !found {
            return;
        }
        let last = self.items.pop().unwrap();
        if idx < self.items.len() {
            self.items.set(idx, last);
            proof {
                assert(self@ =~= s0.update(idx as int, s0.last()).drop_last());
            }
        } else {
            proof {
                assert(idx == s0.len() - 1);
                assert(self@ =~= s0.update(idx as int, s0.last()).drop_last());
            }
        }
        proof {
            let s1 = spec_remove(s0, item@);
            assert(self@ == s1);
            assert forall|a: int, b: int| 0 <= a < b < s1.len() implies s1[a] != s1[b] by {
                assert(old(self).wf());
            }
            assert forall|a: int| 0 <= a < s1.len() implies (#[trigger] s1[a]).len() == 20 by {
                if a == idx {
                    assert(s1[a] == s0[s0.len() - 1]);
                }
            }
            if s1.contains(item@) {
                let w = choose|w: int| 0 <= w < s1.len() && s1[w] == item@;
                if w == idx {
                    assert(s0[s0.len() - 1] == item@);
                    if idx < s0.len() - 1 {
                        assert(s0[idx as int] == s0[s0.len() - 1]);
                        assert(false);
                    }
                } else {
                    assert(s0[w] == item@);
                    assert(w != idx);
                    assert(false);
                }
            }
        }
    }

    /// The file image of the set: the items' bytes, in order, 20 per item.
    pub fn to_bytes(&self) -> (r: Vec<u8>)
        requires
            self.wf(),
        ensures
            r@.len() == 20 * self@.len(),
            forall|i: int, j: int|
                0 <= i < self@.len() && 0 <= j < 20 ==> #[trigger] r@[i * 20 + j] == self@[i][j],
    {
        let mut out: Vec<u8> = Vec::new();
        let mut i: usize = 0;
        while i < self.items.len()
            invariant
                self.wf(),
                i <= self.items@.len(),
                self@.len() == self.items@.len(),
                out@.len() == 20 * i,
                forall|a: int, b: int|
                    0 <= a < i && 0 <= b < 20 ==> #[trigger] out@[a * 20 + b] == self@[a][b],
            decreases self.items@.len() - i,
        {
            proof {
                assert(self@[i as int] == self.items@[i as int]@);
            }
            let mut j: usize = 0;
            while j < 20
                invariant
                    j <= 20,
                    i < self.items@.len(),
                    self@[i as int] == self.items@[i as int]@,
                    self@[i as int].len() == 20,
                    self.wf(),
                    self@.len() == self.items@.len(),
                    out@.len() == 20 * i + j,
                    forall|a: int, b: int|
                        0 <= a < i && 0 <= b < 20 ==> #[trigger] out@[a * 20 + b] == self@[a][b],
                    forall|b: int| 0 <= b < j ==> out@[i as int * 20 + b] == self@[i as int][b],
                decreases 20 - j,
            {
                out.push(self.items[i].byte_at(j));
                j = j + 1;
            }
            i = i + 1;
        }
        out
    }

    /// Rebuild a set from a file image: fails exactly when the length is not
    /// a multiple of 20 or an item repeats.
    pub fn from_bytes(data: &Vec<u8>) -> (r: Option<DiskSet>)
        ensures
            match r {
                Option::Some(ds) => ds.wf() && data@.len() % 20 == 0 && ds@.len() * 20
                    == data@.len() && forall|i: int, j: int|
                    0 <= i < ds@.len() && 0 <= j < 20 ==> ds@[i][j] == #[trigger] data@[i * 20
                    + j],
                Option::None => data@.len() % 20 != 0 || exists|a: int, b: int|
                    0 <= a < b < data@.len() / 20 && #[trigger] image_item(data@, a)
                        == #[trigger] image_item(data@, b),
            },
    {
        if data.len() % 20 != 0 {
            return Option::None;
        }
        proof {
            assert(data@.len() <= usize::MAX);
        }
        let count = data.len() / 20;
        let mut ds = DiskSet::new();
        let mut i: usize = 0;
        let mut base: usize = 0;
        while i < count
            invariant
                count == data@.len() / 20,
                data@.len() % 20 == 0,
                data@.len() == count * 20,
                i <= count,
                base == 20 * i,
                data@.len() <= usize::MAX,
                ds.wf(),
                ds@.len() == i,
                forall|a: int, b: int|
                    0 <= a < i && 0 <= b < 20 ==> ds@[a][b] == #[trigger] data@[a * 20 + b],
                forall|a: int| 0 <= a < i ==> #[trigger] ds@[a] == image_item(data@, a),
            decreases count - i,
        {
            proof {
                assert(20 * i + 20 <= count * 20) by (nonlinear_arith)
                    requires
                        0 <= i < count,
                ;
            }
            let mut bytes: Vec<u8> = Vec::new();
            let mut j: usize = 0;
            while j < 20
                invariant
                    j <= 20,
                    i < count,
                    base == 20 * i,
                    base + 20 <= data@.len(),
                    data@.len() <= usize::MAX,
                    data@.len() == count * 20,
                    bytes@.len() == j,
                    forall|b: int| 0 <= b < j ==> bytes@[b] == #[trigger] data@[i as int * 20 + b],
                decreases 20 - j,
            {
                bytes.push(data[base + j]);
                j = j + 1;
            }
            let ghost bview = bytes@;
            proof {
                assert forall|b: int|
                    0 <= b < 20 implies bview[b] == image_item(data@, i as int)[b] by {
                    assert(bview[b] == data@[i as int * 20 + b]);
                }
                assert(bview =~= image_item(data@, i as int));
            }
            let h = crate::hashing::ObjectHash::from_bytes(bytes);
            if ds.contains(&h) {
                proof {
                    let w = choose|w: int| 0 <= w < ds@.len() && ds@[w] == bview;
                    assert(image_item(data@, w) =~= ds@[w]);
                    assert(image_item(data@, w) == image_item(data@, i as int));
                    assert(0 <= w < i as int <= data@.len() / 20);
                }
                return Option::None;
            }
            let ghost pre = ds@;
            ds.add(&h);
            i = i + 1;
            base = base + 20;
            proof {
                assert(ds@ == pre.push(bview));
                assert forall|a: int, b: int|
                    0 <= a < i && 0 <= b < 20 implies ds@[a][b] == #[trigger] data@[a * 20
                    + b] by {
                    if a < i - 1 {
                        assert(ds@[a] == pre[a]);
                    } else {
                        assert(ds@[a] == bview);
                    }
                }
                assert forall|a: int| 0 <= a < i implies #[trigger] ds@[a] == image_item(
                    data@,
                    a,
                ) by {
                    if a < i - 1 {
                        assert(ds@[a] == pre[a]);
                    } else {
                        assert(ds@[a] == bview);
                        assert(bview =~= image_item(data@, a));
                    }
                }
            }
        }
        Option::Some(ds)
    }
}

/// After insertion the item is present.
pub proof fn lemma_disk_set_add_contains(s: Seq<Seq<u8>>, x: Seq<u8>)
    ensures
        spec_add(s, x).contains(x),
{
    if s.contains(x) {
    } else {
        assert(spec_add(s, x)[s.len() as int] == x);
    }
}

/// Inserting a present item changes nothing; in particular inserting twice
/// leaves the size of the set unchanged.
pub proof fn lemma_disk_set_add_twice(s: Seq<Seq<u8>>, x: Seq<u8>)
    ensures
        spec_add(spec_add(s, x), x) == spec_add(s, x),
        spec_add(spec_add(s, x), x).len() == spec_add(s, x).len(),
{
    lemma_disk_set_add_contains(s, x);
}

/// After removal the item is absent, and the size has shrunk by one item
/// exactly when the item was present.
pub proof fn lemma_disk_set_add_remove(s: Seq<Seq<u8>>, x: Seq<u8>)
    requires
        unique_items(s),
    ensures
        !spec_remove(spec_add(s, x), x).contains(x),
        spec_remove(spec_add(s, x), x).len() == spec_add(s, x).len() - 1,
{
    let s1 = spec_add(s, x);
    lemma_disk_set_add_contains(s, x);
    lemma_item_idx(s1, x);
    let i = item_idx(s1, x);
    let s2 = s1.update(i, s1.last()).drop_last();
    assert forall|a: int, b: int| 0 <= a < b < s1.len() implies s1[a] != s1[b] by {
        if !s.contains(x) {
            if b == s.len() {
                if s1[a] == s1[b] {
                    assert(s[a] == x);
                }
            }
        }
    }
    if s2.contains(x) {
        let w = choose|w: int| 0 <= w < s2.len() && s2[w] == x;
        if w == i {
            assert(s1[s1.len() - 1] == x);
            if i < s1.len() - 1 {
                assert(false);
            }
        } else {
            assert(s1[w] == x);
            assert(w != i);
            if i < w {
                assert(s1[i] != s1[w]);
            } else {
                assert(s1[w] != s1[i]);
            }
            assert(false);
        }
    }
}

/// Inserting one item never disturbs another: an item other than the inserted
/// one stays exactly as present as it was.
pub proof fn lemma_disk_set_add_other(s: Seq<Seq<u8>>, x: Seq<u8>, y: Seq<u8>)
    requires
        x != y,
    ensures
        spec_add(s, x).contains(y) == s.contains(y),
{
    if !s.contains(x) {
        if s.push(x).contains(y) {
            let w = choose|w: int| 0 <= w < s.push(x).len() && s.push(x)[w] == y;
            assert(w < s.len());
            assert(s[w] == y);
        }
        if s.contains(y) {
            let w = choose|w: int| 0 <= w < s.len() && s[w] == y;
            assert(s.push(x)[w] == y);
        }
    }
}

/// Removing one item never disturbs another: an item other than the removed
/// one stays exactly as present as it was.
pub proof fn lemma_disk_set_remove_other(s: Seq<Seq<u8>>, x: Seq<u8>, y: Seq<u8>)
    requires
        unique_items(s),
        x != y,
    ensures
        spec_remove(s, x).contains(y) == s.contains(y),
{
    if s.contains(x) {
        lemma_item_idx(s, x);
        let i = item_idx(s, x);
        let s2 = s.update(i, s.last()).drop_last();
        if s.contains(y) {
            let w = choose|w: int| 0 <= w < s.len() && s[w] == y;
            if w == s.len() - 1 {
                assert(s[i] == x);
                assert(i != w);
                assert(s2[i] == y);
            } else if w == i {
                assert(false);
            } else {
                assert(s2[w] == y);
            }
            assert(s2.contains(y));
        }
        if s2.contains(y) {
            let w = choose|w: int| 0 <= w < s2.len() && s2[w] == y;
            if w == i {
                assert(s[s.len() - 1] == y);
            } else {
                assert(s[w] == y);
            }
            assert(s.contains(y));
        }
    }
}

} // verus!
