//! An ordered map from byte-string keys, kept as a sorted vector.

use crate::order;
use crate::order::KeyOrder;
use vstd::prelude::*;

verus! {

/// Entries of an ordered map: the keys in lexicographic order and, at the same indices, the
/// values.
#[derive(Debug)]
pub struct KeyMap<V> {
    keys: Vec<Vec<u8>>,
    vals: Vec<V>,
}

/// A mark for a key that has occurred.
#[derive(Debug, Clone, Copy)]
pub struct Seen;

impl View for Seen {
    type V = ();

    open spec fn view(&self) -> () {
        ()
    }
}

/// An end of a range of keys.
#[derive(Debug, Clone)]
pub enum KeyBound {
    Included(Vec<u8>),
    Excluded(Vec<u8>),
    Unbounded,
}

/// What a [`KeyBound`] says.
pub enum BoundView {
    Included(Seq<u8>),
    Excluded(Seq<u8>),
    Unbounded,
}

impl View for KeyBound {
    type V = BoundView;

    open spec fn view(&self) -> BoundView {
        match *self {
            KeyBound::Included(k) => BoundView::Included(k@),
            KeyBound::Excluded(k) => BoundView::Excluded(k@),
            KeyBound::Unbounded => BoundView::Unbounded,
        }
    }
}

/// A key lies between two ends.
pub open spec fn in_range(k: Seq<u8>, lo: BoundView, hi: BoundView) -> bool {
    &&& match lo {
        BoundView::Included(s) => order::key_le(s, k),
        BoundView::Excluded(s) => order::key_lt(s, k),
        BoundView::Unbounded => true,
    }
    &&& match hi {
        BoundView::Included(e) => order::key_le(k, e),
        BoundView::Excluded(e) => order::key_lt(k, e),
        BoundView::Unbounded => true,
    }
}

/// The keys of a set that lie between two ends.
pub open spec fn keys_in_range(keys: Set<Seq<u8>>, lo: BoundView, hi: BoundView) -> Set<Seq<u8>> {
    keys.filter(|k: Seq<u8>| in_range(k, lo, hi))
}

/// The keys of a set with a prefix.
pub open spec fn keys_with_prefix(keys: Set<Seq<u8>>, prefix: Seq<u8>) -> Set<Seq<u8>> {
    keys.filter(|k: Seq<u8>| prefix.is_prefix_of(k))
}

/// The ends of the range of keys with a prefix.
pub open spec fn prefix_range(prefix: Seq<u8>) -> (BoundView, BoundView) {
    (
        BoundView::Included(prefix),
        match order::prefix_successor(prefix) {
            Some(u) => BoundView::Excluded(u),
            None => BoundView::Unbounded,
        },
    )
}

/// The keys with a prefix are those of a range.
pub proof fn lemma_prefix_keys(keys: Set<Seq<u8>>, prefix: Seq<u8>)
    ensures
        keys_with_prefix(keys, prefix) == keys_in_range(
            keys,
            prefix_range(prefix).0,
            prefix_range(prefix).1,
        ),
{
    let (lo, hi) = prefix_range(prefix);
    assert forall|k: Seq<u8>| keys_with_prefix(keys, prefix).contains(k) <==> keys_in_range(
        keys,
        lo,
        hi,
    ).contains(k) by {
        order::lemma_prefix_is_range(prefix, k);
    }
    assert(keys_with_prefix(keys, prefix) =~= keys_in_range(keys, lo, hi));
}

/// The ends of the range of keys with a prefix.
pub fn prefix_bounds(prefix: &[u8]) -> (r: (KeyBound, KeyBound))
    ensures
        (r.0@, r.1@) == prefix_range(prefix@),
{
    let hi = match order::prefix_upper_bound(prefix) {
        Some(u) => KeyBound::Excluded(u),
        None => KeyBound::Unbounded,
    };
    (KeyBound::Included(order::copy_bytes(prefix)), hi)
}

/// The views of a sequence of byte strings.
pub open spec fn byte_strings(v: Seq<Vec<u8>>) -> Seq<Seq<u8>> {
    v.map_values(|k: Vec<u8>| k@)
}

impl<V: View> View for KeyMap<V> {
    type V = Map<Seq<u8>, V::V>;

    closed spec fn view(&self) -> Map<Seq<u8>, V::V> {
        Map::new(
            |k: Seq<u8>| self.key_seq().contains(k),
            |k: Seq<u8>| self.vals@[self.key_seq().index_of(k)]@,
        )
    }
}

impl<V: View> KeyMap<V> {
    /// The keys in order.
    pub closed spec fn key_seq(&self) -> Seq<Seq<u8>> {
        byte_strings(self.keys@)
    }

    /// The values in the order of their keys.
    pub closed spec fn val_seq(&self) -> Seq<V> {
        self.vals@
    }

    /// The keys are strictly sorted, each with one value.
    pub open spec fn wf(&self) -> bool {
        &&& self.key_seq().len() == self.val_seq().len()
        &&& order::strictly_sorted(self.key_seq())
    }

    /// What the map holds, index by index.
    pub proof fn lemma_entries(&self)
        requires
            self.wf(),
        ensures
            self.key_seq().no_duplicates(),
            self@.dom() == self.key_seq().to_set(),
            forall|i: int|
                0 <= i < self.key_seq().len() ==> {
                    &&& self@.dom().contains(#[trigger] self.key_seq()[i])
                    &&& self@[self.key_seq()[i]] == self.val_seq()[i]@
                },
            forall|k: Seq<u8>| #[trigger]
                self@.dom().contains(k) ==> self.key_seq().contains(k),
            order::sorted_keys(self@.dom()) == self.key_seq(),
            self@.dom().finite(),
            self@.dom().len() == self.key_seq().len(),
            self@.dom().len() <= usize::MAX,
    {
        let ks = self.key_seq();
        order::lemma_sorted_distinct(ks);
        assert(self@.dom() =~= ks.to_set());
        order::lemma_sorted_keys(ks, self@.dom());
        ks.unique_seq_to_set();
        assert(self.keys@.len() == self.keys.len());
    }

    /// Makes an empty map.
    pub fn new() -> (r: KeyMap<V>)
        ensures
            r.wf(),
            r@ == Map::<Seq<u8>, V::V>::empty(),
            r.key_seq().len() == 0,
    {
        let r = KeyMap { keys: Vec::new(), vals: Vec::new() };
        assert(r@.dom() =~= Set::<Seq<u8>>::empty());
        assert(r@ =~= Map::<Seq<u8>, V::V>::empty());
        r
    }

    /// The number of keys.
    pub fn len(&self) -> (r: usize)
        requires
            self.wf(),
        ensures
            r == self@.dom().len(),
            r == self.key_seq().len(),
            self@.dom().finite(),
    {
        proof {
            self.lemma_entries();
        }
        self.keys.len()
    }

    /// The first index whose key is not before `key`, and whether the key there is `key`.
    pub fn find(&self, key: &[u8]) -> (r: (bool, usize))
        requires
            self.wf(),
        ensures
            r.1 <= self.key_seq().len(),
            r.0 == self@.dom().contains(key@),
            r.0 ==> r.1 < self.key_seq().len() && self.key_seq()[r.1 as int] == key@,
            forall|i: int|
                0 <= i < r.1 ==> order::key_lt(#[trigger] self.key_seq()[i], key@),
            forall|i: int|
                r.1 <= i < self.key_seq().len() ==> order::key_le(
                    key@,
                    #[trigger] self.key_seq()[i],
                ),
    {
        proof {
            self.lemma_entries();
        }
        let mut lo: usize = 0;
        let mut hi: usize = self.keys.len();
        while lo < hi
            invariant
                self.wf(),
                lo <= hi <= self.key_seq().len(),
                self.keys@.len() == self.key_seq().len(),
                forall|i: int|
                    0 <= i < self.keys@.len() ==> #[trigger] self.key_seq()[i] == self.keys@[i]@,
                forall|i: int|
                    0 <= i < lo ==> order::key_lt(#[trigger] self.key_seq()[i], key@),
                forall|i: int|
                    hi <= i < self.key_seq().len() ==> order::key_lt(
                        key@,
                        #[trigger] self.key_seq()[i],
                    ),
            decreases hi - lo,
        {
            let mid: usize = lo + (hi - lo) / 2;
            match order::compare(self.keys[mid].as_slice(), key) {
                KeyOrder::Less => {
                    assert forall|i: int| 0 <= i < mid + 1 implies order::key_lt(
                        #[trigger] self.key_seq()[i],
                        key@,
                    ) by {
                        if i < mid {
                            assert(order::key_lt(self.key_seq()[i], self.key_seq()[mid as int]));
                            order::lemma_lt_transitive(
                                self.key_seq()[i],
                                self.key_seq()[mid as int],
                                key@,
                            );
                        }
                    }
                    lo = mid + 1;
                },
                KeyOrder::Equal => {
                    proof {
                        assert(self.key_seq()[mid as int] == key@);
                        assert(self.key_seq().to_set().contains(key@));
                    }
                    return (true, mid);
                },
                KeyOrder::Greater => {
                    assert forall|i: int| mid <= i < self.key_seq().len() implies order::key_lt(
                        key@,
                        #[trigger] self.key_seq()[i],
                    ) by {
                        if i > mid {
                            assert(order::key_lt(self.key_seq()[mid as int], self.key_seq()[i]));
                            order::lemma_lt_transitive(
                                key@,
                                self.key_seq()[mid as int],
                                self.key_seq()[i],
                            );
                        }
                    }
                    hi = mid;
                },
            }
        }
        proof {
            if self.key_seq().contains(key@) {
                let i = choose|i: int|
                    0 <= i < self.key_seq().len() && self.key_seq()[i] == key@;
                order::lemma_lt_irreflexive(key@);
                if i < lo {
                    assert(order::key_lt(self.key_seq()[i], key@));
                } else {
                    assert(order::key_lt(key@, self.key_seq()[i]));
                }
            }
        }
        (false, lo)
    }

    /// The indices `r.0 <= i < r.1` whose keys lie between two ends.
    pub fn range(&self, lo: &KeyBound, hi: &KeyBound) -> (r: (usize, usize))
        requires
            self.wf(),
        ensures
            r.0 <= r.1 <= self.key_seq().len(),
            forall|i: int|
                0 <= i < self.key_seq().len() ==> (in_range(
                    #[trigger] self.key_seq()[i],
                    lo@,
                    hi@,
                ) <==> r.0 <= i < r.1),
            order::strictly_sorted(self.key_seq().subrange(r.0 as int, r.1 as int)),
            self.key_seq().subrange(r.0 as int, r.1 as int) == order::sorted_keys(
                keys_in_range(self@.dom(), lo@, hi@),
            ),
    {
        let n: usize = self.len();
        let a: usize = match lo {
            KeyBound::Included(s) => self.find(s.as_slice()).1,
            KeyBound::Excluded(s) => {
                let (found, at) = self.find(s.as_slice());
                if found {
                    at + 1
                } else {
                    at
                }
            },
            KeyBound::Unbounded => 0,
        };
        let b: usize = match hi {
            KeyBound::Included(e) => {
                let (found, at) = self.find(e.as_slice());
                if found {
                    at + 1
                } else {
                    at
                }
            },
            KeyBound::Excluded(e) => self.find(e.as_slice()).1,
            KeyBound::Unbounded => n,
        };
        let ghost ks = self.key_seq();
        proof {
            self.lemma_entries();
            assert forall|i: int| 0 <= i < ks.len() implies (in_range(#[trigger] ks[i], lo@, hi@)
                <==> a <= i < b) by {
                self.lemma_low_end(lo@, a as int, i);
                self.lemma_high_end(hi@, b as int, i);
            }
        }
        let end: usize = if b < a {
            a
        } else {
            b
        };
        proof {
            let part = ks.subrange(a as int, end as int);
            assert forall|i: int, j: int| 0 <= i < j < part.len() implies order::key_lt(
                #[trigger] part[i],
                #[trigger] part[j],
            ) by {
                assert(order::key_lt(ks[a + i], ks[a + j]));
            }
            let set = keys_in_range(self@.dom(), lo@, hi@);
            assert forall|k: Seq<u8>| part.to_set().contains(k) <==> set.contains(k) by {
                if part.contains(k) {
                    let i = choose|i: int| 0 <= i < part.len() && part[i] == k;
                    assert(ks[a + i] == k);
                }
                if set.contains(k) {
                    let i = choose|i: int| 0 <= i < ks.len() && ks[i] == k;
                    assert(ks.contains(k));
                    assert(in_range(ks[i], lo@, hi@));
                    assert(part[i - a] == k);
                }
            }
            assert(part.to_set() =~= set);
            order::lemma_sorted_keys(part, set);
        }
        (a, end)
    }

    proof fn lemma_low_end(&self, lo: BoundView, a: int, i: int)
        requires
            self.wf(),
            0 <= i < self.key_seq().len(),
            match lo {
                BoundView::Included(s) => {
                    &&& forall|j: int|
                        0 <= j < a ==> order::key_lt(#[trigger] self.key_seq()[j], s)
                    &&& forall|j: int|
                        a <= j < self.key_seq().len() ==> order::key_le(
                            s,
                            #[trigger] self.key_seq()[j],
                        )
                },
                BoundView::Excluded(s) => {
                    &&& forall|j: int|
                        0 <= j < a ==> order::key_le(#[trigger] self.key_seq()[j], s)
                    &&& forall|j: int|
                        a <= j < self.key_seq().len() ==> order::key_lt(
                            s,
                            #[trigger] self.key_seq()[j],
                        )
                },
                BoundView::Unbounded => a == 0,
            },
        ensures
            in_range(self.key_seq()[i], lo, BoundView::Unbounded) <==> a <= i,
    {
        let k = self.key_seq()[i];
        match lo {
            BoundView::Included(s) => {
                if i < a {
                    order::lemma_lt_asymmetric(k, s);
                }
            },
            BoundView::Excluded(s) => {
                if i < a && order::key_lt(s, k) {
                    order::lemma_lt_asymmetric(s, k);
                }
            },
            BoundView::Unbounded => {},
        }
    }

    proof fn lemma_high_end(&self, hi: BoundView, b: int, i: int)
        requires
            self.wf(),
            0 <= i < self.key_seq().len(),
            match hi {
                BoundView::Excluded(e) => {
                    &&& forall|j: int|
                        0 <= j < b ==> order::key_lt(#[trigger] self.key_seq()[j], e)
                    &&& forall|j: int|
                        b <= j < self.key_seq().len() ==> order::key_le(
                            e,
                            #[trigger] self.key_seq()[j],
                        )
                },
                BoundView::Included(e) => {
                    &&& forall|j: int|
                        0 <= j < b ==> order::key_le(#[trigger] self.key_seq()[j], e)
                    &&& forall|j: int|
                        b <= j < self.key_seq().len() ==> order::key_lt(
                            e,
                            #[trigger] self.key_seq()[j],
                        )
                },
                BoundView::Unbounded => b == self.key_seq().len(),
            },
        ensures
            in_range(self.key_seq()[i], BoundView::Unbounded, hi) <==> i < b,
    {
        let k = self.key_seq()[i];
        match hi {
            BoundView::Excluded(e) => {
                if b <= i && order::key_lt(k, e) {
                    order::lemma_lt_asymmetric(k, e);
                }
            },
            BoundView::Included(e) => {
                if b <= i {
                    order::lemma_lt_asymmetric(e, k);
                }
            },
            BoundView::Unbounded => {},
        }
    }

    /// The key at index `i`.
    pub fn key_at(&self, i: usize) -> (r: &Vec<u8>)
        requires
            self.wf(),
            i < self.key_seq().len(),
        ensures
            r@ == self.key_seq()[i as int],
    {
        &self.keys[i]
    }

    /// The value at index `i`.
    pub fn val_at(&self, i: usize) -> (r: &V)
        requires
            self.wf(),
            i < self.key_seq().len(),
        ensures
            *r == self.val_seq()[i as int],
    {
        &self.vals[i]
    }

    /// The value at index `i`, to be changed in place.
    pub fn val_mut(&mut self, i: usize) -> (r: &mut V)
        requires
            old(self).wf(),
            i < old(self).key_seq().len(),
        ensures
            *r == old(self).val_seq()[i as int],
            final(self).key_seq() == old(self).key_seq(),
            final(self).val_seq() == old(self).val_seq().update(i as int, *final(r)),
    {
        &mut self.vals[i]
    }

    /// Whether the map holds `key`.
    pub fn contains(&self, key: &[u8]) -> (r: bool)
        requires
            self.wf(),
        ensures
            r == self@.dom().contains(key@),
    {
        self.find(key).0
    }

    /// The value of `key`.
    pub fn get(&self, key: &[u8]) -> (r: Option<&V>)
        requires
            self.wf(),
        ensures
            match r {
                Some(v) => self@.dom().contains(key@) && self@[key@] == v@ && self.val_seq().contains(
                    *v,
                ),
                None => !self@.dom().contains(key@),
            },
    {
        let (found, at) = self.find(key);
        if found {
            proof {
                self.lemma_entries();
                assert(self.key_seq()[at as int] == key@);
            }
            Some(&self.vals[at])
        } else {
            None
        }
    }

    /// Binds `key` to `value`, in place of what it was bound to.
    pub fn insert(&mut self, key: Vec<u8>, value: V)
        requires
            old(self).wf(),
        ensures
            final(self).wf(),
            final(self)@ == old(self)@.insert(key@, value@),
    {
        let (found, at) = self.find(key.as_slice());
        let ghost before = *self;
        proof {
            before.lemma_entries();
        }
        if found {
            self.vals.set(at, value);
            proof {
                self.lemma_entries();
                assert(self.key_seq() == before.key_seq());
                assert(self@ =~= before@.insert(key@, value@));
            }
        } else {
            let ghost k = key@;
            self.keys.insert(at, key);
            self.vals.insert(at, value);
            proof {
                let ks = self.key_seq();
                let bs = before.key_seq();
                assert(ks =~= bs.insert(at as int, k));
                order::lemma_insert_sorted(bs, at as int, k);
                self.lemma_entries();
                assert forall|x: Seq<u8>| self@.dom().contains(x) <==> before@.insert(
                    k,
                    value@,
                ).dom().contains(x) by {
                    if ks.contains(x) {
                        let i = ks.index_of(x);
                        assert(ks[i] == x);
                        if i < at {
                            assert(bs[i] == x);
                        } else if i > at {
                            assert(bs[i - 1] == x);
                        }
                    }
                    if x == k {
                        assert(ks[at as int] == x);
                    } else if bs.contains(x) {
                        let i = bs.index_of(x);
                        assert(bs[i] == x);
                        if i < at {
                            assert(ks[i] == x);
                        } else {
                            assert(ks[i + 1] == x);
                        }
                    }
                }
                assert forall|x: Seq<u8>| self@.dom().contains(x) implies self@[x]
                    == before@.insert(k, value@)[x] by {
                    let i = ks.index_of(x);
                    assert(ks.contains(x));
                    assert(ks[i] == x);
                    assert(self@[ks[i]] == self.val_seq()[i]@);
                    if i < at {
                        assert(before@[bs[i]] == before.val_seq()[i]@);
                    } else if i > at {
                        assert(before@[bs[i - 1]] == before.val_seq()[i - 1]@);
                    }
                }
                assert(self@ =~= before@.insert(k, value@));
            }
        }
    }

    /// Takes `key` and its value out, and says whether it was there.
    pub fn remove(&mut self, key: &[u8]) -> (r: bool)
        requires
            old(self).wf(),
        ensures
            final(self).wf(),
            final(self)@ == old(self)@.remove(key@),
            r == old(self)@.dom().contains(key@),
    {
        let (found, at) = self.find(key);
        let ghost before = *self;
        proof {
            before.lemma_entries();
        }
        if found {
            self.keys.remove(at);
            self.vals.remove(at);
            proof {
                let ks = self.key_seq();
                let bs = before.key_seq();
                assert(ks =~= bs.remove(at as int));
                assert(self.val_seq() =~= before.val_seq().remove(at as int));
                assert forall|i: int, j: int| 0 <= i < j < ks.len() implies order::key_lt(
                    #[trigger] ks[i],
                    #[trigger] ks[j],
                ) by {
                    let i1 = if i < at { i } else { i + 1 };
                    let j1 = if j < at { j } else { j + 1 };
                    assert(order::key_lt(bs[i1], bs[j1]));
                }
                self.lemma_entries();
                assert forall|x: Seq<u8>| self@.dom().contains(x) <==> before@.remove(
                    key@,
                ).dom().contains(x) by {
                    if ks.contains(x) {
                        let i = ks.index_of(x);
                        assert(ks[i] == x);
                        let i1 = if i < at { i } else { i + 1 };
                        assert(bs[i1] == x);
                        assert(bs[i1] != bs[at as int]);
                    }
                    if x != key@ && bs.contains(x) {
                        let i = bs.index_of(x);
                        assert(bs[i] == x);
                        if i < at {
                            assert(ks[i] == x);
                        } else {
                            assert(i > at);
                            assert(ks[i - 1] == x);
                        }
                    }
                }
                assert forall|x: Seq<u8>| self@.dom().contains(x) implies self@[x]
                    == before@.remove(key@)[x] by {
                    let i = ks.index_of(x);
                    assert(ks.contains(x));
                    assert(ks[i] == x);
                    assert(self@[ks[i]] == self.val_seq()[i]@);
                    let i1 = if i < at { i } else { i + 1 };
                    assert(before@[bs[i1]] == before.val_seq()[i1]@);
                }
                assert(self@ =~= before@.remove(key@));
            }
        } else {
            assert(self@ =~= before@.remove(key@));
        }
        found
    }
}

} // verus!
