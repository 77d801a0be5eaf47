//! A fixed-capacity selector that retains the items with the largest keys
//! seen so far, in O(capacity) memory regardless of how many items are
//! offered.

use vstd::prelude::*;

verus! {

use vstd::multiset::Multiset;
use crate::rank::{Keyed, key_seq, key_multiset, is_top_k, sorted_desc, sort_desc};
use crate::rank::{lemma_subset_full, lemma_top_k_merge};

broadcast use {vstd::multiset::group_multiset_axioms, vstd::seq_lib::group_to_multiset_ensures};

/// A bounded selector of the items with the largest keys.
///
/// While an item is offered through `push`, the selector keeps at most
/// `capacity` items; once full, a new item evicts the currently smallest
/// retained key only if the new key is strictly greater.
pub struct BoundedMinHeap<T: Keyed> {
    items: Vec<T>,
    capacity: usize,
    offered: Ghost<Multiset<u64>>,
}

impl<T: Keyed> BoundedMinHeap<T> {
    /// The retained items, in no particular order.
    pub closed spec fn spec_items(&self) -> Seq<T> {
        self.items@
    }

    /// The capacity the selector was created with.
    pub closed spec fn spec_capacity(&self) -> usize {
        self.capacity
    }

    /// The keys of every item ever offered through `push`.
    pub closed spec fn spec_offered(&self) -> Multiset<u64> {
        self.offered@
    }

    /// The retained keys are a largest-possible selection of the offered keys.
    pub open spec fn wf(&self) -> bool {
        is_top_k(
            self.spec_capacity() as nat,
            self.spec_offered(),
            key_multiset(self.spec_items()),
        )
    }

    /// Creates an empty selector with the given capacity.
    pub fn new(capacity: usize) -> (r: Self)
        ensures
            r.wf(),
            r.spec_capacity() == capacity,
            r.spec_offered() =~= Multiset::<u64>::empty(),
            r.spec_items() =~= Seq::<T>::empty(),
    {
        let r = BoundedMinHeap { items: Vec::new(), capacity, offered: Ghost(Multiset::empty()) };
        proof {
            assert(key_seq(r.items@) =~= Seq::<u64>::empty());
            lemma_multiset_of_empty_seq::<u64>(key_seq(r.items@));
        }
        r
    }

    /// The number of retained items.
    pub fn len(&self) -> (n: usize)
        ensures
            n == self.spec_items().len(),
    {
        self.items.len()
    }

    /// Whether no item is retained.
    pub fn is_empty(&self) -> (b: bool)
        ensures
            b == (self.spec_items().len() == 0),
    {
        self.items.len() == 0
    }

    /// The index of a retained item with the smallest key.
    fn min_index(&self) -> (i: usize)
        requires
            self.spec_items().len() > 0,
        ensures
            i < self.spec_items().len(),
            forall|j: int|
                0 <= j < self.spec_items().len()
                    ==> self.spec_items()[j].skey() >= self.spec_items()[i as int].skey(),
    {
        let mut imin: usize = 0;
        let mut best: u64 = self.items[0].key();
        let mut j: usize = 1;
        while j < self.items.len()
            invariant
                0 <= imin < self.items@.len(),
                j <= self.items@.len(),
                best == self.items@[imin as int].skey(),
                forall|t: int| 0 <= t < j ==> self.items@[t].skey() >= best,
            decreases self.items@.len() - j,
        {
            let cand = self.items[j].key();
            if cand < best {
                imin = j;
                best = cand;
            }
            j = j + 1;
        }
        imin
    }

    /// Offers an item. Below capacity it is retained unconditionally; at
    /// capacity it replaces a smallest retained key only if its key is
    /// strictly greater; otherwise it is discarded.
    pub fn push(&mut self, item: T)
        requires
            old(self).wf(),
        ensures
            final(self).wf(),
            final(self).spec_capacity() == old(self).spec_capacity(),
            final(self).spec_offered() =~= old(self).spec_offered().insert(item.skey()),
            final(self).spec_items().to_multiset().subset_of(
                old(self).spec_items().to_multiset().insert(item),
            ),
    {
        let ghost cap = self.capacity as nat;
        let ghost p0 = self.offered@;
        let ghost m0 = key_multiset(self.items@);
        let ghost items0 = self.items@;
        let k = item.key();
        proof {
            assert(key_seq(items0).len() == items0.len());
            assert(m0.len() == items0.len());
        }
        if self.items.len() < self.capacity {
            self.items.push(item);
            self.offered = Ghost(p0.insert(item.skey()));
            proof {
                assert(self.items@.to_multiset() =~= items0.to_multiset().insert(item));
                assert(key_seq(self.items@) =~= key_seq(items0).push(item.skey()));
                let m1 = key_multiset(self.items@);
                assert(m1 =~= m0.insert(item.skey()));
                assert(p0.len() == m0.len());
                lemma_subset_full(m0, p0);
                assert(is_top_k(cap, self.offered@, m1)) by {
                    assert(forall|y: u64| self.offered@.sub(m1).count(y) == 0);
                }
            }
        } else if self.capacity == 0 {
            self.offered = Ghost(p0.insert(item.skey()));
            proof {
                assert(m0.len() == 0);
                assert(forall|x: u64| #![all_triggers] m0.count(x) <= m0.len());
                assert(is_top_k(cap, self.offered@, m0));
            }
        } else {
            let imin = self.min_index();
            let ghost minkey = items0[imin as int].skey();
            proof {
                assert(key_seq(items0)[imin as int] == minkey);
                assert(key_seq(items0).contains(minkey));
                assert(m0.count(minkey) > 0);
                assert(forall|x: u64|
                    #[trigger] m0.count(x) > 0 ==> key_seq(items0).contains(x));
                assert(forall|x: u64| m0.count(x) > 0 ==> x >= minkey) by {
                    assert forall|x: u64| m0.count(x) > 0 implies x >= minkey by {
                        let w = choose|w: int|
                            0 <= w < key_seq(items0).len() && key_seq(items0)[w] == x;
                        assert(items0[w].skey() == x);
                    }
                }
            }
            if k > self.items[imin].key() {
                let evicted = self.items.remove(imin);
                self.items.push(item);
                self.offered = Ghost(p0.insert(item.skey()));
                proof {
                    let mid = items0.remove(imin as int);
                    assert(mid.to_multiset() =~= items0.to_multiset().remove(
                        items0[imin as int],
                    ));
                    assert(self.items@ =~= mid.push(item));
                    assert(self.items@.to_multiset() =~= mid.to_multiset().insert(item));
                    assert(key_seq(mid) =~= key_seq(items0).remove(imin as int));
                    assert(key_seq(mid).to_multiset() =~= m0.remove(minkey));
                    assert(key_seq(self.items@) =~= key_seq(mid).push(item.skey()));
                    let m1 = key_multiset(self.items@);
                    assert(m1 =~= m0.remove(minkey).insert(k));
                    let p1 = self.offered@;
                    assert(m0.len() == cap);
                    assert(p0.len() >= cap);
                    assert(m1.len() == cap);
                    assert(m1.subset_of(p1));
                    assert(p1.sub(m1) =~= p0.sub(m0).insert(minkey));
                    assert forall|x: u64, y: u64|
                        m1.count(x) > 0 && p1.sub(m1).count(y) > 0 implies y <= x by {
                        if x != k {
                            assert(m0.count(x) > 0);
                            assert(x >= minkey);
                        }
                        if y != minkey || p0.sub(m0).count(y) > 0 {
                            assert(p0.sub(m0).count(y) > 0);
                            assert(y <= minkey);
                        }
                    }
                    assert(is_top_k(cap, p1, m1));
                }
            } else {
                self.offered = Ghost(p0.insert(item.skey()));
                proof {
                    let p1 = self.offered@;
                    assert(m0.len() == cap);
                    assert(p1.sub(m0) =~= p0.sub(m0).insert(k));
                    assert forall|x: u64, y: u64|
                        m0.count(x) > 0 && p1.sub(m0).count(y) > 0 implies y <= x by {
                        assert(x >= minkey);
                        if y != k || p0.sub(m0).count(y) > 0 {
                            assert(p0.sub(m0).count(y) > 0);
                            assert(y <= minkey);
                        } else {
                            assert(y == k && k <= minkey);
                        }
                    }
                    assert(is_top_k(cap, p1, m0));
                }
            }
        }
    }

    /// Absorbs every retained item of `other` into this selector. The result
    /// retains a largest-possible selection of everything either selector was
    /// ever offered.
    pub fn absorb(&mut self, other: Self)
        requires
            old(self).wf(),
            other.wf(),
            old(self).spec_capacity() == other.spec_capacity(),
        ensures
            final(self).wf(),
            final(self).spec_capacity() == old(self).spec_capacity(),
            final(self).spec_offered() =~= old(self).spec_offered().add(other.spec_offered()),
            final(self).spec_items().to_multiset().subset_of(
                old(self).spec_items().to_multiset().add(other.spec_items().to_multiset()),
            ),
    {
        broadcast use vstd::seq_lib::lemma_multiset_commutative;

        let ghost cap = self.capacity as nat;
        let ghost p1 = self.offered@;
        let ghost p2 = other.offered@;
        let ghost r2 = key_multiset(other.items@);
        let ghost orig_items = self.items@;
        let ghost other_items = other.items@;
        let mut src = other;
        proof {
            assert(src.items@ =~= other_items.take(src.items@.len() as int));
            assert(other_items.skip(other_items.len() as int)
                =~= Seq::<T>::empty());
            lemma_multiset_of_empty_seq::<T>(other_items.skip(other_items.len() as int));
        }
        loop
            invariant
                self.wf(),
                self.capacity as nat == cap,
                self.spec_offered().add(key_multiset(src.items@)) =~= p1.add(r2),
                src.items@.len() <= other_items.len(),
                src.items@ =~= other_items.take(src.items@.len() as int),
                self.items@.to_multiset().subset_of(
                    orig_items.to_multiset().add(
                        other_items.skip(src.items@.len() as int).to_multiset(),
                    ),
                ),
            ensures
                self.wf(),
                self.capacity as nat == cap,
                self.spec_offered() =~= p1.add(r2),
                self.items@.to_multiset().subset_of(
                    orig_items.to_multiset().add(other_items.to_multiset()),
                ),
            decreases src.items@.len(),
        {
            let ghost s_before = src.items@;
            let ghost k = src.items@.len() as int;
            match src.items.pop() {
                Option::Some(x) => {
                    proof {
                        assert(s_before =~= src.items@.push(x));
                        assert(key_seq(s_before) =~= key_seq(src.items@).push(x.skey()));
                        assert(key_multiset(s_before)
                            =~= key_multiset(src.items@).insert(x.skey()));
                        assert(s_before =~= other_items.take(k));
                        assert(src.items@ =~= s_before.drop_last());
                        assert(other_items.take(k).drop_last() =~= other_items.take(k - 1));
                        assert(src.items@ =~= other_items.take(k - 1));
                        assert(x == s_before.last());
                        assert(other_items.take(k).last() == other_items[k - 1]);
                        assert(x == other_items[k - 1]);
                        assert(other_items.skip(k - 1) =~= seq![x] + other_items.skip(k));
                        assert(seq![x] =~= Seq::<T>::empty().push(x));
                        assert(seq![x].to_multiset() =~= Multiset::<T>::empty().insert(x)) by {
                            lemma_multiset_of_empty_seq::<T>(Seq::<T>::empty());
                        }
                        vstd::seq_lib::lemma_multiset_commutative(seq![x], other_items.skip(k));
                        assert((seq![x] + other_items.skip(k)).to_multiset()
                            =~= seq![x].to_multiset().add(other_items.skip(k).to_multiset()));
                        assert(other_items.skip(k - 1).to_multiset()
                            =~= other_items.skip(k).to_multiset().insert(x));
                    }
                    self.push(x);
                },
                Option::None => {
                    proof {
                        assert(key_seq(src.items@) =~= Seq::<u64>::empty());
                        lemma_multiset_of_empty_seq::<u64>(key_seq(src.items@));
                        assert(self.spec_offered() =~= p1.add(r2));
                        assert(other_items.skip(0) =~= other_items);
                    }
                    break ;
                },
            }
        }
        proof {
            assert(self.spec_offered() =~= p1.add(r2));
            lemma_top_k_merge(cap, p1, p2, r2, key_multiset(self.items@));
            assert(is_top_k(cap, p1.add(p2), key_multiset(self.items@)));
        }
        self.offered = Ghost(p1.add(p2));
    }

    /// Consumes the selector and returns the retained items, largest key
    /// first.
    pub fn into_sorted_vec(self) -> (r: Vec<T>)
        ensures
            sorted_desc(r@),
            r@.to_multiset() =~= self.spec_items().to_multiset(),
            key_multiset(r@) =~= key_multiset(self.spec_items()),
            r@.len() == self.spec_items().len(),
    {
        sort_desc(self.items)
    }
}

/// A sequence of length zero converts to the empty multiset.
proof fn lemma_multiset_of_empty_seq<A>(s: Seq<A>)
    requires
        s.len() == 0,
    ensures
        s.to_multiset() =~= Multiset::<A>::empty(),
{
    s.to_multiset_ensures();
    assert(forall|a: A| #![all_triggers] s.to_multiset().count(a) <= s.to_multiset().len());
}

/// After any sequence of pushes, a well-formed selector retains exactly
/// `min(capacity, number of keys offered)` items, every retained key comes
/// from the offered keys, and every retained key is at least every offered
/// key that was not retained.
pub proof fn lemma_selection_law<T: Keyed>(h: &BoundedMinHeap<T>)
    requires
        h.wf(),
    ensures
        h.spec_items().len() == if h.spec_offered().len() < h.spec_capacity() as nat {
            h.spec_offered().len()
        } else {
            h.spec_capacity() as nat
        },
        key_multiset(h.spec_items()).subset_of(h.spec_offered()),
        forall|x: u64, y: u64|
            key_multiset(h.spec_items()).count(x) > 0
                && h.spec_offered().sub(key_multiset(h.spec_items())).count(y) > 0 ==> y <= x,
{
    broadcast use vstd::seq_lib::group_to_multiset_ensures;

    assert(key_seq(h.spec_items()).len() == h.spec_items().len());
    assert(key_multiset(h.spec_items()).len() == key_seq(h.spec_items()).len());
}

} // verus!
