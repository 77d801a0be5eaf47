//! Ordering of items by an unsigned key, descending sorts, and the `is_top_k`
//! predicate that characterizes a bounded selection of the largest keys.

use vstd::prelude::*;

verus! {

use vstd::multiset::Multiset;

broadcast use {vstd::multiset::group_multiset_axioms, vstd::seq_lib::group_to_multiset_ensures};

/// An item ranked by an unsigned key; selectors and sorts order items by it.
pub trait Keyed: Sized {
    /// The key as specifications see it.
    spec fn skey(&self) -> u64;

    /// The key at run time.
    fn key(&self) -> (k: u64)
        ensures
            k == self.skey(),
    ;
}

impl Keyed for u64 {
    open spec fn skey(&self) -> u64 {
        *self
    }

    fn key(&self) -> (k: u64) {
        *self
    }
}

/// The keys of a sequence of items, in sequence order.
pub open spec fn key_seq<T: Keyed>(s: Seq<T>) -> Seq<u64> {
    s.map_values(|t: T| t.skey())
}

/// The keys of a sequence of items, as a multiset.
pub open spec fn key_multiset<T: Keyed>(s: Seq<T>) -> Multiset<u64> {
    key_seq(s).to_multiset()
}

/// The sequence is sorted by key, largest first.
pub open spec fn sorted_desc<T: Keyed>(s: Seq<T>) -> bool {
    forall|i: int, j: int| 0 <= i < j < s.len() ==> s[i].skey() >= s[j].skey()
}

/// `kept` is a selection of the largest keys of `pushed`: it is contained in
/// `pushed`, it holds `min(k, |pushed|)` keys, and every kept key is at least
/// every discarded key.
pub open spec fn is_top_k(k: nat, pushed: Multiset<u64>, kept: Multiset<u64>) -> bool {
    &&& kept.subset_of(pushed)
    &&& kept.len() == if pushed.len() < k {
        pushed.len()
    } else {
        k
    }
    &&& forall|x: u64, y: u64|
        kept.count(x) > 0 && pushed.sub(kept).count(y) > 0 ==> y <= x
}

/// A multiset contained in another is no longer than it.
pub proof fn lemma_subset_len(a: Multiset<u64>, b: Multiset<u64>)
    requires
        a.subset_of(b),
    ensures
        a.len() <= b.len(),
{
    assert(b.sub(a).len() == b.len() - a.len());
}

/// A multiset contained in another of the same length equals it.
pub proof fn lemma_subset_full(a: Multiset<u64>, b: Multiset<u64>)
    requires
        a.subset_of(b),
        a.len() == b.len(),
    ensures
        a =~= b,
{
    let d = b.sub(a);
    assert(d.len() == 0);
    assert(forall|v: u64| #![all_triggers] d.count(v) <= d.len());
    assert(forall|v: u64| #![all_triggers] b.count(v) == a.count(v) + d.count(v));
}

/// Filtering splits a multiset's length between a predicate and its negation.
pub proof fn lemma_filter_split(
    m: Multiset<u64>,
    p: spec_fn(u64) -> bool,
    q: spec_fn(u64) -> bool,
)
    requires
        forall|v: u64| #[trigger] q(v) == !p(v),
    ensures
        m.filter(p).len() + m.filter(q).len() == m.len(),
{
    assert(m.filter(p).add(m.filter(q)) =~= m);
    assert(m.filter(p).add(m.filter(q)).len() == m.filter(p).len() + m.filter(q).len());
}

/// Re-inserting one selector's survivors into another selector selects the
/// largest keys of the union of everything either selector was offered: the
/// merged result is the true global selection, whatever the split was.
pub proof fn lemma_top_k_merge(
    k: nat,
    p1: Multiset<u64>,
    p2: Multiset<u64>,
    r2: Multiset<u64>,
    rm: Multiset<u64>,
)
    requires
        is_top_k(k, p2, r2),
        is_top_k(k, p1.add(r2), rm),
    ensures
        is_top_k(k, p1.add(p2), rm),
{
    let pu = p1.add(p2);
    let pm = p1.add(r2);
    assert forall|v: u64| rm.count(v) <= pu.count(v) by {
        assert(rm.count(v) <= pm.count(v));
        assert(r2.count(v) <= p2.count(v));
    }
    assert(rm.len() == if pu.len() < k { pu.len() } else { k }) by {
        if p2.len() < k {
            assert(r2.len() == p2.len());
            lemma_subset_full(r2, p2);
        }
    }
    assert forall|x: u64, y: u64|
        rm.count(x) > 0 && pu.sub(rm).count(y) > 0 implies y <= x by {
        if pm.sub(rm).count(y) > 0 {
            assert(y <= x);
        } else {
            assert(pm.count(y) <= rm.count(y));
            assert(p2.count(y) > r2.count(y));
            assert(p2.sub(r2).count(y) > 0);
            if p2.len() < k {
                lemma_subset_full(r2, p2);
                assert(false);
            }
            assert(r2.len() == k);
            if x < y {
                let above = |v: u64| v > x;
                let below = |v: u64| !(v > x);
                assert forall|v: u64| r2.count(v) > 0 implies #[trigger] above(v) by {
                    assert(y <= v);
                }
                assert(r2.filter(above) =~= r2);
                assert forall|v: u64| #[trigger] above(v)
                    implies rm.count(v) >= r2.count(v) by {
                    if pm.sub(rm).count(v) > 0 {
                        assert(v <= x);
                    }
                    assert(pm.count(v) <= rm.count(v));
                    assert(r2.count(v) <= pm.count(v));
                }
                assert(rm.filter(above).len() >= k) by {
                    assert(r2.filter(above).subset_of(rm.filter(above)));
                    lemma_subset_len(r2.filter(above), rm.filter(above));
                }
                assert(rm.filter(below).len() >= 1) by {
                    assert(rm.filter(below).count(x) == rm.count(x));
                }
                lemma_filter_split(rm, above, below);
                assert(rm.len() >= k + 1);
                assert(false);
            }
        }
    }
}

/// The sum of the keys of a sequence of items.
pub open spec fn key_sum<T: Keyed>(s: Seq<T>) -> int
    decreases s.len(),
{
    if s.len() == 0 {
        0
    } else {
        key_sum(s.drop_last()) + s.last().skey()
    }
}

/// Removing one item splits the key sum.
pub proof fn lemma_key_sum_remove<T: Keyed>(s: Seq<T>, i: int)
    requires
        0 <= i < s.len(),
    ensures
        key_sum(s) == key_sum(s.remove(i)) + s[i].skey(),
    decreases s.len(),
{
    if i == s.len() - 1 {
        assert(s.remove(i) =~= s.drop_last());
    } else {
        assert(s.remove(i).drop_last() =~= s.drop_last().remove(i));
        assert(s.remove(i).last() == s.last());
        lemma_key_sum_remove(s.drop_last(), i);
    }
}

/// Sequences with the same items have the same key sum.
pub proof fn lemma_key_sum_permutation<T: Keyed>(s: Seq<T>, t: Seq<T>)
    requires
        s.to_multiset() =~= t.to_multiset(),
    ensures
        key_sum(s) == key_sum(t),
    decreases s.len(),
{
    if s.len() == 0 {
        assert(s.to_multiset().len() == s.len());
        assert(t.to_multiset().len() == t.len());
        assert(t.len() == 0);
    } else {
        let x = s.last();
        assert(s =~= s.drop_last().push(x));
        assert(s.to_multiset() =~= s.drop_last().to_multiset().insert(x));
        assert(t.to_multiset().count(x) > 0);
        assert(t.contains(x));
        let j = choose|j: int| 0 <= j < t.len() && t[j] == x;
        assert(t.remove(j).to_multiset() =~= t.to_multiset().remove(x));
        assert(s.drop_last().to_multiset() =~= t.remove(j).to_multiset());
        lemma_key_sum_permutation(s.drop_last(), t.remove(j));
        lemma_key_sum_remove(t, j);
    }
}

/// Sorts the items largest key first; the result holds exactly the same items.
pub fn sort_desc<T: Keyed>(v: Vec<T>) -> (r: Vec<T>)
    ensures
        sorted_desc(r@),
        r@.to_multiset() =~= v@.to_multiset(),
        key_multiset(r@) =~= key_multiset(v@),
        r@.len() == v@.len(),
{
    let ghost orig = v@;
    let mut rest = v;
    let mut r: Vec<T> = Vec::new();
    proof {
        assert(key_seq(r@) =~= Seq::<u64>::empty());
        assert(r@.to_multiset().add(rest@.to_multiset()) =~= orig.to_multiset());
        assert(key_multiset(r@).add(key_multiset(rest@)) =~= key_multiset(orig));
    }
    while rest.len() > 0
        invariant
            r@.to_multiset().add(rest@.to_multiset()) =~= orig.to_multiset(),
            key_multiset(r@).add(key_multiset(rest@)) =~= key_multiset(orig),
            r@.len() + rest@.len() == orig.len(),
            sorted_desc(r@),
            forall|i: int, j: int|
                0 <= i < r@.len() && 0 <= j < rest@.len() ==> r@[i].skey() >= rest@[j].skey(),
        decreases rest@.len(),
    {
        let mut imax: usize = 0;
        let mut best: u64 = rest[0].key();
        let mut i: usize = 1;
        while i < rest.len()
            invariant
                0 <= imax < rest@.len(),
                i <= rest@.len(),
                best == rest@[imax as int].skey(),
                forall|j: int| 0 <= j < i ==> rest@[j].skey() <= best,
            decreases rest@.len() - i,
        {
            let cand = rest[i].key();
            if cand > best {
                imax = i;
                best = cand;
            }
            i = i + 1;
        }
        let ghost before = rest@;
        let ghost kept = r@;
        let x = rest.remove(imax);
        r.push(x);
        proof {
            assert(rest@ =~= before.remove(imax as int));
            assert(before.remove(imax as int).to_multiset()
                =~= before.to_multiset().remove(before[imax as int]));
            assert(rest@.to_multiset() =~= before.to_multiset().remove(x));
            assert(key_seq(rest@) =~= key_seq(before).remove(imax as int));
            assert(key_seq(before).remove(imax as int).to_multiset()
                =~= key_seq(before).to_multiset().remove(key_seq(before)[imax as int]));
            assert(key_seq(rest@).to_multiset()
                =~= key_seq(before).to_multiset().remove(x.skey()));
            assert(key_seq(r@) =~= key_seq(kept).push(x.skey()));
            assert(r@.to_multiset() =~= kept.to_multiset().insert(x));
            assert(key_seq(r@).to_multiset()
                =~= key_seq(kept).to_multiset().insert(x.skey()));
            assert(r@.to_multiset().add(rest@.to_multiset()) =~= orig.to_multiset());
            assert(key_multiset(r@).add(key_multiset(rest@)) =~= key_multiset(orig));
            assert forall|j: int| 0 <= j < rest@.len()
                implies rest@[j].skey() <= x.skey() by {
                if j < imax {
                    assert(rest@[j] == before[j]);
                } else {
                    assert(rest@[j] == before[j + 1]);
                }
            }
            assert forall|i: int, j: int|
                0 <= i < r@.len() && 0 <= j < rest@.len()
                implies r@[i].skey() >= rest@[j].skey() by {
                assert(rest@[j].skey() <= x.skey());
                if i < kept.len() {
                    let jb: int = if j < imax { j } else { j + 1 };
                    assert(rest@[j] == before[jb]);
                    assert(kept[i].skey() >= before[jb].skey());
                } else {
                    assert(r@[i] == x);
                }
            }
            assert forall|i: int, j: int| 0 <= i < j < r@.len()
                implies r@[i].skey() >= r@[j].skey() by {
                if j < kept.len() {
                } else {
                    assert(r@[j] == x);
                    assert(x == before[imax as int]);
                    if i < kept.len() {
                        assert(kept[i].skey() >= before[imax as int].skey());
                    }
                }
            }
        }
    }
    r
}

} // verus!
