//! The single-pass collector: one traversal of the file-record stream
//! categorizes every record, tracks the largest files, and accumulates
//! per-directory byte totals, all at once. A ghost history of the processed
//! records ties every table to the stream it came from.

use vstd::prelude::*;

verus! {

use vstd::multiset::Multiset;
use vstd::pervasive::VecAdditionalExecFns;
use crate::bounded_heap::BoundedMinHeap;
use crate::categorize::{Categorizer, same_strategy};
use crate::path_pool::{PathPool, pool_has, pool_index_of};
use crate::rank::{key_multiset, key_sum, is_top_k, sorted_desc, sort_desc};
use crate::rank::lemma_key_sum_permutation;
use crate::text::{parent_view, parent_dir};
use crate::types::{Bucket, DirEntry, FileEntry, FileMetadata, FileMetadataView};

broadcast use {vstd::multiset::group_multiset_axioms, vstd::seq_lib::group_to_multiset_ensures};

/// The sum of the sizes of the records.
pub open spec fn total_size(recs: Seq<FileMetadataView>) -> int
    decreases recs.len(),
{
    if recs.len() == 0 {
        0
    } else {
        total_size(recs.drop_last()) + recs.last().size
    }
}

/// The bytes of the records that the strategy puts under `key`.
pub open spec fn cat_bytes<C: Categorizer>(
    c: C,
    recs: Seq<FileMetadataView>,
    key: Seq<char>,
) -> int
    decreases recs.len(),
{
    if recs.len() == 0 {
        0
    } else {
        cat_bytes(c, recs.drop_last(), key) + if c.spec_categorize(recs.last()) == key {
            recs.last().size as int
        } else {
            0
        }
    }
}

/// The number of records that the strategy puts under `key`.
pub open spec fn cat_count<C: Categorizer>(
    c: C,
    recs: Seq<FileMetadataView>,
    key: Seq<char>,
) -> int
    decreases recs.len(),
{
    if recs.len() == 0 {
        0
    } else {
        cat_count(c, recs.drop_last(), key) + if c.spec_categorize(recs.last()) == key {
            1int
        } else {
            0
        }
    }
}

/// The bytes of the records whose parent directory is `d`.
pub open spec fn dir_bytes(recs: Seq<FileMetadataView>, d: Seq<char>) -> int
    decreases recs.len(),
{
    if recs.len() == 0 {
        0
    } else {
        dir_bytes(recs.drop_last(), d) + if parent_view(recs.last().path) == Option::Some(d) {
            recs.last().size as int
        } else {
            0
        }
    }
}

/// The sizes of the records, in stream order.
pub open spec fn size_seq(recs: Seq<FileMetadataView>) -> Seq<u64> {
    recs.map_values(|r: FileMetadataView| r.size)
}

/// One category's running totals.
pub struct CatStat {
    pub key: String,
    pub bytes: u64,
    pub count: u64,
}

/// The category table as specifications see it.
pub open spec fn stat_view(s: Seq<CatStat>) -> Seq<(Seq<char>, u64, u64)> {
    s.map_values(|t: CatStat| (t.key@, t.bytes, t.count))
}

/// The bytes recorded for a key; 0 for a key without an entry.
pub open spec fn stat_bytes_of(v: Seq<(Seq<char>, u64, u64)>, k: Seq<char>) -> int
    decreases v.len(),
{
    if v.len() == 0 {
        0
    } else if v.last().0 == k {
        v.last().1 as int
    } else {
        stat_bytes_of(v.drop_last(), k)
    }
}

/// The count recorded for a key; 0 for a key without an entry.
pub open spec fn stat_count_of(v: Seq<(Seq<char>, u64, u64)>, k: Seq<char>) -> int
    decreases v.len(),
{
    if v.len() == 0 {
        0
    } else if v.last().0 == k {
        v.last().2 as int
    } else {
        stat_count_of(v.drop_last(), k)
    }
}

/// No two entries share a key.
pub open spec fn stat_keys_distinct(v: Seq<(Seq<char>, u64, u64)>) -> bool {
    forall|i: int, j: int| 0 <= i < j < v.len() ==> v[i].0 != v[j].0
}

/// Some entry has the key.
pub open spec fn stat_has_key(v: Seq<(Seq<char>, u64, u64)>, k: Seq<char>) -> bool {
    exists|i: int| 0 <= i < v.len() && v[i].0 == k
}

/// The sum of the bytes over all entries.
pub open spec fn stat_sum(v: Seq<(Seq<char>, u64, u64)>) -> int
    decreases v.len(),
{
    if v.len() == 0 {
        0
    } else {
        stat_sum(v.drop_last()) + v.last().1
    }
}

/// A key without an entry has zero recorded bytes and count.
pub proof fn lemma_stat_missing(v: Seq<(Seq<char>, u64, u64)>, k: Seq<char>)
    requires
        !stat_has_key(v, k),
    ensures
        stat_bytes_of(v, k) == 0,
        stat_count_of(v, k) == 0,
    decreases v.len(),
{
    if v.len() > 0 {
        assert(v.last().0 != k) by {
            assert(v[v.len() - 1] == v.last());
        }
        assert(!stat_has_key(v.drop_last(), k)) by {
            if stat_has_key(v.drop_last(), k) {
                let i = choose|i: int|
                    0 <= i < v.drop_last().len() && #[trigger] v.drop_last()[i].0 == k;
                assert(v[i].0 == k);
            }
        }
        lemma_stat_missing(v.drop_last(), k);
    }
}

/// An entry's recorded totals are what the table reports for its key, when
/// keys are distinct.
pub proof fn lemma_stat_at(v: Seq<(Seq<char>, u64, u64)>, i: int)
    requires
        stat_keys_distinct(v),
        0 <= i < v.len(),
    ensures
        stat_bytes_of(v, v[i].0) == v[i].1,
        stat_count_of(v, v[i].0) == v[i].2,
    decreases v.len(),
{
    if i == v.len() - 1 {
        assert(v.last() == v[i]);
    } else {
        assert(v.last().0 != v[i].0);
        assert(v.drop_last()[i] == v[i]);
        lemma_stat_at(v.drop_last(), i);
    }
}

/// Updating one entry's totals changes the report for its key alone.
pub proof fn lemma_stat_update(v: Seq<(Seq<char>, u64, u64)>, i: int, b: u64, ct: u64)
    requires
        stat_keys_distinct(v),
        0 <= i < v.len(),
    ensures
        forall|k: Seq<char>|
            #[trigger] stat_bytes_of(v.update(i, (v[i].0, b, ct)), k) == if k == v[i].0 {
                b as int
            } else {
                stat_bytes_of(v, k)
            },
        forall|k: Seq<char>|
            #[trigger] stat_count_of(v.update(i, (v[i].0, b, ct)), k) == if k == v[i].0 {
                ct as int
            } else {
                stat_count_of(v, k)
            },
    decreases v.len(),
{
    let w = v.update(i, (v[i].0, b, ct));
    if i == v.len() - 1 {
        assert(w.drop_last() =~= v.drop_last());
        assert(w.last() == (v[i].0, b, ct));
        assert forall|k: Seq<char>| true implies #[trigger] stat_bytes_of(w, k) == (if k == v[
            i
        ].0 {
            b as int
        } else {
            stat_bytes_of(v, k)
        }) by {
            if k != v[i].0 {
                assert(v.last().0 != k ==> stat_bytes_of(v, k) == stat_bytes_of(
                    v.drop_last(),
                    k,
                ));
                assert(v.last().0 == v[i].0);
            }
        }
        assert forall|k: Seq<char>| true implies #[trigger] stat_count_of(w, k) == (if k == v[
            i
        ].0 {
            ct as int
        } else {
            stat_count_of(v, k)
        }) by {
            if k != v[i].0 {
                assert(v.last().0 == v[i].0);
            }
        }
    } else {
        assert(w.drop_last() =~= v.drop_last().update(i, (v[i].0, b, ct)));
        assert(w.last() == v.last());
        assert(v.drop_last()[i] == v[i]);
        assert(stat_keys_distinct(v.drop_last())) by {
            assert(forall|a: int, bq: int|
                0 <= a < bq < v.drop_last().len() ==> v.drop_last()[a] == v[a]
                    && v.drop_last()[bq] == v[bq]);
        }
        lemma_stat_update(v.drop_last(), i, b, ct);
        assert(v.last().0 != v[i].0);
        assert forall|k: Seq<char>| true implies #[trigger] stat_bytes_of(w, k) == (if k == v[
            i
        ].0 {
            b as int
        } else {
            stat_bytes_of(v, k)
        }) by {
            assert(stat_bytes_of(v.drop_last().update(i, (v[i].0, b, ct)), k) == if k == v[
                i
            ].0 {
                b as int
            } else {
                stat_bytes_of(v.drop_last(), k)
            });
        }
        assert forall|k: Seq<char>| true implies #[trigger] stat_count_of(w, k) == (if k == v[
            i
        ].0 {
            ct as int
        } else {
            stat_count_of(v, k)
        }) by {
            assert(stat_count_of(v.drop_last().update(i, (v[i].0, b, ct)), k) == if k == v[
                i
            ].0 {
                ct as int
            } else {
                stat_count_of(v.drop_last(), k)
            });
        }
    }
}

/// Updating one entry's bytes moves the sum by the difference.
pub proof fn lemma_stat_sum_update(v: Seq<(Seq<char>, u64, u64)>, i: int, b: u64, ct: u64)
    requires
        0 <= i < v.len(),
    ensures
        stat_sum(v.update(i, (v[i].0, b, ct))) == stat_sum(v) - v[i].1 + b,
    decreases v.len(),
{
    let w = v.update(i, (v[i].0, b, ct));
    if i == v.len() - 1 {
        assert(w.drop_last() =~= v.drop_last());
    } else {
        assert(w.drop_last() =~= v.drop_last().update(i, (v[i].0, b, ct)));
        assert(w.last() == v.last());
        assert(v.drop_last()[i] == v[i]);
        lemma_stat_sum_update(v.drop_last(), i, b, ct);
    }
}

/// Category totals are nonnegative and bounded by the stream totals.
pub proof fn lemma_cat_bounds<C: Categorizer>(c: C, recs: Seq<FileMetadataView>, k: Seq<char>)
    ensures
        0 <= cat_bytes(c, recs, k) <= total_size(recs),
        0 <= cat_count(c, recs, k) <= recs.len(),
        0 <= dir_bytes(recs, k) <= total_size(recs),
        total_size(recs) >= 0,
    decreases recs.len(),
{
    if recs.len() > 0 {
        lemma_cat_bounds(c, recs.drop_last(), k);
    }
}

/// Category and directory totals split over concatenation, in either order:
/// processing two streams separately and summing equals processing their
/// concatenation.
pub proof fn lemma_concat_totals<C: Categorizer>(
    c: C,
    s1: Seq<FileMetadataView>,
    s2: Seq<FileMetadataView>,
    k: Seq<char>,
)
    ensures
        cat_bytes(c, s1 + s2, k) == cat_bytes(c, s1, k) + cat_bytes(c, s2, k),
        cat_count(c, s1 + s2, k) == cat_count(c, s1, k) + cat_count(c, s2, k),
        dir_bytes(s1 + s2, k) == dir_bytes(s1, k) + dir_bytes(s2, k),
        total_size(s1 + s2) == total_size(s1) + total_size(s2),
    decreases s2.len(),
{
    if s2.len() == 0 {
        assert(s1 + s2 =~= s1);
    } else {
        assert(s1 + s2 =~= (s1 + s2.drop_last()).push(s2.last()));
        assert((s1 + s2.drop_last()).push(s2.last()).drop_last() =~= s1 + s2.drop_last());
        lemma_concat_totals(c, s1, s2.drop_last(), k);
    }
}

/// Equivalent strategies give equal category totals.
pub proof fn lemma_cat_equiv<C: Categorizer>(
    c1: C,
    c2: C,
    recs: Seq<FileMetadataView>,
    k: Seq<char>,
)
    requires
        same_strategy(c1, c2),
    ensures
        cat_bytes(c1, recs, k) == cat_bytes(c2, recs, k),
        cat_count(c1, recs, k) == cat_count(c2, recs, k),
    decreases recs.len(),
{
    if recs.len() > 0 {
        lemma_cat_equiv(c1, c2, recs.drop_last(), k);
        assert(c1.spec_categorize(recs.last()) == c2.spec_categorize(recs.last()));
    }
}

/// An entry reported by the largest-files selector matches a processed
/// record's path and size.
pub open spec fn entry_from_records(recs: Seq<FileMetadataView>, e: FileEntry) -> bool {
    exists|j: int| 0 <= j < recs.len() && recs[j].path == e.path@ && recs[j].size == e.bytes
}

/// The results of one finalized collection pass.
pub struct CollectionResults {
    pub buckets: Vec<Bucket>,
    pub top_files: Vec<FileEntry>,
    pub top_dirs: Vec<DirEntry>,
}

/// The single-pass collector: categorizes each record, tracks the largest
/// files in a bounded selector, and accumulates per-directory byte totals
/// through interned path identifiers.
pub struct SinglePassCollector<C: Categorizer> {
    categorizer: C,
    cats: Vec<CatStat>,
    top_files_heap: BoundedMinHeap<FileEntry>,
    dir_acc: Vec<u64>,
    path_pool: PathPool,
    top_n: usize,
    collect_tops: bool,
    bytes_seen: u64,
    count_seen: u64,
    processed: Ghost<Seq<FileMetadataView>>,
}

impl<C: Categorizer> SinglePassCollector<C> {
    /// The records processed so far, in stream order.
    pub closed spec fn spec_processed(&self) -> Seq<FileMetadataView> {
        self.processed@
    }

    /// The categorization strategy.
    pub closed spec fn spec_categorizer(&self) -> C {
        self.categorizer
    }

    /// The category table.
    pub closed spec fn spec_stats(&self) -> Seq<(Seq<char>, u64, u64)> {
        stat_view(self.cats@)
    }

    /// The capacity of the largest-file and largest-directory selectors.
    pub closed spec fn spec_top_n(&self) -> usize {
        self.top_n
    }

    /// Whether the pass tracks largest files and directories at all.
    pub closed spec fn spec_collect_tops(&self) -> bool {
        self.collect_tops
    }

    /// The largest-files selector.
    pub closed spec fn spec_heap(&self) -> BoundedMinHeap<FileEntry> {
        self.top_files_heap
    }

    /// The interned directory paths.
    pub closed spec fn spec_pool_paths(&self) -> Seq<Seq<char>> {
        self.path_pool.spec_paths()
    }

    /// The per-directory byte totals, indexed by interned identifier.
    pub closed spec fn spec_dir_acc(&self) -> Seq<u64> {
        self.dir_acc@
    }

    /// The running byte counter.
    pub closed spec fn spec_bytes_seen(&self) -> u64 {
        self.bytes_seen
    }

    /// The running record counter.
    pub closed spec fn spec_count_seen(&self) -> u64 {
        self.count_seen
    }

    /// Every table reflects exactly the records processed so far.
    pub open spec fn wf(&self) -> bool {
        &&& self.spec_categorizer().inv()
        &&& stat_keys_distinct(self.spec_stats())
        &&& forall|k: Seq<char>|
            #[trigger] stat_bytes_of(self.spec_stats(), k) == cat_bytes(
                self.spec_categorizer(),
                self.spec_processed(),
                k,
            )
        &&& forall|k: Seq<char>|
            #[trigger] stat_count_of(self.spec_stats(), k) == cat_count(
                self.spec_categorizer(),
                self.spec_processed(),
                k,
            )
        &&& stat_sum(self.spec_stats()) == total_size(self.spec_processed())
        &&& self.spec_bytes_seen() == total_size(self.spec_processed())
        &&& self.spec_count_seen() == self.spec_processed().len()
        &&& self.spec_collect_tops() ==> {
            &&& self.spec_heap().wf()
            &&& self.spec_heap().spec_capacity() == self.spec_top_n()
            &&& self.spec_heap().spec_offered() == size_seq(self.spec_processed()).to_multiset()
            &&& forall|e: FileEntry|
                self.spec_heap().spec_items().to_multiset().count(e) > 0
                    ==> entry_from_records(self.spec_processed(), e)
            &&& crate::path_pool::paths_distinct(self.spec_pool_paths())
            &&& self.spec_dir_acc().len() == self.spec_pool_paths().len()
            &&& self.spec_pool_paths().len() <= self.spec_processed().len()
            &&& forall|d: Seq<char>|
                #[trigger] dir_total_of(self.spec_pool_paths(), self.spec_dir_acc(), d)
                    == dir_bytes(self.spec_processed(), d)
        }
        &&& !self.spec_collect_tops() ==> {
            &&& self.spec_heap().spec_items().len() == 0
            &&& self.spec_dir_acc().len() == 0
            &&& self.spec_pool_paths().len() == 0
        }
    }

    /// The bytes of all records processed so far.
    pub fn processed_bytes(&self) -> (b: u64)
        requires
            self.wf(),
        ensures
            b == total_size(self.spec_processed()),
    {
        self.bytes_seen
    }

    /// The number of records processed so far.
    pub fn processed_count(&self) -> (n: u64)
        requires
            self.wf(),
        ensures
            n == self.spec_processed().len(),
    {
        self.count_seen
    }

    /// Creates a collector that has processed nothing.
    pub fn new(categorizer: C, top_n: usize, should_collect_tops: bool) -> (r: Self)
        requires
            categorizer.inv(),
        ensures
            r.wf(),
            r.spec_processed() =~= Seq::<FileMetadataView>::empty(),
            r.spec_categorizer() == categorizer,
            r.spec_top_n() == top_n,
            r.spec_collect_tops() == should_collect_tops,
    {
        let r = SinglePassCollector {
            categorizer,
            cats: Vec::new(),
            top_files_heap: BoundedMinHeap::new(top_n),
            dir_acc: Vec::new(),
            path_pool: PathPool::new(),
            top_n,
            collect_tops: should_collect_tops,
            bytes_seen: 0,
            count_seen: 0,
            processed: Ghost(Seq::empty()),
        };
        proof {
            assert(r.spec_stats() =~= Seq::<(Seq<char>, u64, u64)>::empty());
            assert(size_seq(r.spec_processed()) =~= Seq::<u64>::empty());
            assert(size_seq(r.spec_processed()).to_multiset() =~= Multiset::<u64>::empty())
                by {
                assert(size_seq(r.spec_processed()).to_multiset().len() == 0);
                assert(forall|v: u64| #![all_triggers]
                    size_seq(r.spec_processed()).to_multiset().count(v)
                        <= size_seq(r.spec_processed()).to_multiset().len());
            }
            assert forall|d: Seq<char>|
                #[trigger] dir_total_of(r.spec_pool_paths(), r.spec_dir_acc(), d) == dir_bytes(
                    r.spec_processed(),
                    d,
                ) by {
                if pool_has(r.spec_pool_paths(), d) {
                    let i = choose|i: int|
                        0 <= i < r.spec_pool_paths().len() && #[trigger] r.spec_pool_paths()[i]
                            == d;
                }
            }
        }
        r
    }

    /// Finds the entry of a key in the category table.
    fn find_stat(cats: &Vec<CatStat>, key: &String) -> (r: usize)
        ensures
            r <= cats@.len(),
            r < cats@.len() ==> stat_view(cats@)[r as int].0 == key@,
            r == cats@.len() ==> !stat_has_key(stat_view(cats@), key@),
    {
        let n = cats.len();
        let mut i: usize = 0;
        while i < n
            invariant
                0 <= i <= n,
                n == cats@.len(),
                forall|j: int| 0 <= j < i ==> stat_view(cats@)[j].0 != key@,
            decreases n - i,
        {
            if cats[i].key == *key {
                proof {
                    assert(stat_view(cats@)[i as int].0 == key@);
                }
                return i;
            }
            proof {
                assert(stat_view(cats@)[i as int].0 != key@);
            }
            i = i + 1;
        }
        proof {
            if stat_has_key(stat_view(cats@), key@) {
                let j = choose|j: int|
                    0 <= j < stat_view(cats@).len() && #[trigger] stat_view(cats@)[j].0 == key@;
                assert(false);
            }
        }
        n
    }

    /// Processes one record: its bytes and count go to its category, and,
    /// when tops are collected, the record is offered to the largest-files
    /// selector and its size is added to its parent directory's total.
    pub fn process_file(&mut self, rec: FileMetadata)
        requires
            old(self).wf(),
            total_size(old(self).spec_processed()) + rec.size <= u64::MAX,
            old(self).spec_processed().len() < u32::MAX,
        ensures
            final(self).wf(),
            final(self).spec_processed() =~= old(self).spec_processed().push(rec@),
            final(self).spec_categorizer() == old(self).spec_categorizer(),
            final(self).spec_top_n() == old(self).spec_top_n(),
            final(self).spec_collect_tops() == old(self).spec_collect_tops(),
    {
        let ghost recs0 = self.processed@;
        let ghost recs1 = recs0.push(rec@);
        let ghost c = self.categorizer;
        let size = rec.size;
        proof {
            assert(recs1.drop_last() =~= recs0);
            assert(recs1.last() == rec@);
            lemma_cat_bounds(c, recs0, Seq::<char>::empty());
        }
        let key = self.categorizer.categorize(&rec);
        let idx = Self::find_stat(&self.cats, &key);
        let ghost v0 = stat_view(self.cats@);
        if idx < self.cats.len() {
            let k2 = self.cats[idx].key.clone();
            let b = self.cats[idx].bytes;
            let ct = self.cats[idx].count;
            proof {
                lemma_stat_at(v0, idx as int);
                lemma_cat_bounds(c, recs0, key@);
                assert(b == cat_bytes(c, recs0, key@));
                assert(ct == cat_count(c, recs0, key@));
                assert(ct < u32::MAX);
            }
            self.cats.set(idx, CatStat { key: k2, bytes: b + size, count: ct + 1 });
            proof {
                assert(stat_view(self.cats@) =~= v0.update(
                    idx as int,
                    (v0[idx as int].0, (b + size) as u64, (ct + 1) as u64),
                ));
                lemma_stat_update(v0, idx as int, (b + size) as u64, (ct + 1) as u64);
                lemma_stat_sum_update(v0, idx as int, (b + size) as u64, (ct + 1) as u64);
                assert(v0[idx as int].0 == key@);
                assert forall|k: Seq<char>|
                    #[trigger] stat_bytes_of(stat_view(self.cats@), k) == (if k == key@ {
                        (b + size) as int
                    } else {
                        stat_bytes_of(v0, k)
                    }) by {
                    assert(stat_bytes_of(
                        v0.update(idx as int, (v0[idx as int].0, (b + size) as u64, (ct
                            + 1) as u64)),
                        k,
                    ) == if k == v0[idx as int].0 {
                        (b + size) as int
                    } else {
                        stat_bytes_of(v0, k)
                    });
                }
                assert forall|k: Seq<char>|
                    #[trigger] stat_count_of(stat_view(self.cats@), k) == (if k == key@ {
                        (ct + 1) as int
                    } else {
                        stat_count_of(v0, k)
                    }) by {
                    assert(stat_count_of(
                        v0.update(idx as int, (v0[idx as int].0, (b + size) as u64, (ct
                            + 1) as u64)),
                        k,
                    ) == if k == v0[idx as int].0 {
                        (ct + 1) as int
                    } else {
                        stat_count_of(v0, k)
                    });
                }
                assert(stat_keys_distinct(stat_view(self.cats@))) by {
                    assert(forall|a: int, bq: int|
                        0 <= a < bq < v0.len() ==> stat_view(self.cats@)[a].0 == v0[a].0
                            && stat_view(self.cats@)[bq].0 == v0[bq].0);
                }
            }
        } else {
            proof {
                lemma_stat_missing(v0, key@);
            }
            self.cats.push(CatStat { key, bytes: size, count: 1 });
            proof {
                assert(stat_view(self.cats@) =~= v0.push((key@, size, 1u64)));
                assert(stat_view(self.cats@).drop_last() =~= v0);
                assert(stat_view(self.cats@).last() == (key@, size, 1u64));
                assert forall|k: Seq<char>|
                    #[trigger] stat_bytes_of(stat_view(self.cats@), k) == (if k == key@ {
                        size as int
                    } else {
                        stat_bytes_of(v0, k)
                    }) by {}
                assert forall|k: Seq<char>|
                    #[trigger] stat_count_of(stat_view(self.cats@), k) == (if k == key@ {
                        1int
                    } else {
                        stat_count_of(v0, k)
                    }) by {}
                assert(stat_sum(stat_view(self.cats@)) == stat_sum(v0) + size);
                assert(stat_keys_distinct(stat_view(self.cats@))) by {
                    assert(forall|a: int|
                        0 <= a < v0.len() ==> stat_view(self.cats@)[a].0 == v0[a].0);
                    assert(stat_view(self.cats@).last().0 == key@);
                    assert(forall|a: int| 0 <= a < v0.len() ==> v0[a].0 != key@);
                }
            }
        }
        proof {
            assert forall|k: Seq<char>| #[trigger] cat_bytes(c, recs1, k) == cat_bytes(
                c,
                recs0,
                k,
            ) + (if c.spec_categorize(rec@) == k {
                rec@.size as int
            } else {
                0
            }) by {}
            assert forall|k: Seq<char>| #[trigger] cat_count(c, recs1, k) == cat_count(
                c,
                recs0,
                k,
            ) + (if c.spec_categorize(rec@) == k {
                1int
            } else {
                0
            }) by {}
            assert(total_size(recs1) == total_size(recs0) + size);
        }
        self.bytes_seen = self.bytes_seen + size;
        self.count_seen = self.count_seen + 1;
        if self.collect_tops {
            let ghost heap0 = self.top_files_heap;
            self.top_files_heap.push(FileEntry { path: rec.path.clone(), bytes: size });
            proof {
                assert(size_seq(recs1) =~= size_seq(recs0).push(size));
                assert(size_seq(recs1).to_multiset() =~= size_seq(
                    recs0,
                ).to_multiset().insert(size));
                assert forall|e: FileEntry|
                    self.top_files_heap.spec_items().to_multiset().count(e) > 0
                    implies entry_from_records(recs1, e) by {
                    let items0 = heap0.spec_items().to_multiset();
                    if items0.count(e) > 0 {
                        assert(entry_from_records(recs0, e));
                        let j = choose|j: int|
                            0 <= j < recs0.len() && recs0[j].path == e.path@ && recs0[j].size
                                == e.bytes;
                        assert(recs1[j] == recs0[j]);
                    } else {
                        assert(e.path@ == rec@.path && e.bytes == rec@.size);
                        assert(recs1[recs0.len() as int] == rec@);
                    }
                }
            }
            let ghost paths0 = self.path_pool.spec_paths();
            let ghost acc0 = self.dir_acc@;
            match parent_dir(&rec.path) {
                Option::Some(p) => {
                    proof {
                        assert(parent_view(rec@.path) == Option::Some(p@));
                    }
                    let id = self.path_pool.intern(&p);
                    if (id as usize) < self.dir_acc.len() {
                        proof {
                            assert(pool_has(paths0, p@));
                            assert(self.path_pool.spec_paths() == paths0);
                            assert(paths0[id as int] == p@);
                            assert(dir_total_of(paths0, acc0, p@) == acc0[id as int]) by {
                                let w = pool_index_of(paths0, p@);
                                if w != id as int {
                                    assert(paths0[w] == paths0[id as int]);
                                }
                            }
                            lemma_cat_bounds(c, recs0, p@);
                            assert(acc0[id as int] == dir_bytes(recs0, p@));
                        }
                        let cur = self.dir_acc[id as usize];
                        self.dir_acc.set(id as usize, cur + size);
                        proof {
                            lemma_dir_add(paths0, acc0, self.dir_acc@, id as int, size);
                            assert forall|d: Seq<char>|
                                #[trigger] dir_total_of(paths0, self.dir_acc@, d) == dir_bytes(
                                recs1,
                                d,
                            ) by {
                                assert(dir_bytes(recs1, d) == dir_bytes(recs0, d) + (
                                if parent_view(rec@.path) == Option::Some(d) {
                                    rec@.size as int
                                } else {
                                    0
                                }));
                            }
                        }
                    } else {
                        proof {
                            assert(!pool_has(paths0, p@)) by {
                                if pool_has(paths0, p@) {
                                    let w = pool_index_of(paths0, p@);
                                    assert(paths0[w] == p@);
                                    assert(id as int == w);
                                }
                            }
                            assert(self.path_pool.spec_paths() =~= paths0.push(p@));
                            assert(id as int == paths0.len());
                        }
                        self.dir_acc.push(size);
                        proof {
                            lemma_dir_push(paths0, acc0, p@, size);
                            assert(self.dir_acc@ =~= acc0.push(size));
                            assert forall|d: Seq<char>|
                                #[trigger] dir_total_of(
                                self.spec_pool_paths(),
                                self.dir_acc@,
                                d,
                            ) == dir_bytes(recs1, d) by {
                                assert(dir_total_of(paths0.push(p@), acc0.push(size), d)
                                    == dir_total_of(paths0, acc0, d) + (if d == p@ {
                                    size as int
                                } else {
                                    0
                                }));
                                assert(dir_bytes(recs1, d) == dir_bytes(recs0, d) + (
                                if parent_view(rec@.path) == Option::Some(d) {
                                    rec@.size as int
                                } else {
                                    0
                                }));
                            }
                        }
                    }
                },
                Option::None => {
                    proof {
                        assert(parent_view(rec@.path) is None);
                        assert forall|d: Seq<char>| #[trigger] dir_bytes(recs1, d) == dir_bytes(
                            recs0,
                            d,
                        ) by {}
                    }
                },
            }
        }
        self.processed = Ghost(recs1);
        proof {
            assert(self.spec_categorizer().inv());
            assert(stat_keys_distinct(self.spec_stats()));
            assert forall|k: Seq<char>|
                #[trigger] stat_bytes_of(self.spec_stats(), k) == cat_bytes(
                self.spec_categorizer(),
                self.spec_processed(),
                k,
            ) by {
                assert(stat_bytes_of(stat_view(self.cats@), k) == if k == key@ {
                    cat_bytes(c, recs0, k) + size as int
                } else {
                    cat_bytes(c, recs0, k)
                });
                assert(cat_bytes(c, recs1, k) == cat_bytes(c, recs0, k) + (if c.spec_categorize(
                    rec@,
                ) == k {
                    rec@.size as int
                } else {
                    0
                }));
            }
            assert forall|k: Seq<char>|
                #[trigger] stat_count_of(self.spec_stats(), k) == cat_count(
                self.spec_categorizer(),
                self.spec_processed(),
                k,
            ) by {
                assert(stat_count_of(stat_view(self.cats@), k) == if k == key@ {
                    cat_count(c, recs0, k) + 1
                } else {
                    cat_count(c, recs0, k)
                });
                assert(cat_count(c, recs1, k) == cat_count(c, recs0, k) + (if c.spec_categorize(
                    rec@,
                ) == k {
                    1int
                } else {
                    0
                }));
            }
            assert(stat_sum(self.spec_stats()) == total_size(self.spec_processed()));
            assert(self.spec_bytes_seen() == total_size(self.spec_processed()));
            assert(self.spec_count_seen() == self.spec_processed().len());
            if self.spec_collect_tops() {
                assert(self.spec_heap().wf());
                assert(self.spec_heap().spec_capacity() == self.spec_top_n());
                assert(self.spec_heap().spec_offered() == size_seq(
                    self.spec_processed(),
                ).to_multiset());
                assert(forall|e: FileEntry|
                    self.spec_heap().spec_items().to_multiset().count(e) > 0
                        ==> entry_from_records(self.spec_processed(), e));
                assert(crate::path_pool::paths_distinct(self.spec_pool_paths()));
                assert(self.spec_dir_acc().len() == self.spec_pool_paths().len());
                assert(self.spec_pool_paths().len() <= self.spec_processed().len());
                assert(forall|d: Seq<char>|
                    #[trigger] dir_total_of(self.spec_pool_paths(), self.spec_dir_acc(), d)
                        == dir_bytes(self.spec_processed(), d));
            }
        }
    }

    /// Merges another shard into this one: category totals add up by key,
    /// the largest-files selectors are merged by re-offering the other
    /// shard's survivors, and directory totals are merged by resolved path,
    /// never by raw identifier. The result is as if this collector had
    /// processed both shards' streams back to back.
    pub fn merge(&mut self, other: Self)
        requires
            old(self).wf(),
            other.wf(),
            same_strategy(old(self).spec_categorizer(), other.spec_categorizer()),
            old(self).spec_top_n() == other.spec_top_n(),
            old(self).spec_collect_tops() == other.spec_collect_tops(),
            total_size(old(self).spec_processed()) + total_size(other.spec_processed())
                <= u64::MAX,
            old(self).spec_processed().len() + other.spec_processed().len() < u32::MAX,
        ensures
            final(self).wf(),
            final(self).spec_processed() =~= old(self).spec_processed()
                + other.spec_processed(),
            final(self).spec_categorizer() == old(self).spec_categorizer(),
            final(self).spec_top_n() == old(self).spec_top_n(),
            final(self).spec_collect_tops() == old(self).spec_collect_tops(),
    {
        let ghost a = self.processed@;
        let ghost b = other.processed@;
        let ghost c = self.categorizer;
        let ghost c2 = other.categorizer;
        let ghost combined = a + b;
        let ghost ov = stat_view(other.cats@);
        let ghost opaths = other.path_pool.spec_paths();
        let collect = self.collect_tops;
        let SinglePassCollector {
            categorizer: _,
            cats: ocats,
            top_files_heap: oheap,
            dir_acc: oacc,
            path_pool: opool,
            top_n: _,
            collect_tops: _,
            bytes_seen: obytes,
            count_seen: ocount,
            processed: _,
        } = other;
        proof {
            lemma_cat_bounds(c, a, Seq::<char>::empty());
            lemma_cat_bounds(c2, b, Seq::<char>::empty());
        }
        // Category totals: add the other shard's entries by key.
        let n2 = ocats.len();
        let mut j: usize = 0;
        proof {
            assert(ov.take(0) =~= Seq::<(Seq<char>, u64, u64)>::empty());
        }
        while j < n2
            invariant
                0 <= j <= n2,
                n2 == ocats@.len(),
                ov == stat_view(ocats@),
                stat_keys_distinct(ov),
                forall|k: Seq<char>| #[trigger] stat_bytes_of(ov, k) == cat_bytes(c2, b, k),
                forall|k: Seq<char>| #[trigger] stat_count_of(ov, k) == cat_count(c2, b, k),
                total_size(a) + total_size(b) <= u64::MAX,
                a.len() + b.len() < u32::MAX,
                total_size(a) >= 0,
                total_size(b) >= 0,
                self.categorizer == c,
                c.inv(),
                self.processed@ == a,
                stat_keys_distinct(self.spec_stats()),
                forall|k: Seq<char>|
                    #[trigger] stat_bytes_of(self.spec_stats(), k) == cat_bytes(c, a, k)
                        + stat_bytes_of(ov.take(j as int), k),
                forall|k: Seq<char>|
                    #[trigger] stat_count_of(self.spec_stats(), k) == cat_count(c, a, k)
                        + stat_count_of(ov.take(j as int), k),
                stat_sum(self.spec_stats()) == total_size(a) + stat_sum(ov.take(j as int)),
                self.top_files_heap == old(self).top_files_heap,
                self.dir_acc@ == old(self).dir_acc@,
                self.path_pool == old(self).path_pool,
                self.top_n == old(self).top_n,
                self.collect_tops == old(self).collect_tops,
                self.bytes_seen == old(self).bytes_seen,
                self.count_seen == old(self).count_seen,
            decreases n2 - j,
        {
            let ghost tkj = ov.take(j as int);
            let ghost keyj = ov[j as int].0;
            proof {
                assert(ov.take(j as int + 1).drop_last() =~= tkj);
                assert(ov.take(j as int + 1).last() == ov[j as int]);
                assert(!stat_has_key(tkj, keyj)) by {
                    if stat_has_key(tkj, keyj) {
                        let w = choose|w: int|
                            0 <= w < tkj.len() && #[trigger] tkj[w].0 == keyj;
                        assert(ov[w].0 == keyj);
                    }
                }
                lemma_stat_missing(tkj, keyj);
                lemma_stat_at(ov, j as int);
                lemma_cat_bounds(c, a, keyj);
                lemma_cat_bounds(c2, b, keyj);
            }
            let key = ocats[j].key.clone();
            let ob = ocats[j].bytes;
            let oct = ocats[j].count;
            proof {
                assert(ov[j as int] == (ocats@[j as int].key@, ocats@[j as int].bytes,
                    ocats@[j as int].count));
                assert(key@ == keyj);
                assert(ob == cat_bytes(c2, b, keyj));
                assert(oct == cat_count(c2, b, keyj));
            }
            let idx = Self::find_stat(&self.cats, &key);
            let ghost v0 = stat_view(self.cats@);
            if idx < self.cats.len() {
                let k2 = self.cats[idx].key.clone();
                let b0 = self.cats[idx].bytes;
                let ct0 = self.cats[idx].count;
                proof {
                    lemma_stat_at(v0, idx as int);
                    assert(b0 == cat_bytes(c, a, keyj));
                    assert(ct0 == cat_count(c, a, keyj));
                }
                self.cats.set(idx, CatStat { key: k2, bytes: b0 + ob, count: ct0 + oct });
                proof {
                    assert(stat_view(self.cats@) =~= v0.update(
                        idx as int,
                        (v0[idx as int].0, (b0 + ob) as u64, (ct0 + oct) as u64),
                    ));
                    lemma_stat_update(v0, idx as int, (b0 + ob) as u64, (ct0 + oct) as u64);
                    lemma_stat_sum_update(v0, idx as int, (b0 + ob) as u64, (ct0
                        + oct) as u64);
                    assert(v0[idx as int].0 == keyj);
                    assert(stat_keys_distinct(stat_view(self.cats@))) by {
                        assert(forall|x: int, y: int|
                            0 <= x < y < v0.len() ==> stat_view(self.cats@)[x].0 == v0[x].0
                                && stat_view(self.cats@)[y].0 == v0[y].0);
                    }
                    assert forall|k: Seq<char>|
                        #[trigger] stat_bytes_of(stat_view(self.cats@), k) == (if k == keyj {
                            (b0 + ob) as int
                        } else {
                            stat_bytes_of(v0, k)
                        }) by {
                        assert(stat_bytes_of(
                            v0.update(idx as int, (v0[idx as int].0, (b0 + ob) as u64, (ct0
                                + oct) as u64)),
                            k,
                        ) == if k == v0[idx as int].0 {
                            (b0 + ob) as int
                        } else {
                            stat_bytes_of(v0, k)
                        });
                    }
                    assert forall|k: Seq<char>|
                        #[trigger] stat_count_of(stat_view(self.cats@), k) == (if k == keyj {
                            (ct0 + oct) as int
                        } else {
                            stat_count_of(v0, k)
                        }) by {
                        assert(stat_count_of(
                            v0.update(idx as int, (v0[idx as int].0, (b0 + ob) as u64, (ct0
                                + oct) as u64)),
                            k,
                        ) == if k == v0[idx as int].0 {
                            (ct0 + oct) as int
                        } else {
                            stat_count_of(v0, k)
                        });
                    }
                }
            } else {
                proof {
                    lemma_stat_missing(v0, keyj);
                }
                self.cats.push(CatStat { key, bytes: ob, count: oct });
                proof {
                    assert(stat_view(self.cats@) =~= v0.push((keyj, ob, oct)));
                    assert(stat_view(self.cats@).drop_last() =~= v0);
                    assert(stat_view(self.cats@).last() == (keyj, ob, oct));
                    assert(stat_keys_distinct(stat_view(self.cats@))) by {
                        assert(forall|x: int|
                            0 <= x < v0.len() ==> stat_view(self.cats@)[x].0 == v0[x].0);
                        assert(forall|x: int| 0 <= x < v0.len() ==> v0[x].0 != keyj);
                    }
                    assert forall|k: Seq<char>|
                        #[trigger] stat_bytes_of(stat_view(self.cats@), k) == (if k == keyj {
                            ob as int
                        } else {
                            stat_bytes_of(v0, k)
                        }) by {}
                    assert forall|k: Seq<char>|
                        #[trigger] stat_count_of(stat_view(self.cats@), k) == (if k == keyj {
                            oct as int
                        } else {
                            stat_count_of(v0, k)
                        }) by {}
                    assert(stat_sum(stat_view(self.cats@)) == stat_sum(v0) + ob);
                }
            }
            proof {
                assert(stat_bytes_of(ov.take(j as int + 1), keyj) == ob);
                assert(stat_sum(ov.take(j as int + 1)) == stat_sum(tkj) + ob);
                assert forall|k: Seq<char>|
                    #[trigger] stat_bytes_of(self.spec_stats(), k) == cat_bytes(c, a, k)
                        + stat_bytes_of(ov.take(j as int + 1), k) by {
                    if k == keyj {
                        assert(stat_bytes_of(tkj, k) == 0);
                    } else {
                        assert(stat_bytes_of(ov.take(j as int + 1), k) == stat_bytes_of(
                            tkj,
                            k,
                        ));
                    }
                }
                assert forall|k: Seq<char>|
                    #[trigger] stat_count_of(self.spec_stats(), k) == cat_count(c, a, k)
                        + stat_count_of(ov.take(j as int + 1), k) by {
                    if k == keyj {
                        assert(stat_count_of(tkj, k) == 0);
                    } else {
                        assert(stat_count_of(ov.take(j as int + 1), k) == stat_count_of(
                            tkj,
                            k,
                        ));
                    }
                }
            }
            j = j + 1;
        }
        proof {
            assert(ov.take(n2 as int) =~= ov);
        }
        let ghost cats_after = self.cats@;
        proof {
            assert(stat_view(cats_after) == self.spec_stats());
            assert forall|k: Seq<char>|
                #[trigger] stat_bytes_of(stat_view(cats_after), k) == cat_bytes(
                c,
                combined,
                k,
            ) by {
                assert(stat_bytes_of(self.spec_stats(), k) == cat_bytes(c, a, k)
                    + stat_bytes_of(ov.take(n2 as int), k));
                lemma_cat_equiv(c, c2, b, k);
                lemma_concat_totals(c, a, b, k);
            }
            assert forall|k: Seq<char>|
                #[trigger] stat_count_of(stat_view(cats_after), k) == cat_count(
                c,
                combined,
                k,
            ) by {
                assert(stat_count_of(self.spec_stats(), k) == cat_count(c, a, k)
                    + stat_count_of(ov.take(n2 as int), k));
                lemma_cat_equiv(c, c2, b, k);
                lemma_concat_totals(c, a, b, k);
            }
            lemma_concat_totals(c, a, b, Seq::<char>::empty());
            assert(stat_sum(stat_view(ocats@)) == total_size(b)) by {
                assert(ov == stat_view(ocats@));
            }
            assert(stat_sum(stat_view(cats_after)) == total_size(combined));
            assert(stat_keys_distinct(stat_view(cats_after)));
        }
        // The largest-files selector and the directory totals.
        if collect {
            let ghost items_a = self.top_files_heap.spec_items().to_multiset();
            let ghost items_b = oheap.spec_items().to_multiset();
            self.top_files_heap.absorb(oheap);
            proof {
                assert(size_seq(combined) =~= size_seq(a) + size_seq(b));
                vstd::seq_lib::lemma_multiset_commutative(size_seq(a), size_seq(b));
                assert(self.top_files_heap.spec_offered() == size_seq(
                    combined,
                ).to_multiset());
                assert forall|e: FileEntry|
                    self.top_files_heap.spec_items().to_multiset().count(e) > 0
                    implies entry_from_records(combined, e) by {
                    if items_a.count(e) > 0 {
                        assert(entry_from_records(a, e));
                        let w = choose|w: int|
                            0 <= w < a.len() && a[w].path == e.path@ && a[w].size == e.bytes;
                        assert(combined[w] == a[w]);
                    } else {
                        assert(items_b.count(e) > 0);
                        assert(entry_from_records(b, e));
                        let w = choose|w: int|
                            0 <= w < b.len() && b[w].path == e.path@ && b[w].size == e.bytes;
                        assert(combined[a.len() + w] == b[w]);
                    }
                }
            }
            let ghost heap_after = self.top_files_heap;
            proof {
                assert(heap_after.wf());
                assert(heap_after.spec_capacity() == old(self).spec_top_n());
                assert(heap_after.spec_offered() == size_seq(combined).to_multiset());
                assert(forall|e: FileEntry|
                    heap_after.spec_items().to_multiset().count(e) > 0 ==> entry_from_records(
                        combined,
                        e,
                    ));
            }
            let m = oacc.len();
            let mut t: usize = 0;
            proof {
                assert(opaths.take(0) =~= Seq::<Seq<char>>::empty());
                assert(oacc@.take(0) =~= Seq::<u64>::empty());
                assert forall|d: Seq<char>|
                    #[trigger] dir_total_of(self.spec_pool_paths(), self.dir_acc@, d)
                        == dir_bytes(a, d) + dir_total_of(opaths.take(0), oacc@.take(0), d)
                    by {
                    if pool_has(opaths.take(0), d) {
                        let w = pool_index_of(opaths.take(0), d);
                        assert(0 <= w < opaths.take(0).len() && opaths.take(0)[w] == d);
                    }
                }
            }
            while t < m
                invariant
                    0 <= t <= m,
                    m == oacc@.len(),
                    opaths == opool.spec_paths(),
                    opaths.len() == m,
                    m <= b.len(),
                    crate::path_pool::paths_distinct(opaths),
                    forall|d: Seq<char>|
                        #[trigger] dir_total_of(opaths, oacc@, d) == dir_bytes(b, d),
                    crate::path_pool::paths_distinct(self.spec_pool_paths()),
                    self.dir_acc@.len() == self.spec_pool_paths().len(),
                    self.spec_pool_paths().len() <= a.len() + t,
                    a.len() + b.len() < u32::MAX,
                    total_size(a) + total_size(b) <= u64::MAX,
                    total_size(a) >= 0,
                    total_size(b) >= 0,
                    forall|d: Seq<char>|
                        #[trigger] dir_total_of(self.spec_pool_paths(), self.dir_acc@, d)
                            == dir_bytes(a, d) + dir_total_of(
                            opaths.take(t as int),
                            oacc@.take(t as int),
                            d,
                        ),
                    self.categorizer == c,
                    self.processed@ == a,
                    self.cats@ == cats_after,
                    self.top_files_heap == heap_after,
                    self.top_n == old(self).top_n,
                    self.collect_tops == old(self).collect_tops,
                    self.bytes_seen == old(self).bytes_seen,
                    self.count_seen == old(self).count_seen,
                decreases m - t,
            {
                let ghost tk = opaths.take(t as int);
                let ghost atk = oacc@.take(t as int);
                let ghost pj = opaths[t as int];
                proof {
                    assert(opaths.take(t as int + 1) =~= tk.push(pj));
                    assert(oacc@.take(t as int + 1) =~= atk.push(oacc@[t as int]));
                    assert(crate::path_pool::paths_distinct(tk)) by {
                        assert(forall|x: int| 0 <= x < t ==> tk[x] == opaths[x]);
                    }
                    assert(!pool_has(tk, pj)) by {
                        if pool_has(tk, pj) {
                            let w = pool_index_of(tk, pj);
                            assert(0 <= w < tk.len() && tk[w] == pj);
                            assert(opaths[w] == opaths[t as int]);
                        }
                    }
                    lemma_dir_push(tk, atk, pj, oacc@[t as int]);
                    assert(dir_total_of(opaths, oacc@, pj) == oacc@[t as int]) by {
                        assert(opaths[t as int] == pj);
                        assert(pool_has(opaths, pj));
                        let w = pool_index_of(opaths, pj);
                        assert(0 <= w < opaths.len() && opaths[w] == pj);
                        if w != t {
                            assert(opaths[w] == opaths[t as int]);
                            assert(false);
                        }
                    }
                    assert(oacc@[t as int] == dir_bytes(b, pj));
                    lemma_cat_bounds(c, a, pj);
                    lemma_cat_bounds(c2, b, pj);
                }
                let pstr: String = match opool.get(t as u32) {
                    Option::Some(p) => p.clone(),
                    Option::None => {
                        proof {
                            assert(false);
                        }
                        String::new()
                    },
                };
                let val = oacc[t];
                let ghost paths0 = self.path_pool.spec_paths();
                let ghost acc0 = self.dir_acc@;
                let id = self.path_pool.intern(&pstr);
                proof {
                    assert(dir_total_of(tk, atk, pj) == 0);
                    assert(dir_total_of(paths0, acc0, pj) == dir_bytes(a, pj));
                }
                if (id as usize) < self.dir_acc.len() {
                    proof {
                        assert(pool_has(paths0, pstr@));
                        assert(self.path_pool.spec_paths() == paths0);
                        assert(paths0[id as int] == pstr@);
                        assert(dir_total_of(paths0, acc0, pj) == acc0[id as int]) by {
                            let w = pool_index_of(paths0, pj);
                            if w != id {
                                assert(paths0[w] == paths0[id as int]);
                            }
                        }
                    }
                    let cur = self.dir_acc[id as usize];
                    self.dir_acc.set(id as usize, cur + val);
                    proof {
                        lemma_dir_add(paths0, acc0, self.dir_acc@, id as int, val);
                        assert forall|d: Seq<char>|
                            #[trigger] dir_total_of(paths0, self.dir_acc@, d) == dir_bytes(
                            a,
                            d,
                        ) + dir_total_of(
                            opaths.take(t as int + 1),
                            oacc@.take(t as int + 1),
                            d,
                        ) by {}
                    }
                } else {
                    proof {
                        assert(!pool_has(paths0, pstr@)) by {
                            if pool_has(paths0, pstr@) {
                                let w = pool_index_of(paths0, pstr@);
                                assert(paths0[w] == pstr@);
                                assert(id as int == w);
                            }
                        }
                        assert(self.path_pool.spec_paths() =~= paths0.push(pstr@));
                        assert(id as int == paths0.len());
                    }
                    self.dir_acc.push(val);
                    proof {
                        lemma_dir_push(paths0, acc0, pstr@, val);
                        assert(self.dir_acc@ =~= acc0.push(val));
                        assert forall|d: Seq<char>|
                            #[trigger] dir_total_of(
                            self.spec_pool_paths(),
                            self.dir_acc@,
                            d,
                        ) == dir_bytes(a, d) + dir_total_of(
                            opaths.take(t as int + 1),
                            oacc@.take(t as int + 1),
                            d,
                        ) by {}
                    }
                }
                t = t + 1;
            }
            proof {
                assert(opaths.take(m as int) =~= opaths);
                assert(oacc@.take(m as int) =~= oacc@);
                assert forall|d: Seq<char>|
                    #[trigger] dir_total_of(self.spec_pool_paths(), self.dir_acc@, d)
                        == dir_bytes(combined, d) by {
                    lemma_concat_totals(c, a, b, d);
                }
            }
        }
        proof {
            assert(self.bytes_seen == total_size(a));
            assert(obytes == total_size(b));
            assert(self.count_seen == a.len());
            assert(ocount == b.len());
        }
        self.bytes_seen = self.bytes_seen + obytes;
        self.count_seen = self.count_seen + ocount;
        self.processed = Ghost(combined);
        proof {
            lemma_concat_totals(c, a, b, Seq::<char>::empty());
            assert(combined.len() == a.len() + b.len());
            assert(self.spec_bytes_seen() == total_size(combined));
            assert(self.spec_count_seen() == combined.len());
            assert(self.spec_categorizer().inv());
            assert(stat_keys_distinct(self.spec_stats()));
            assert(forall|k: Seq<char>|
                #[trigger] stat_bytes_of(self.spec_stats(), k) == cat_bytes(
                    self.spec_categorizer(),
                    self.spec_processed(),
                    k,
                ));
            assert(forall|k: Seq<char>|
                #[trigger] stat_count_of(self.spec_stats(), k) == cat_count(
                    self.spec_categorizer(),
                    self.spec_processed(),
                    k,
                ));
            assert(stat_sum(self.spec_stats()) == total_size(self.spec_processed()));
            if self.spec_collect_tops() {
                assert(self.spec_heap().wf());
                assert(self.spec_heap().spec_capacity() == self.spec_top_n());
                assert(self.spec_heap().spec_offered() == size_seq(
                    self.spec_processed(),
                ).to_multiset());
                assert(forall|e: FileEntry|
                    self.spec_heap().spec_items().to_multiset().count(e) > 0
                        ==> entry_from_records(self.spec_processed(), e));
                assert(crate::path_pool::paths_distinct(self.spec_pool_paths()));
                assert(self.spec_dir_acc().len() == self.spec_pool_paths().len());
                assert(self.spec_pool_paths().len() <= self.spec_processed().len());
                assert(forall|d: Seq<char>|
                    #[trigger] dir_total_of(self.spec_pool_paths(), self.spec_dir_acc(), d)
                        == dir_bytes(self.spec_processed(), d));
            } else {
                assert(self.spec_heap().spec_items().len() == 0);
                assert(self.spec_dir_acc().len() == 0);
                assert(self.spec_pool_paths().len() == 0);
            }
        }
    }

    /// Consumes the collector and produces the final results: one bucket per
    /// category seen, sorted descending by bytes, with each bucket's bytes
    /// and file count exactly the category's totals over the processed
    /// records, and the bucket bytes summing to the total processed bytes;
    /// the largest files and directories, sorted descending, each a true
    /// largest-keys selection; and empty top lists when tops were not
    /// collected.
    pub fn finalize(self, total_bytes: u64) -> (r: CollectionResults)
        requires
            self.wf(),
            total_size(self.spec_processed()) <= total_bytes,
        ensures
            sorted_desc(r.buckets@),
            forall|i: int|
                0 <= i < r.buckets@.len() ==> {
                    &&& (#[trigger] r.buckets@[i]).bytes == cat_bytes(
                        self.spec_categorizer(),
                        self.spec_processed(),
                        r.buckets@[i].key@,
                    )
                    &&& r.buckets@[i].file_count == cat_count(
                        self.spec_categorizer(),
                        self.spec_processed(),
                        r.buckets@[i].key@,
                    )
                    &&& r.buckets@[i].label@ == self.spec_categorizer().spec_label(
                        r.buckets@[i].key@,
                    )
                    &&& r.buckets@[i].percent_hundredths as int == (if total_bytes == 0 {
                        0int
                    } else {
                        r.buckets@[i].bytes * 10000 / (total_bytes as int)
                    })
                    &&& r.buckets@[i].color is None
                    &&& r.buckets@[i].representative_extension is None
                },
            forall|i: int, j: int|
                0 <= i < j < r.buckets@.len() ==> r.buckets@[i].key@ != r.buckets@[j].key@,
            forall|k: Seq<char>|
                #[trigger] cat_count(self.spec_categorizer(), self.spec_processed(), k) != 0
                    ==> exists|i: int| 0 <= i < r.buckets@.len() && r.buckets@[i].key@ == k,
            key_sum(r.buckets@) == total_size(self.spec_processed()),
            self.spec_collect_tops() ==> sorted_desc(r.top_files@),
            self.spec_collect_tops() ==> is_top_k(
                self.spec_top_n() as nat,
                size_seq(self.spec_processed()).to_multiset(),
                key_multiset(r.top_files@),
            ),
            self.spec_collect_tops() ==> forall|i: int|
                0 <= i < r.top_files@.len() ==> entry_from_records(
                    self.spec_processed(),
                    #[trigger] r.top_files@[i],
                ),
            self.spec_collect_tops() ==> sorted_desc(r.top_dirs@),
            self.spec_collect_tops() ==> is_top_k(
                self.spec_top_n() as nat,
                self.spec_dir_acc().to_multiset(),
                key_multiset(r.top_dirs@),
            ),
            self.spec_collect_tops() ==> forall|i: int|
                0 <= i < r.top_dirs@.len() ==> dir_bytes(
                    self.spec_processed(),
                    (#[trigger] r.top_dirs@[i]).path@,
                ) == r.top_dirs@[i].bytes,
            !self.spec_collect_tops() ==> r.top_files@.len() == 0 && r.top_dirs@.len() == 0,
    {
        let ghost c = self.categorizer;
        let ghost recs = self.processed@;
        let ghost v = stat_view(self.cats@);
        let SinglePassCollector {
            categorizer,
            cats,
            top_files_heap,
            dir_acc,
            path_pool,
            top_n,
            collect_tops,
            bytes_seen: _,
            count_seen: _,
            processed: _,
        } = self;
        let mut raw: Vec<Bucket> = Vec::new();
        let nc = cats.len();
        let mut i: usize = 0;
        proof {
            assert(v.take(0) =~= Seq::<(Seq<char>, u64, u64)>::empty());
        }
        while i < nc
            invariant
                0 <= i <= nc,
                nc == cats@.len(),
                v == stat_view(cats@),
                stat_keys_distinct(v),
                forall|k: Seq<char>| #[trigger] stat_bytes_of(v, k) == cat_bytes(c, recs, k),
                forall|k: Seq<char>| #[trigger] stat_count_of(v, k) == cat_count(c, recs, k),
                total_size(recs) <= total_bytes,
                categorizer == c,
                c.inv(),
                raw@.len() == i,
                forall|t: int| 0 <= t < i ==> (#[trigger] raw@[t]).key@ == v[t].0,
                forall|t: int| 0 <= t < i ==> (#[trigger] raw@[t]).bytes == v[t].1,
                forall|t: int| 0 <= t < i ==> (#[trigger] raw@[t]).file_count == v[t].2,
                forall|t: int|
                    0 <= t < i ==> (#[trigger] raw@[t]).label@ == c.spec_label(v[t].0),
                forall|t: int|
                    0 <= t < i ==> (#[trigger] raw@[t]).percent_hundredths as int == (
                    if total_bytes == 0 {
                        0int
                    } else {
                        v[t].1 * 10000 / (total_bytes as int)
                    }),
                forall|t: int|
                    0 <= t < i ==> (#[trigger] raw@[t]).color is None
                        && raw@[t].representative_extension is None,
                key_sum(raw@) == stat_sum(v.take(i as int)),
            decreases nc - i,
        {
            let st_key = cats[i].key.clone();
            let st_bytes = cats[i].bytes;
            let st_count = cats[i].count;
            proof {
                assert(v[i as int] == (cats@[i as int].key@, cats@[i as int].bytes,
                    cats@[i as int].count));
                lemma_stat_at(v, i as int);
                lemma_cat_bounds(c, recs, st_key@);
                assert(st_bytes as int <= total_bytes as int);
            }
            let label = categorizer.get_label(&st_key);
            let ph: u64 = if total_bytes > 0 {
                proof {
                    vstd::arithmetic::mul::lemma_mul_inequality(
                        st_bytes as int,
                        total_bytes as int,
                        10000,
                    );
                    vstd::arithmetic::div_mod::lemma_div_is_ordered(
                        (st_bytes as int) * 10000,
                        (total_bytes as int) * 10000,
                        total_bytes as int,
                    );
                    vstd::arithmetic::div_mod::lemma_div_multiples_vanish(
                        10000,
                        total_bytes as int,
                    );
                    assert((total_bytes as int) * 10000 == (total_bytes as int) * 10000);
                    assert((st_bytes as int) * 10000 / (total_bytes as int) <= 10000);
                }
                let q: u128 = (st_bytes as u128) * 10000u128 / (total_bytes as u128);
                q as u64
            } else {
                0
            };
            let ghost raw0 = raw@;
            raw.push(
                Bucket {
                    key: st_key,
                    label,
                    bytes: st_bytes,
                    percent_hundredths: ph,
                    file_count: st_count,
                    color: Option::None,
                    representative_extension: Option::None,
                },
            );
            proof {
                assert(raw@.drop_last() =~= raw0);
                assert(v.take(i as int + 1).drop_last() =~= v.take(i as int));
                assert(v.take(i as int + 1).last() == v[i as int]);
                assert(key_sum(raw@) == key_sum(raw0) + st_bytes);
                assert(stat_sum(v.take(i as int + 1)) == stat_sum(v.take(i as int)) + v[
                    i as int
                ].1);
            }
            i = i + 1;
        }
        proof {
            assert(v.take(nc as int) =~= v);
            assert(key_sum(raw@) == total_size(recs));
            assert(raw@.no_duplicates()) by {
                assert forall|x: int, y: int|
                    0 <= x < y < raw@.len() implies raw@[x] != raw@[y] by {
                    assert(raw@[x].key@ == v[x].0);
                    assert(raw@[y].key@ == v[y].0);
                }
            }
            raw@.lemma_multiset_has_no_duplicates();
        }
        let ghost raw_final = raw@;
        let buckets = sort_desc(raw);
        proof {
            lemma_key_sum_permutation(buckets@, raw_final);
            assert forall|t: int| 0 <= t < buckets@.len() implies {
                &&& (#[trigger] buckets@[t]).bytes == cat_bytes(c, recs, buckets@[t].key@)
                &&& buckets@[t].file_count == cat_count(c, recs, buckets@[t].key@)
                &&& buckets@[t].label@ == c.spec_label(buckets@[t].key@)
                &&& buckets@[t].percent_hundredths as int == (if total_bytes == 0 {
                    0int
                } else {
                    buckets@[t].bytes * 10000 / (total_bytes as int)
                })
                &&& buckets@[t].color is None
                &&& buckets@[t].representative_extension is None
            } by {
                assert(buckets@.contains(buckets@[t]));
                assert(buckets@.to_multiset().count(buckets@[t]) > 0);
                assert(raw_final.to_multiset().count(buckets@[t]) > 0);
                assert(raw_final.contains(buckets@[t]));
                let w = choose|w: int|
                    0 <= w < raw_final.len() && #[trigger] raw_final[w] == buckets@[t];
                assert(raw_final[w].key@ == v[w].0);
                lemma_stat_at(v, w);
            }
            assert forall|x: int, y: int|
                0 <= x < y < buckets@.len() implies buckets@[x].key@ != buckets@[y].key@ by {
                buckets@.lemma_multiset_has_no_duplicates_conv();
                assert(buckets@[x] != buckets@[y]);
                assert(buckets@.contains(buckets@[x]));
                assert(buckets@.to_multiset().count(buckets@[x]) > 0);
                assert(raw_final.contains(buckets@[x]));
                assert(buckets@.contains(buckets@[y]));
                assert(buckets@.to_multiset().count(buckets@[y]) > 0);
                assert(raw_final.contains(buckets@[y]));
                let wx = choose|w: int|
                    0 <= w < raw_final.len() && #[trigger] raw_final[w] == buckets@[x];
                let wy = choose|w: int|
                    0 <= w < raw_final.len() && #[trigger] raw_final[w] == buckets@[y];
                assert(wx != wy);
                assert(raw_final[wx].key@ == v[wx].0);
                assert(raw_final[wy].key@ == v[wy].0);
            }
            assert forall|k: Seq<char>|
                #[trigger] cat_count(c, recs, k) != 0 implies exists|t: int|
                0 <= t < buckets@.len() && buckets@[t].key@ == k by {
                assert(stat_count_of(v, k) != 0);
                assert(stat_has_key(v, k)) by {
                    if !stat_has_key(v, k) {
                        lemma_stat_missing(v, k);
                    }
                }
                let w = choose|w: int| 0 <= w < v.len() && #[trigger] v[w].0 == k;
                assert(raw_final[w].key@ == k);
                assert(raw_final.contains(raw_final[w]));
                assert(raw_final.to_multiset().count(raw_final[w]) > 0);
                assert(buckets@.to_multiset().count(raw_final[w]) > 0);
                assert(buckets@.contains(raw_final[w]));
                let t = choose|t: int|
                    0 <= t < buckets@.len() && #[trigger] buckets@[t] == raw_final[w];
                assert(buckets@[t].key@ == k);
            }
        }
        if collect_tops {
            let ghost heap_items = top_files_heap.spec_items();
            let top_files = top_files_heap.into_sorted_vec();
            proof {
                assert(is_top_k(top_n as nat, size_seq(recs).to_multiset(), key_multiset(
                    top_files@,
                )));
                assert forall|t: int| 0 <= t < top_files@.len() implies entry_from_records(
                    recs,
                    #[trigger] top_files@[t],
                ) by {
                    assert(top_files@.contains(top_files@[t]));
                    assert(top_files@.to_multiset().count(top_files@[t]) > 0);
                    assert(heap_items.to_multiset().count(top_files@[t]) > 0);
                }
            }
            let mut dh: BoundedMinHeap<DirEntry> = BoundedMinHeap::new(top_n);
            let nd = dir_acc.len();
            let mut t: usize = 0;
            proof {
                assert(dir_acc@.take(0) =~= Seq::<u64>::empty());
                assert(dir_acc@.take(0).to_multiset() =~= Multiset::<u64>::empty()) by {
                    assert(dir_acc@.take(0).to_multiset().len() == 0);
                    assert(forall|x: u64| #![all_triggers]
                        dir_acc@.take(0).to_multiset().count(x) <= dir_acc@.take(
                            0,
                        ).to_multiset().len());
                }
            }
            while t < nd
                invariant
                    0 <= t <= nd,
                    nd == dir_acc@.len(),
                    dir_acc@.len() == path_pool.spec_paths().len(),
                    crate::path_pool::paths_distinct(path_pool.spec_paths()),
                    forall|d: Seq<char>|
                        #[trigger] dir_total_of(path_pool.spec_paths(), dir_acc@, d)
                            == dir_bytes(recs, d),
                    dh.wf(),
                    dh.spec_capacity() == top_n,
                    dh.spec_offered() == dir_acc@.take(t as int).to_multiset(),
                    forall|e: DirEntry|
                        dh.spec_items().to_multiset().count(e) > 0 ==> dir_bytes(recs, e.path@)
                            == e.bytes,
                decreases nd - t,
            {
                let ghost paths = path_pool.spec_paths();
                proof {
                    assert(dir_total_of(paths, dir_acc@, paths[t as int]) == dir_acc@[
                        t as int
                    ]) by {
                        assert(pool_has(paths, paths[t as int]));
                        let w = pool_index_of(paths, paths[t as int]);
                        assert(0 <= w < paths.len() && paths[w] == paths[t as int]);
                        if w != t {
                            assert(paths[w] == paths[t as int]);
                            assert(false);
                        }
                    }
                    assert(dir_bytes(recs, paths[t as int]) == dir_acc@[t as int]);
                }
                let pstr = path_pool.path_at(t).clone();
                let e = DirEntry { path: pstr, bytes: dir_acc[t] };
                let ghost items_pre = dh.spec_items().to_multiset();
                dh.push(e);
                proof {
                    assert(dir_acc@.take(t as int + 1) =~= dir_acc@.take(t as int).push(
                        dir_acc@[t as int],
                    ));
                    assert(dir_acc@.take(t as int + 1).to_multiset() =~= dir_acc@.take(
                        t as int,
                    ).to_multiset().insert(dir_acc@[t as int]));
                    assert forall|e2: DirEntry|
                        dh.spec_items().to_multiset().count(e2) > 0 implies dir_bytes(
                        recs,
                        e2.path@,
                    ) == e2.bytes by {
                        if items_pre.count(e2) == 0 {
                            assert(e2 == e);
                        }
                    }
                }
                t = t + 1;
            }
            proof {
                assert(dir_acc@.take(nd as int) =~= dir_acc@);
            }
            let ghost dh_items = dh.spec_items();
            let top_dirs = dh.into_sorted_vec();
            proof {
                assert(is_top_k(top_n as nat, dir_acc@.to_multiset(), key_multiset(
                    top_dirs@,
                )));
                assert forall|w: int| 0 <= w < top_dirs@.len() implies dir_bytes(
                    recs,
                    (#[trigger] top_dirs@[w]).path@,
                ) == top_dirs@[w].bytes by {
                    assert(top_dirs@.contains(top_dirs@[w]));
                    assert(top_dirs@.to_multiset().count(top_dirs@[w]) > 0);
                    assert(dh_items.to_multiset().count(top_dirs@[w]) > 0);
                }
            }
            CollectionResults { buckets, top_files, top_dirs }
        } else {
            CollectionResults { buckets, top_files: Vec::new(), top_dirs: Vec::new() }
        }
    }
}

/// The per-directory total reported by the tables: the accumulated bytes of
/// an interned path, 0 for a path never interned.
pub open spec fn dir_total_of(paths: Seq<Seq<char>>, acc: Seq<u64>, d: Seq<char>) -> int {
    if pool_has(paths, d) {
        acc[pool_index_of(paths, d)] as int
    } else {
        0
    }
}

/// Adding an amount to an existing slot raises that path's total alone.
pub proof fn lemma_dir_add(
    paths: Seq<Seq<char>>,
    acc0: Seq<u64>,
    acc1: Seq<u64>,
    id: int,
    amount: u64,
)
    requires
        crate::path_pool::paths_distinct(paths),
        acc0.len() == paths.len(),
        0 <= id < acc0.len(),
        acc0[id] + amount <= u64::MAX,
        acc1 =~= acc0.update(id, (acc0[id] + amount) as u64),
    ensures
        forall|d: Seq<char>|
            #[trigger] dir_total_of(paths, acc1, d) == dir_total_of(paths, acc0, d) + (if d
                == paths[id] {
                amount as int
            } else {
                0
            }),
{
    let p = paths[id];
    assert forall|d: Seq<char>| #[trigger] dir_total_of(paths, acc1, d) == dir_total_of(
        paths,
        acc0,
        d,
    ) + (if d == p {
        amount as int
    } else {
        0
    }) by {
        if d == p {
            assert(pool_has(paths, d));
            let w = pool_index_of(paths, d);
            assert(0 <= w < paths.len() && paths[w] == d);
            if w != id {
                assert(paths[w] == paths[id]);
                assert(false);
            }
            assert(acc1[id] == acc0[id] + amount);
        } else {
            if pool_has(paths, d) {
                let w = pool_index_of(paths, d);
                assert(0 <= w < paths.len() && paths[w] == d);
                if w == id {
                    assert(d == p);
                    assert(false);
                }
                assert(acc1[w] == acc0[w]);
            }
        }
    }
}

/// Appending a new slot gives the new path its amount and changes no other
/// total.
pub proof fn lemma_dir_push(paths0: Seq<Seq<char>>, acc0: Seq<u64>, p: Seq<char>, amount: u64)
    requires
        crate::path_pool::paths_distinct(paths0),
        acc0.len() == paths0.len(),
        !pool_has(paths0, p),
    ensures
        forall|d: Seq<char>|
            #[trigger] dir_total_of(paths0.push(p), acc0.push(amount), d) == dir_total_of(
                paths0,
                acc0,
                d,
            ) + (if d == p {
                amount as int
            } else {
                0
            }),
        crate::path_pool::paths_distinct(paths0.push(p)),
{
    let paths1 = paths0.push(p);
    let acc1 = acc0.push(amount);
    assert(crate::path_pool::paths_distinct(paths1)) by {
        assert(forall|i: int| 0 <= i < paths0.len() ==> paths1[i] == paths0[i]);
        assert(paths1[paths0.len() as int] == p);
        assert(forall|i: int| 0 <= i < paths0.len() ==> paths0[i] != p) by {
            assert forall|i: int| 0 <= i < paths0.len() implies paths0[i] != p by {
                if paths0[i] == p {
                    assert(pool_has(paths0, p));
                }
            }
        }
    }
    assert forall|d: Seq<char>| #[trigger] dir_total_of(paths1, acc1, d) == dir_total_of(
        paths0,
        acc0,
        d,
    ) + (if d == p {
        amount as int
    } else {
        0
    }) by {
        if d == p {
            assert(paths1[paths0.len() as int] == d);
            assert(pool_has(paths1, d));
            let w = pool_index_of(paths1, d);
            assert(0 <= w < paths1.len() && paths1[w] == d);
            if w != paths0.len() {
                assert(paths0[w] == p);
                assert(pool_has(paths0, p));
                assert(false);
            }
            assert(acc1[w] == amount);
            assert(dir_total_of(paths1, acc1, d) == amount);
        } else {
            if pool_has(paths1, d) {
                let w = pool_index_of(paths1, d);
                assert(0 <= w < paths1.len() && paths1[w] == d);
                if w == paths0.len() {
                    assert(d == p);
                    assert(false);
                }
                assert(paths0[w] == d);
                assert(pool_has(paths0, d));
                let w0 = pool_index_of(paths0, d);
                assert(0 <= w0 < paths0.len() && paths0[w0] == d);
                if w0 != w {
                    assert(paths0[w0] == paths0[w]);
                    assert(false);
                }
                assert(acc1[w] == acc0[w]);
                assert(dir_total_of(paths1, acc1, d) == acc0[w]);
                assert(dir_total_of(paths0, acc0, d) == acc0[w]);
            } else {
                assert(!pool_has(paths0, d)) by {
                    if pool_has(paths0, d) {
                        let w0 = pool_index_of(paths0, d);
                        assert(paths1[w0] == d);
                    }
                }
                assert(dir_total_of(paths1, acc1, d) == 0);
                assert(dir_total_of(paths0, acc0, d) == 0);
            }
        }
    }
}

} // verus!
