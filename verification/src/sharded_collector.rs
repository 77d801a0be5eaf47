//! A sharded collector: one independent single-pass collector per worker,
//! reduced after the scan by merging all shards into one. Any order of
//! feeding records to shards yields the same final aggregate as one
//! collector processing the concatenation of all shards' streams.

use vstd::prelude::*;

verus! {

use crate::categorize::{Categorizer, same_strategy};
use crate::collector::{
    CollectionResults,
    SinglePassCollector,
    cat_bytes,
    cat_count,
    dir_bytes,
    entry_from_records,
    lemma_concat_totals,
    size_seq,
    total_size,
};
use crate::rank::{is_top_k, key_multiset, key_sum, sorted_desc};
use crate::types::{FileMetadata, FileMetadataView};

/// The concatenation of all shards' processed streams, in shard order.
pub open spec fn combined<C: Categorizer>(ss: Seq<SinglePassCollector<C>>) -> Seq<
    FileMetadataView,
>
    decreases ss.len(),
{
    if ss.len() == 0 {
        Seq::empty()
    } else {
        ss.first().spec_processed() + combined(ss.drop_first())
    }
}

/// The total size of a record stream is nonnegative.
pub proof fn lemma_total_nonneg(recs: Seq<FileMetadataView>)
    ensures
        total_size(recs) >= 0,
    decreases recs.len(),
{
    if recs.len() > 0 {
        lemma_total_nonneg(recs.drop_last());
    }
}

/// A fixed set of worker-owned collector shards.
pub struct ShardedCollector<C: Categorizer> {
    shards: Vec<SinglePassCollector<C>>,
    top_n: usize,
}

impl<C: Categorizer> ShardedCollector<C> {
    /// The shards, in worker order.
    pub closed spec fn spec_shards(&self) -> Seq<SinglePassCollector<C>> {
        self.shards@
    }

    /// The capacity of each shard's selectors.
    pub closed spec fn spec_top_n(&self) -> usize {
        self.top_n
    }

    /// At least one shard exists, every shard is well formed, and all
    /// shards share one strategy and one configuration.
    pub open spec fn wf(&self) -> bool {
        &&& self.spec_shards().len() >= 1
        &&& forall|i: int|
            0 <= i < self.spec_shards().len() ==> (#[trigger] self.spec_shards()[i]).wf()
        &&& forall|i: int|
            0 <= i < self.spec_shards().len() ==> same_strategy(
                (#[trigger] self.spec_shards()[i]).spec_categorizer(),
                self.spec_shards()[0].spec_categorizer(),
            )
        &&& forall|i: int|
            0 <= i < self.spec_shards().len() ==> (#[trigger] self.spec_shards()[
                i
            ]).spec_top_n() == self.spec_top_n()
        &&& forall|i: int|
            0 <= i < self.spec_shards().len() ==> (#[trigger] self.spec_shards()[
                i
            ]).spec_collect_tops() == self.spec_shards()[0].spec_collect_tops()
    }

    /// Creates one fresh collector per shard, each with an independent copy
    /// of the categorization strategy.
    pub fn new(num_shards: usize, prototype: &C, top_n: usize, should_collect_tops: bool) -> (r:
        Self)
        requires
            num_shards >= 1,
            prototype.inv(),
        ensures
            r.wf(),
            r.spec_shards().len() == num_shards,
            r.spec_top_n() == top_n,
            forall|i: int|
                0 <= i < r.spec_shards().len() ==> (#[trigger] r.spec_shards()[
                    i
                ]).spec_processed().len() == 0,
            forall|i: int|
                0 <= i < r.spec_shards().len() ==> same_strategy(
                    (#[trigger] r.spec_shards()[i]).spec_categorizer(),
                    *prototype,
                ),
            forall|i: int|
                0 <= i < r.spec_shards().len() ==> (#[trigger] r.spec_shards()[
                    i
                ]).spec_collect_tops() == should_collect_tops,
    {
        let mut shards: Vec<SinglePassCollector<C>> = Vec::new();
        let mut i: usize = 0;
        while i < num_shards
            invariant
                0 <= i <= num_shards,
                shards@.len() == i,
                prototype.inv(),
                forall|t: int| 0 <= t < i ==> (#[trigger] shards@[t]).wf(),
                forall|t: int|
                    0 <= t < i ==> (#[trigger] shards@[t]).spec_processed().len() == 0,
                forall|t: int|
                    0 <= t < i ==> same_strategy(
                        (#[trigger] shards@[t]).spec_categorizer(),
                        *prototype,
                    ),
                forall|t: int| 0 <= t < i ==> (#[trigger] shards@[t]).spec_top_n() == top_n,
                forall|t: int|
                    0 <= t < i ==> (#[trigger] shards@[t]).spec_collect_tops()
                        == should_collect_tops,
            decreases num_shards - i,
        {
            let copy = prototype.duplicate();
            let shard = SinglePassCollector::new(copy, top_n, should_collect_tops);
            shards.push(shard);
            i = i + 1;
        }
        let r = ShardedCollector { shards, top_n };
        proof {
            assert forall|i2: int| 0 <= i2 < r.spec_shards().len() implies same_strategy(
                (#[trigger] r.spec_shards()[i2]).spec_categorizer(),
                r.spec_shards()[0].spec_categorizer(),
            ) by {
                assert(same_strategy(r.spec_shards()[i2].spec_categorizer(), *prototype));
                assert(same_strategy(r.spec_shards()[0].spec_categorizer(), *prototype));
            }
        }
        r
    }

    /// The number of shards.
    pub fn num_shards(&self) -> (n: usize)
        ensures
            n == self.spec_shards().len(),
    {
        self.shards.len()
    }

    /// The bytes a shard has processed so far, for bounding further input.
    pub fn shard_bytes(&self, shard: usize) -> (b: u64)
        requires
            self.wf(),
            shard < self.spec_shards().len(),
        ensures
            b == total_size(self.spec_shards()[shard as int].spec_processed()),
    {
        self.shards[shard].processed_bytes()
    }

    /// The number of records a shard has processed so far.
    pub fn shard_count(&self, shard: usize) -> (n: u64)
        requires
            self.wf(),
            shard < self.spec_shards().len(),
        ensures
            n == self.spec_shards()[shard as int].spec_processed().len(),
    {
        self.shards[shard].processed_count()
    }

    /// Feeds one record to one shard.
    pub fn process_file(&mut self, shard: usize, rec: FileMetadata)
        requires
            old(self).wf(),
            shard < old(self).spec_shards().len(),
            total_size(old(self).spec_shards()[shard as int].spec_processed()) + rec.size
                <= u64::MAX,
            old(self).spec_shards()[shard as int].spec_processed().len() < u32::MAX,
        ensures
            final(self).wf(),
            final(self).spec_shards().len() == old(self).spec_shards().len(),
            final(self).spec_top_n() == old(self).spec_top_n(),
            forall|i: int|
                0 <= i < old(self).spec_shards().len() && i != shard
                    ==> final(self).spec_shards()[i] == old(self).spec_shards()[i],
            final(self).spec_shards()[shard as int].spec_processed() =~= old(
                self,
            ).spec_shards()[shard as int].spec_processed().push(rec@),
            final(self).spec_shards()[shard as int].spec_categorizer() == old(
                self,
            ).spec_shards()[shard as int].spec_categorizer(),
            final(self).spec_shards()[shard as int].spec_top_n() == old(self).spec_shards()[
                shard as int
            ].spec_top_n(),
            final(self).spec_shards()[shard as int].spec_collect_tops() == old(
                self,
            ).spec_shards()[shard as int].spec_collect_tops(),
    {
        let ghost orig = self.shards@;
        let mut s = self.shards.remove(shard);
        s.process_file(rec);
        self.shards.insert(shard, s);
        proof {
            assert(self.shards@ =~= orig.update(shard as int, s));
        }
    }

    /// Merges every shard into one collector and finalizes it. The result
    /// is exactly what one collector would produce over the concatenation
    /// of all shards' streams, whatever the partition was.
    pub fn finalize(self, total_bytes: u64) -> (r: CollectionResults)
        requires
            self.wf(),
            total_size(combined(self.spec_shards())) <= total_bytes,
            combined(self.spec_shards()).len() < u32::MAX,
        ensures
            sorted_desc(r.buckets@),
            forall|i: int|
                0 <= i < r.buckets@.len() ==> {
                    &&& (#[trigger] r.buckets@[i]).bytes == cat_bytes(
                        self.spec_shards()[0].spec_categorizer(),
                        combined(self.spec_shards()),
                        r.buckets@[i].key@,
                    )
                    &&& r.buckets@[i].file_count == cat_count(
                        self.spec_shards()[0].spec_categorizer(),
                        combined(self.spec_shards()),
                        r.buckets@[i].key@,
                    )
                    &&& r.buckets@[i].label@ == self.spec_shards()[0].spec_categorizer(
                    ).spec_label(r.buckets@[i].key@)
                    &&& r.buckets@[i].percent_hundredths as int == (if total_bytes == 0 {
                        0int
                    } else {
                        r.buckets@[i].bytes * 10000 / (total_bytes as int)
                    })
                },
            forall|i: int, j: int|
                0 <= i < j < r.buckets@.len() ==> r.buckets@[i].key@ != r.buckets@[j].key@,
            forall|k: Seq<char>|
                #[trigger] cat_count(
                    self.spec_shards()[0].spec_categorizer(),
                    combined(self.spec_shards()),
                    k,
                ) != 0 ==> exists|i: int|
                    0 <= i < r.buckets@.len() && r.buckets@[i].key@ == k,
            key_sum(r.buckets@) == total_size(combined(self.spec_shards())),
            self.spec_shards()[0].spec_collect_tops() ==> sorted_desc(r.top_files@),
            self.spec_shards()[0].spec_collect_tops() ==> is_top_k(
                self.spec_top_n() as nat,
                size_seq(combined(self.spec_shards())).to_multiset(),
                key_multiset(r.top_files@),
            ),
            self.spec_shards()[0].spec_collect_tops() ==> forall|i: int|
                0 <= i < r.top_files@.len() ==> entry_from_records(
                    combined(self.spec_shards()),
                    #[trigger] r.top_files@[i],
                ),
            self.spec_shards()[0].spec_collect_tops() ==> sorted_desc(r.top_dirs@),
            self.spec_shards()[0].spec_collect_tops() ==> forall|i: int|
                0 <= i < r.top_dirs@.len() ==> dir_bytes(
                    combined(self.spec_shards()),
                    (#[trigger] r.top_dirs@[i]).path@,
                ) == r.top_dirs@[i].bytes,
            !self.spec_shards()[0].spec_collect_tops() ==> r.top_files@.len() == 0
                && r.top_dirs@.len() == 0,
    {
        let ghost orig = self.shards@;
        let ghost all = combined(orig);
        let ghost c0 = orig[0].spec_categorizer();
        let ghost ct = orig[0].spec_collect_tops();
        let mut shards = self.shards;
        let mut base = shards.remove(0);
        proof {
            assert(shards@ =~= orig.drop_first());
            assert(base == orig.first());
            assert(all =~= base.spec_processed() + combined(shards@));
        }
        while shards.len() > 0
            invariant
                base.wf(),
                base.spec_categorizer() == c0,
                base.spec_top_n() == self.spec_top_n(),
                base.spec_collect_tops() == ct,
                all =~= base.spec_processed() + combined(shards@),
                total_size(all) <= total_bytes,
                all.len() < u32::MAX,
                forall|i: int| 0 <= i < shards@.len() ==> (#[trigger] shards@[i]).wf(),
                forall|i: int|
                    0 <= i < shards@.len() ==> same_strategy(
                        (#[trigger] shards@[i]).spec_categorizer(),
                        c0,
                    ),
                forall|i: int|
                    0 <= i < shards@.len() ==> (#[trigger] shards@[i]).spec_top_n()
                        == self.spec_top_n(),
                forall|i: int|
                    0 <= i < shards@.len() ==> (#[trigger] shards@[i]).spec_collect_tops()
                        == ct,
            decreases shards@.len(),
        {
            let ghost before = shards@;
            let s = shards.remove(0);
            proof {
                assert(shards@ =~= before.drop_first());
                assert(s == before.first());
                assert(combined(before) =~= s.spec_processed() + combined(shards@));
                assert(all =~= base.spec_processed() + (s.spec_processed() + combined(
                    shards@,
                )));
                lemma_concat_totals(
                    c0,
                    base.spec_processed(),
                    s.spec_processed() + combined(shards@),
                    Seq::<char>::empty(),
                );
                lemma_concat_totals(
                    c0,
                    s.spec_processed(),
                    combined(shards@),
                    Seq::<char>::empty(),
                );
                lemma_total_nonneg(base.spec_processed());
                lemma_total_nonneg(s.spec_processed());
                lemma_total_nonneg(combined(shards@));
                lemma_total_nonneg(all);
                assert(total_size(base.spec_processed()) + total_size(s.spec_processed())
                    <= total_size(all));
                assert(base.spec_processed().len() + s.spec_processed().len() <= all.len());
                assert(same_strategy(base.spec_categorizer(), s.spec_categorizer())) by {
                    assert(same_strategy(s.spec_categorizer(), c0));
                }
            }
            let ghost base_recs = base.spec_processed();
            let ghost s_recs = s.spec_processed();
            base.merge(s);
            proof {
                assert(base.spec_processed() =~= base_recs + s_recs);
                assert(all =~= base.spec_processed() + combined(shards@)) by {
                    assert((base_recs + s_recs) + combined(shards@) =~= base_recs + (s_recs
                        + combined(shards@)));
                }
            }
        }
        proof {
            assert(combined(shards@) =~= Seq::<FileMetadataView>::empty());
            assert(all =~= base.spec_processed());
        }
        base.finalize(total_bytes)
    }
}

} // verus!
