//! Duplicate-content detection in three stages: group by exact size, then by
//! a quick hash over each file's first bytes, then by a full-content hash.
//! Only the grouping logic decides anything; file content arrives through a
//! caller-supplied reader, and the detector is verified for every outcome of
//! those reads.

use vstd::prelude::*;

verus! {

use crate::categorize::pairs_view;
use crate::rank::{Keyed, sorted_desc, sort_desc};

broadcast use {vstd::multiset::group_multiset_axioms, vstd::seq_lib::group_to_multiset_ensures};

/// What `blake3::hash` returns for these bytes, rendered in hexadecimal; a
/// function of the bytes alone.
pub uninterp spec fn blake3_hex_of(data: Seq<u8>) -> Seq<char>;

/// Relies on `blake3::hash`: a 32-byte digest of the bytes, rendered as 64
/// lowercase hexadecimal characters, named `blake3_hex_of`.
#[verifier::external_body]
fn blake3_hex(data: &Vec<u8>) -> (r: String)
    ensures
        r@ == blake3_hex_of(data@),
        r@.len() == 64,
{
    blake3::hash(data.as_slice()).to_hex().as_str().to_owned()
}

/// Hashes the first bytes of a file's content for the quick stage.
pub fn quick_hash(prefix: &Vec<u8>) -> (r: String)
    ensures
        r@ == blake3_hex_of(prefix@),
        r@.len() == 64,
{
    blake3_hex(prefix)
}

/// Supplies file content to the detector: the first bytes of a file for the
/// quick stage, and a streamed full-content hash for the full stage. What a
/// call returns depends on the file system, so nothing is assumed of it: the
/// detector is verified for every outcome, and a file whose content cannot
/// be read is dropped from its candidate group.
pub trait ContentHasher {
    /// Up to `limit` bytes from the start of the file at `path`, or `None`
    /// when the file cannot be read.
    fn read_prefix(&self, path: &String, limit: usize) -> Option<Vec<u8>>;

    /// A hash of the entire content of the file at `path`, computed in
    /// constant memory, or `None` when the file cannot be read.
    fn full_hash(&self, path: &String) -> Option<String>;
}

/// One group of byte-identical files.
#[derive(Debug, Clone)]
pub struct DuplicateGroup {
    pub size: u64,
    pub hash: String,
    pub paths: Vec<String>,
    pub wasted_space: u64,
}

impl Keyed for DuplicateGroup {
    open spec fn skey(&self) -> u64 {
        self.wasted_space
    }

    fn key(&self) -> (k: u64) {
        self.wasted_space
    }
}

/// The space wasted by a group: its size times all members but one, capped
/// at the largest representable value.
pub open spec fn wasted_of(size: u64, n: int) -> int {
    if size * (n - 1) <= u64::MAX {
        size * (n - 1)
    } else {
        u64::MAX as int
    }
}

/// The paths of the pairs that carry the hash `h`, in pair order.
pub open spec fn paths_with_hash(pairs: Seq<(Seq<char>, Seq<char>)>, h: Seq<char>) -> Seq<
    Seq<char>,
>
    decreases pairs.len(),
{
    if pairs.len() == 0 {
        Seq::empty()
    } else if pairs.last().1 == h {
        paths_with_hash(pairs.drop_last(), h).push(pairs.last().0)
    } else {
        paths_with_hash(pairs.drop_last(), h)
    }
}

/// Every path grouped under a hash is the path of some pair with that hash.
pub proof fn lemma_paths_from_pairs(pairs: Seq<(Seq<char>, Seq<char>)>, h: Seq<char>, t: int)
    requires
        0 <= t < paths_with_hash(pairs, h).len(),
    ensures
        exists|w: int|
            0 <= w < pairs.len() && #[trigger] pairs[w] == (paths_with_hash(pairs, h)[t], h),
    decreases pairs.len(),
{
    if pairs.len() > 0 {
        let rest = paths_with_hash(pairs.drop_last(), h);
        if pairs.last().1 == h && t == rest.len() {
            assert(pairs[pairs.len() - 1] == (paths_with_hash(pairs, h)[t], h));
        } else {
            lemma_paths_from_pairs(pairs.drop_last(), h, t);
            let w = choose|w: int|
                0 <= w < pairs.drop_last().len() && #[trigger] pairs.drop_last()[w] == (
                paths_with_hash(pairs.drop_last(), h)[t],
                h,
            );
            assert(pairs[w] == (paths_with_hash(pairs, h)[t], h));
        }
    }
}

/// One hash's members within a candidate group.
pub struct HashGroup {
    pub hash: String,
    pub paths: Vec<String>,
}

/// The views of a path list.
pub open spec fn paths_view(s: Seq<String>) -> Seq<Seq<char>> {
    s.map_values(|p: String| p@)
}

/// Copies a path list.
#[verifier::loop_isolation(false)]
fn clone_paths(src: &Vec<String>) -> (r: Vec<String>)
    ensures
        paths_view(r@) =~= paths_view(src@),
        r@.len() == src@.len(),
{
    let mut out: Vec<String> = Vec::new();
    let mut i: usize = 0;
    while i < src.len()
        invariant
            0 <= i <= src@.len(),
            paths_view(out@) =~= paths_view(src@).take(i as int),
        decreases src@.len() - i,
    {
        let ghost pre = paths_view(out@);
        out.push(src[i].clone());
        proof {
            assert(paths_view(out@) =~= pre.push(paths_view(src@)[i as int]));
            assert(paths_view(src@).take(i as int + 1) =~= paths_view(src@).take(
                i as int,
            ).push(paths_view(src@)[i as int]));
        }
        i = i + 1;
    }
    proof {
        assert(paths_view(src@).take(src@.len() as int) =~= paths_view(src@));
    }
    out
}

/// Groups paths by their hash: one group per hash that at least two pairs
/// carry, holding exactly the paths of those pairs, in pair order. Two
/// paths land in one group only when their recorded hashes are equal, and
/// every hash shared by two or more pairs gets its group.
#[verifier::loop_isolation(false)]
#[verifier::rlimit(100)]
#[verifier::spinoff_prover]
pub fn hash_groups(pairs: &Vec<(String, String)>) -> (g: Vec<HashGroup>)
    ensures
        forall|i: int|
            0 <= i < g@.len() ==> paths_view((#[trigger] g@[i]).paths@) == paths_with_hash(
                pairs_view(pairs@),
                g@[i].hash@,
            ),
        forall|i: int| 0 <= i < g@.len() ==> (#[trigger] g@[i]).paths@.len() >= 2,
        forall|i: int, j: int| 0 <= i < j < g@.len() ==> g@[i].hash@ != g@[j].hash@,
        forall|h: Seq<char>|
            #[trigger] paths_with_hash(pairs_view(pairs@), h).len() >= 2 ==> exists|i: int|
                0 <= i < g@.len() && (#[trigger] g@[i]).hash@ == h,
{
    let ghost pv = pairs_view(pairs@);
    let n = pairs.len();
    // Distinct hashes, in first-appearance order.
    let mut hs: Vec<String> = Vec::new();
    let mut i: usize = 0;
    while i < n
        invariant
            0 <= i <= n,
            n == pairs@.len(),
            forall|a: int, b: int|
                0 <= a < b < hs@.len() ==> paths_view(hs@)[a] != paths_view(hs@)[b],
            forall|w: int|
                0 <= w < i ==> exists|a: int|
                    0 <= a < hs@.len() && #[trigger] paths_view(hs@)[a] == (#[trigger] pv[
                        w
                    ]).1,
        decreases n - i,
    {
        let h = &pairs[i].1;
        let mut found = false;
        let mut a: usize = 0;
        while a < hs.len() && !found
            invariant
                0 <= a <= hs@.len(),
                found ==> exists|b: int|
                    0 <= b < hs@.len() && #[trigger] paths_view(hs@)[b] == h@,
                !found ==> forall|b: int| 0 <= b < a ==> paths_view(hs@)[b] != h@,
            decreases hs@.len() - a, (if found {
                0int
            } else {
                1int
            }),
        {
            if hs[a] == *h {
                proof {
                    assert(paths_view(hs@)[a as int] == h@);
                }
                found = true;
            } else {
                proof {
                    assert(paths_view(hs@)[a as int] != h@);
                }
                a = a + 1;
            }
        }
        let ghost pre = paths_view(hs@);
        if !found {
            hs.push(h.clone());
            proof {
                assert(paths_view(hs@) =~= pre.push(h@));
                assert(paths_view(hs@)[pre.len() as int] == h@);
            }
        }
        proof {
            assert(pv[i as int].1 == h@);
            assert forall|w: int| 0 <= w < i + 1 implies exists|a2: int|
                0 <= a2 < hs@.len() && #[trigger] paths_view(hs@)[a2] == (#[trigger] pv[
                    w
                ]).1 by {
                if w < i {
                    let a2 = choose|a2: int|
                        0 <= a2 < pre.len() && #[trigger] pre[a2] == pv[w].1;
                    assert(paths_view(hs@)[a2] == pv[w].1);
                } else {
                    if found {
                        let b = choose|b: int|
                            0 <= b < pre.len() && #[trigger] pre[b] == h@;
                        assert(paths_view(hs@)[b] == pv[w].1);
                    } else {
                        assert(paths_view(hs@)[pre.len() as int] == pv[w].1);
                    }
                }
            }
        }
        i = i + 1;
    }
    // One group per hash with at least two members.
    let mut g: Vec<HashGroup> = Vec::new();
    let mut a: usize = 0;
    while a < hs.len()
        invariant
            0 <= a <= hs@.len(),
            forall|x: int, y: int|
                0 <= x < y < hs@.len() ==> paths_view(hs@)[x] != paths_view(hs@)[y],
            forall|x: int|
                0 <= x < g@.len() ==> paths_view((#[trigger] g@[x]).paths@) == paths_with_hash(
                    pv,
                    g@[x].hash@,
                ),
            forall|x: int| 0 <= x < g@.len() ==> (#[trigger] g@[x]).paths@.len() >= 2,
            forall|x: int, y: int| 0 <= x < y < g@.len() ==> g@[x].hash@ != g@[y].hash@,
            forall|x: int|
                0 <= x < g@.len() ==> exists|b: int|
                    0 <= b < a && paths_view(hs@)[b] == (#[trigger] g@[x]).hash@,
            forall|b: int|
                0 <= b < a && paths_with_hash(pv, paths_view(hs@)[b]).len() >= 2
                    ==> exists|x: int|
                    0 <= x < g@.len() && (#[trigger] g@[x]).hash@ == paths_view(hs@)[b],
        decreases hs@.len() - a,
    {
        let h = &hs[a];
        let mut members: Vec<String> = Vec::new();
        let mut w: usize = 0;
        while w < n
            invariant
                0 <= w <= n,
                n == pairs@.len(),
                h@ == paths_view(hs@)[a as int],
                0 <= a < hs@.len(),
                paths_view(members@) =~= paths_with_hash(pv.take(w as int), h@),
            decreases n - w,
        {
            proof {
                assert(pv.take(w as int + 1).drop_last() =~= pv.take(w as int));
                assert(pv.take(w as int + 1).last() == pv[w as int]);
            }
            if pairs[w].1 == *h {
                let ghost pre = paths_view(members@);
                members.push(pairs[w].0.clone());
                proof {
                    assert(pv[w as int].1 == h@);
                    assert(paths_view(members@) =~= pre.push(pv[w as int].0));
                }
            } else {
                proof {
                    assert(pv[w as int].1 != h@);
                }
            }
            w = w + 1;
        }
        proof {
            assert(pv.take(n as int) =~= pv);
        }
        if members.len() >= 2 {
            let ghost gpre = g@;
            g.push(HashGroup { hash: h.clone(), paths: members });
            proof {
                assert(g@.drop_last() =~= gpre);
                assert(g@.last().hash@ == paths_view(hs@)[a as int]);
                assert forall|x: int, y: int|
                    0 <= x < y < g@.len() implies g@[x].hash@ != g@[y].hash@ by {
                    if y == g@.len() - 1 {
                        let b = choose|b: int|
                            0 <= b < a && #[trigger] paths_view(hs@)[b] == gpre[x].hash@;
                        assert(paths_view(hs@)[b] != paths_view(hs@)[a as int]);
                    }
                }
            }
        }
        proof {
            assert forall|b: int|
                0 <= b < a + 1 && paths_with_hash(pv, paths_view(hs@)[b]).len() >= 2
                implies exists|x: int|
                0 <= x < g@.len() && (#[trigger] g@[x]).hash@ == paths_view(hs@)[b] by {
                if b == a {
                    assert(g@[g@.len() - 1].hash@ == paths_view(hs@)[b]);
                }
            }
        }
        a = a + 1;
    }
    proof {
        assert forall|h: Seq<char>|
            #[trigger] paths_with_hash(pv, h).len() >= 2 implies exists|x: int|
            0 <= x < g@.len() && (#[trigger] g@[x]).hash@ == h by {
            lemma_paths_from_pairs(pv, h, 0);
            let w = choose|w: int|
                0 <= w < pv.len() && #[trigger] pv[w] == (paths_with_hash(pv, h)[0], h);
            assert(pv[w].1 == h);
            let b = choose|b: int|
                0 <= b < hs@.len() && paths_view(hs@)[b] == (#[trigger] pv[w]).1;
            assert(paths_with_hash(pv, paths_view(hs@)[b]).len() >= 2);
        }
    }
    g
}

/// One size's candidate members during stage 0.
pub struct SizeGroup {
    pub size: u64,
    pub paths: Vec<String>,
}

/// Stage 0 of the detector: every ingested path, bucketed by exact size.
pub struct DuplicateFinder {
    size_groups: Vec<SizeGroup>,
}

impl DuplicateFinder {
    /// The size buckets as specifications see them.
    pub closed spec fn spec_groups(&self) -> Seq<(u64, Seq<Seq<char>>)> {
        self.size_groups@.map_values(|sg: SizeGroup| (sg.size, paths_view(sg.paths@)))
    }

    /// Every size has one bucket, and no bucket is empty.
    pub open spec fn wf(&self) -> bool {
        &&& forall|i: int, j: int|
            0 <= i < j < self.spec_groups().len() ==> self.spec_groups()[i].0
                != self.spec_groups()[j].0
        &&& forall|i: int|
            0 <= i < self.spec_groups().len() ==> (#[trigger] self.spec_groups()[i]).1.len()
                >= 1
    }

    /// Creates an empty detector.
    pub fn new() -> (r: Self)
        ensures
            r.wf(),
            r.spec_groups() =~= Seq::<(u64, Seq<Seq<char>>)>::empty(),
    {
        let r = DuplicateFinder { size_groups: Vec::new() };
        proof {
            assert(r.spec_groups() =~= Seq::<(u64, Seq<Seq<char>>)>::empty());
        }
        r
    }

    /// The paths bucketed under a size; empty for a size never seen.
    pub open spec fn bucket_of(gs: Seq<(u64, Seq<Seq<char>>)>, size: u64) -> Seq<Seq<char>> {
        if exists|i: int| 0 <= i < gs.len() && (#[trigger] gs[i]).0 == size {
            gs[choose|i: int| 0 <= i < gs.len() && (#[trigger] gs[i]).0 == size].1
        } else {
            Seq::empty()
        }
    }

    /// Ingests one file: its path joins its exact size's bucket.
    pub fn add_file(&mut self, path: String, size: u64)
        requires
            old(self).wf(),
        ensures
            final(self).wf(),
            forall|s: u64|
                #[trigger] Self::bucket_of(final(self).spec_groups(), s) == if s == size {
                    Self::bucket_of(old(self).spec_groups(), s).push(path@)
                } else {
                    Self::bucket_of(old(self).spec_groups(), s)
                },
    {
        let ghost gs0 = self.spec_groups();
        let n = self.size_groups.len();
        let mut i: usize = 0;
        while i < n
            invariant
                0 <= i <= n,
                n == self.spec_groups().len(),
                *self == *old(self),
                gs0 == self.spec_groups(),
                old(self).wf(),
                forall|t: int| 0 <= t < i ==> (#[trigger] gs0[t]).0 != size,
            decreases n - i,
        {
            if self.size_groups[i].size == size {
                proof {
                    assert(gs0[i as int].0 == size);
                }
                let ghost vec0 = self.size_groups@;
                let mut sg = self.size_groups.remove(i);
                let ghost sgold = sg;
                sg.paths.push(path);
                proof {
                    assert(paths_view(sg.paths@) =~= paths_view(sgold.paths@).push(path@));
                    assert(gs0[i as int].1 == paths_view(sgold.paths@));
                    assert(sg.size == size);
                }
                self.size_groups.insert(i, sg);
                proof {
                    let ghost sgnew = self.size_groups@[i as int];
                    assert(self.size_groups@ =~= vec0.update(i as int, sgnew));
                    let target = gs0.update(i as int, (size, gs0[i as int].1.push(path@)));
                    assert forall|t: int|
                        0 <= t < gs0.len() implies self.spec_groups()[t] == target[t] by {
                        if t == i {
                            assert(self.spec_groups()[t] == (sgnew.size, paths_view(
                                sgnew.paths@,
                            )));
                            assert(paths_view(sgnew.paths@) == gs0[i as int].1.push(path@));
                        } else {
                            assert(self.size_groups@[t] == vec0[t]);
                        }
                    }
                    assert(self.spec_groups() =~= target);
                    bucket_update_facts(gs0, i as int, size, path@);
                    assert forall|x: int, y: int|
                        0 <= x < y < self.spec_groups().len()
                        implies self.spec_groups()[x].0 != self.spec_groups()[y].0 by {
                        assert(target[x].0 == gs0[x].0);
                        assert(target[y].0 == gs0[y].0);
                    }
                    assert forall|x: int|
                        0 <= x < self.spec_groups().len()
                        implies (#[trigger] self.spec_groups()[x]).1.len() >= 1 by {
                        if x != i {
                            assert(target[x] == gs0[x]);
                        }
                    }
                }
                return ;
            }
            proof {
                assert(gs0[i as int].0 != size);
            }
            i = i + 1;
        }
        let ghost vec0 = self.size_groups@;
        let mut paths: Vec<String> = Vec::new();
        paths.push(path);
        proof {
            assert(paths_view(paths@) =~= Seq::<Seq<char>>::empty().push(path@));
        }
        self.size_groups.push(SizeGroup { size, paths });
        proof {
            assert(forall|t: int| 0 <= t < gs0.len() ==> (#[trigger] gs0[t]).0 != size);
            let target = gs0.push((size, Seq::<Seq<char>>::empty().push(path@)));
            assert forall|t: int|
                0 <= t < target.len() implies self.spec_groups()[t] == target[t] by {
                if t < gs0.len() {
                    assert(self.size_groups@[t] == vec0[t]);
                } else {
                    let sgnew = self.size_groups@[t];
                    assert(self.spec_groups()[t] == (sgnew.size, paths_view(sgnew.paths@)));
                }
            }
            assert(self.spec_groups() =~= target);
            bucket_push_facts(gs0, size, path@);
            assert forall|x: int, y: int|
                0 <= x < y < self.spec_groups().len()
                implies self.spec_groups()[x].0 != self.spec_groups()[y].0 by {
                if y < gs0.len() {
                    assert(target[x].0 == gs0[x].0);
                    assert(target[y].0 == gs0[y].0);
                } else {
                    assert(target[x].0 == gs0[x].0);
                    assert(target[y].0 == size);
                }
            }
            assert forall|x: int|
                0 <= x < self.spec_groups().len()
                implies (#[trigger] self.spec_groups()[x]).1.len() >= 1 by {
                if x < gs0.len() {
                    assert(target[x] == gs0[x]);
                }
            }
        }
    }
}

/// One reported group's paths all come from the size bucket of its size,
/// which held at least two candidates.
pub open spec fn group_from_bucket(gs: Seq<(u64, Seq<Seq<char>>)>, d: DuplicateGroup) -> bool {
    &&& DuplicateFinder::bucket_of(gs, d.size).len() >= 2
    &&& forall|t: int|
        0 <= t < d.paths@.len() ==> DuplicateFinder::bucket_of(gs, d.size).contains(
            #[trigger] paths_view(d.paths@)[t],
        )
}

impl DuplicateFinder {
    /// Runs the staged detection and returns every group of files whose
    /// size, quick hash and full hash all agree, sorted descending by wasted
    /// space. A file whose content cannot be read is dropped silently from
    /// its candidate group; whatever the reads return, every reported group
    /// holds at least two paths of one size bucket that itself held at least
    /// two candidates, and its wasted space is its size times all members
    /// but one, capped at the largest representable value.
    #[verifier::loop_isolation(false)]
    #[verifier::rlimit(100)]
    #[verifier::spinoff_prover]
    pub fn find_duplicates<H: ContentHasher>(&self, hasher: &H) -> (dups: Vec<DuplicateGroup>)
        requires
            self.wf(),
        ensures
            sorted_desc(dups@),
            forall|i: int| 0 <= i < dups@.len() ==> (#[trigger] dups@[i]).paths@.len() >= 2,
            forall|i: int|
                0 <= i < dups@.len() ==> (#[trigger] dups@[i]).wasted_space as int
                    == wasted_of(dups@[i].size, dups@[i].paths@.len() as int),
            forall|i: int|
                0 <= i < dups@.len() ==> group_from_bucket(
                    self.spec_groups(),
                    #[trigger] dups@[i],
                ),
    {
        let mut out: Vec<DuplicateGroup> = Vec::new();
        let ng = self.size_groups.len();
        let mut gi: usize = 0;
        while gi < ng
            invariant
                0 <= gi <= ng,
                forall|x: int| 0 <= x < out@.len() ==> (#[trigger] out@[x]).paths@.len() >= 2,
                forall|x: int|
                    0 <= x < out@.len() ==> (#[trigger] out@[x]).wasted_space as int
                        == wasted_of(out@[x].size, out@[x].paths@.len() as int),
                forall|x: int|
                    0 <= x < out@.len() ==> group_from_bucket(
                        self.spec_groups(),
                        #[trigger] out@[x],
                    ),
            decreases ng - gi,
        {
            let sg = &self.size_groups[gi];
            let ghost bucket = paths_view(sg.paths@);
            proof {
                assert(self.spec_groups()[gi as int] == (sg.size, bucket));
                assert(Self::bucket_of(self.spec_groups(), sg.size) == bucket) by {
                    assert((self.spec_groups()[gi as int]).0 == sg.size);
                    let w = choose|w: int|
                        0 <= w < self.spec_groups().len() && (#[trigger] self.spec_groups()[
                            w
                        ]).0 == sg.size;
                    if w != gi {
                        assert(false);
                    }
                }
            }
            if sg.paths.len() >= 2 {
                // Stage 1: quick hashes over each readable file's first bytes.
                let mut qpairs: Vec<(String, String)> = Vec::new();
                let mut pi: usize = 0;
                while pi < sg.paths.len()
                    invariant
                        0 <= pi <= sg.paths@.len(),
                        forall|t: int|
                            0 <= t < qpairs@.len() ==> bucket.contains(
                                (#[trigger] pairs_view(qpairs@)[t]).0,
                            ),
                    decreases sg.paths@.len() - pi,
                {
                    match hasher.read_prefix(&sg.paths[pi], 4096) {
                        Option::Some(bytes) => {
                            let qh = blake3_hex(&bytes);
                            let ghost qv0 = pairs_view(qpairs@);
                            qpairs.push((sg.paths[pi].clone(), qh));
                            proof {
                                assert(pairs_view(qpairs@) =~= qv0.push(
                                    (bucket[pi as int], qh@),
                                ));
                                assert(bucket.contains(bucket[pi as int]));
                            }
                        },
                        Option::None => {},
                    }
                    pi = pi + 1;
                }
                let qgroups = hash_groups(&qpairs);
                let mut qi: usize = 0;
                while qi < qgroups.len()
                    invariant
                        0 <= qi <= qgroups@.len(),
                        forall|x: int|
                            0 <= x < out@.len() ==> (#[trigger] out@[x]).paths@.len() >= 2,
                        forall|x: int|
                            0 <= x < out@.len() ==> (#[trigger] out@[x]).wasted_space as int
                                == wasted_of(out@[x].size, out@[x].paths@.len() as int),
                        forall|x: int|
                            0 <= x < out@.len() ==> group_from_bucket(
                                self.spec_groups(),
                                #[trigger] out@[x],
                            ),
                    decreases qgroups@.len() - qi,
                {
                    let qg = &qgroups[qi];
                    let ghost qmembers = paths_view(qg.paths@);
                    proof {
                        assert forall|t: int| 0 <= t < qmembers.len() implies bucket.contains(
                            #[trigger] qmembers[t],
                        ) by {
                            assert(qmembers[t] == paths_with_hash(
                                pairs_view(qpairs@),
                                qg.hash@,
                            )[t]);
                            lemma_paths_from_pairs(pairs_view(qpairs@), qg.hash@, t);
                            let w = choose|w: int|
                                0 <= w < pairs_view(qpairs@).len() && #[trigger] pairs_view(
                                    qpairs@,
                                )[w] == (paths_with_hash(pairs_view(qpairs@), qg.hash@)[t],
                                qg.hash@);
                        }
                    }
                    // Stage 2: full-content hashes over the quick-hash group.
                    let mut fpairs: Vec<(String, String)> = Vec::new();
                    let mut ti: usize = 0;
                    while ti < qg.paths.len()
                        invariant
                            0 <= ti <= qg.paths@.len(),
                            forall|t: int|
                                0 <= t < fpairs@.len() ==> qmembers.contains(
                                    (#[trigger] pairs_view(fpairs@)[t]).0,
                                ),
                        decreases qg.paths@.len() - ti,
                    {
                        match hasher.full_hash(&qg.paths[ti]) {
                            Option::Some(fh) => {
                                let ghost fv0 = pairs_view(fpairs@);
                                fpairs.push((qg.paths[ti].clone(), fh));
                                proof {
                                    assert(pairs_view(fpairs@) =~= fv0.push(
                                        (qmembers[ti as int], fh@),
                                    ));
                                    assert(qmembers.contains(qmembers[ti as int]));
                                }
                            },
                            Option::None => {},
                        }
                        ti = ti + 1;
                    }
                    let fgroups = hash_groups(&fpairs);
                    let mut fi: usize = 0;
                    while fi < fgroups.len()
                        invariant
                            0 <= fi <= fgroups@.len(),
                            forall|x: int|
                                0 <= x < out@.len() ==> (#[trigger] out@[x]).paths@.len()
                                    >= 2,
                            forall|x: int|
                                0 <= x < out@.len() ==> (#[trigger] out@[
                                    x
                                ]).wasted_space as int == wasted_of(
                                    out@[x].size,
                                    out@[x].paths@.len() as int,
                                ),
                            forall|x: int|
                                0 <= x < out@.len() ==> group_from_bucket(
                                    self.spec_groups(),
                                    #[trigger] out@[x],
                                ),
                        decreases fgroups@.len() - fi,
                    {
                        let fg = &fgroups[fi];
                        let members = clone_paths(&fg.paths);
                        let cnt = members.len();
                        let wasted: u64 = match sg.size.checked_mul((cnt - 1) as u64) {
                            Option::Some(w) => w,
                            Option::None => u64::MAX,
                        };
                        let d = DuplicateGroup {
                            size: sg.size,
                            hash: fg.hash.clone(),
                            paths: members,
                            wasted_space: wasted,
                        };
                        proof {
                            assert(d.paths@.len() >= 2);
                            assert(wasted as int == wasted_of(d.size, d.paths@.len() as int));
                            assert forall|t: int|
                                0 <= t < d.paths@.len() implies Self::bucket_of(
                                self.spec_groups(),
                                d.size,
                            ).contains(#[trigger] paths_view(d.paths@)[t]) by {
                                assert(paths_view(d.paths@)[t] == paths_view(fg.paths@)[t]);
                                assert(paths_view(fg.paths@)[t] == paths_with_hash(
                                    pairs_view(fpairs@),
                                    fg.hash@,
                                )[t]);
                                lemma_paths_from_pairs(pairs_view(fpairs@), fg.hash@, t);
                                let w = choose|w: int|
                                    0 <= w < pairs_view(fpairs@).len() && #[trigger] pairs_view(
                                        fpairs@,
                                    )[w] == (paths_with_hash(pairs_view(fpairs@), fg.hash@)[
                                        t
                                    ], fg.hash@);
                                assert(qmembers.contains(pairs_view(fpairs@)[w].0));
                                let u = choose|u: int|
                                    0 <= u < qmembers.len() && #[trigger] qmembers[u]
                                        == pairs_view(fpairs@)[w].0;
                                assert(bucket.contains(qmembers[u]));
                            }
                            assert(group_from_bucket(self.spec_groups(), d));
                        }
                        out.push(d);
                        fi = fi + 1;
                    }
                    qi = qi + 1;
                }
            }
            gi = gi + 1;
        }
        let ghost out_final = out@;
        let dups = sort_desc(out);
        proof {
            assert forall|i: int| 0 <= i < dups@.len() implies {
                &&& (#[trigger] dups@[i]).paths@.len() >= 2
                &&& dups@[i].wasted_space as int == wasted_of(
                    dups@[i].size,
                    dups@[i].paths@.len() as int,
                )
                &&& group_from_bucket(self.spec_groups(), dups@[i])
            } by {
                assert(dups@.contains(dups@[i]));
                assert(dups@.to_multiset().count(dups@[i]) > 0);
                assert(out_final.to_multiset().count(dups@[i]) > 0);
                assert(out_final.contains(dups@[i]));
                let w = choose|w: int|
                    0 <= w < out_final.len() && #[trigger] out_final[w] == dups@[i];
            }
        }
        dups
    }
}

/// Extending one size's bucket changes that size's bucket alone.
proof fn bucket_update_facts(gs: Seq<(u64, Seq<Seq<char>>)>, i: int, size: u64, p: Seq<char>)
    requires
        forall|x: int, y: int| 0 <= x < y < gs.len() ==> gs[x].0 != gs[y].0,
        0 <= i < gs.len(),
        gs[i].0 == size,
    ensures
        forall|s: u64|
            #[trigger] DuplicateFinder::bucket_of(gs.update(i, (size, gs[i].1.push(p))), s)
                == if s == size {
                DuplicateFinder::bucket_of(gs, s).push(p)
            } else {
                DuplicateFinder::bucket_of(gs, s)
            },
{
    let gs1 = gs.update(i, (size, gs[i].1.push(p)));
    assert forall|s: u64|
        #[trigger] DuplicateFinder::bucket_of(gs1, s) == (if s == size {
            DuplicateFinder::bucket_of(gs, s).push(p)
        } else {
            DuplicateFinder::bucket_of(gs, s)
        }) by {
        if s == size {
            assert(gs1[i].0 == s);
            let w = choose|w: int| 0 <= w < gs1.len() && (#[trigger] gs1[w]).0 == s;
            if w != i {
                assert(gs[w].0 == s);
                assert(false);
            }
            let w0 = choose|w0: int| 0 <= w0 < gs.len() && (#[trigger] gs[w0]).0 == s;
            if w0 != i {
                assert(false);
            }
        } else {
            if exists|w: int| 0 <= w < gs1.len() && (#[trigger] gs1[w]).0 == s {
                let w = choose|w: int| 0 <= w < gs1.len() && (#[trigger] gs1[w]).0 == s;
                assert(w != i);
                assert(gs[w].0 == s);
                let w0 = choose|w0: int| 0 <= w0 < gs.len() && (#[trigger] gs[w0]).0 == s;
                if w0 != w {
                    assert(false);
                }
                assert(gs1[w].1 == gs[w0].1);
            } else {
                if exists|w0: int| 0 <= w0 < gs.len() && (#[trigger] gs[w0]).0 == s {
                    let w0 = choose|w0: int| 0 <= w0 < gs.len() && (#[trigger] gs[w0]).0 == s;
                    assert(gs1[w0].0 == s);
                    assert(false);
                }
            }
        }
    }
}

/// Appending a new size's bucket changes that size's bucket alone.
proof fn bucket_push_facts(gs: Seq<(u64, Seq<Seq<char>>)>, size: u64, p: Seq<char>)
    requires
        forall|x: int, y: int| 0 <= x < y < gs.len() ==> gs[x].0 != gs[y].0,
        forall|t: int| 0 <= t < gs.len() ==> (#[trigger] gs[t]).0 != size,
    ensures
        forall|s: u64|
            #[trigger] DuplicateFinder::bucket_of(
                gs.push((size, Seq::<Seq<char>>::empty().push(p))),
                s,
            ) == if s == size {
                DuplicateFinder::bucket_of(gs, s).push(p)
            } else {
                DuplicateFinder::bucket_of(gs, s)
            },
{
    let gs1 = gs.push((size, Seq::<Seq<char>>::empty().push(p)));
    assert forall|s: u64|
        #[trigger] DuplicateFinder::bucket_of(gs1, s) == (if s == size {
            DuplicateFinder::bucket_of(gs, s).push(p)
        } else {
            DuplicateFinder::bucket_of(gs, s)
        }) by {
        if s == size {
            assert(gs1[gs.len() as int].0 == s);
            let w = choose|w: int| 0 <= w < gs1.len() && (#[trigger] gs1[w]).0 == s;
            if w != gs.len() {
                assert(gs[w].0 == s);
                assert(false);
            }
            if exists|w0: int| 0 <= w0 < gs.len() && (#[trigger] gs[w0]).0 == s {
                let w0 = choose|w0: int| 0 <= w0 < gs.len() && (#[trigger] gs[w0]).0 == s;
                assert(false);
            }
            assert(DuplicateFinder::bucket_of(gs, s) =~= Seq::<Seq<char>>::empty());
            assert(gs1[w].1 =~= DuplicateFinder::bucket_of(gs, s).push(p));
        } else {
            if exists|w: int| 0 <= w < gs1.len() && (#[trigger] gs1[w]).0 == s {
                let w = choose|w: int| 0 <= w < gs1.len() && (#[trigger] gs1[w]).0 == s;
                assert(w != gs.len());
                assert(gs[w].0 == s);
                let w0 = choose|w0: int| 0 <= w0 < gs.len() && (#[trigger] gs[w0]).0 == s;
                if w0 != w {
                    assert(false);
                }
            } else {
                if exists|w0: int| 0 <= w0 < gs.len() && (#[trigger] gs[w0]).0 == s {
                    let w0 = choose|w0: int| 0 <= w0 < gs.len() && (#[trigger] gs[w0]).0 == s;
                    assert(gs1[w0].0 == s);
                    assert(false);
                }
            }
        }
    }
}

} // verus!
