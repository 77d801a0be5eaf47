//! Path interning: each distinct path is stored once and addressed by a
//! small stable identifier, assigned in first-sight order.

use vstd::prelude::*;

verus! {

/// A pool of distinct paths; the identifier of a path is its index.
pub struct PathPool {
    paths: Vec<String>,
}

/// Whether `p` occurs in the pool's paths.
pub open spec fn pool_has(ps: Seq<Seq<char>>, p: Seq<char>) -> bool {
    exists|i: int| 0 <= i < ps.len() && ps[i] == p
}

/// The index of `p` in the pool's paths.
pub open spec fn pool_index_of(ps: Seq<Seq<char>>, p: Seq<char>) -> int {
    choose|i: int| 0 <= i < ps.len() && ps[i] == p
}

/// No path occurs twice.
pub open spec fn paths_distinct(ps: Seq<Seq<char>>) -> bool {
    forall|i: int, j: int| 0 <= i < j < ps.len() ==> ps[i] != ps[j]
}

impl PathPool {
    /// The stored paths, in identifier order.
    pub closed spec fn spec_paths(&self) -> Seq<Seq<char>> {
        self.paths@.map_values(|p: String| p@)
    }

    /// No path is stored twice.
    pub open spec fn wf(&self) -> bool {
        paths_distinct(self.spec_paths())
    }

    /// Creates an empty pool.
    pub fn new() -> (r: Self)
        ensures
            r.wf(),
            r.spec_paths() =~= Seq::<Seq<char>>::empty(),
    {
        let r = PathPool { paths: Vec::new() };
        proof {
            assert(r.spec_paths() =~= Seq::<Seq<char>>::empty());
        }
        r
    }

    /// Interns a path: an already-seen path keeps its identifier and the pool
    /// is unchanged; a new path is appended and assigned the next identifier.
    pub fn intern(&mut self, path: &String) -> (id: u32)
        requires
            old(self).wf(),
            old(self).spec_paths().len() < u32::MAX,
        ensures
            final(self).wf(),
            id < final(self).spec_paths().len(),
            final(self).spec_paths()[id as int] == path@,
            pool_has(old(self).spec_paths(), path@) ==> {
                &&& final(self).spec_paths() == old(self).spec_paths()
                &&& id as int == pool_index_of(old(self).spec_paths(), path@)
            },
            !pool_has(old(self).spec_paths(), path@) ==> {
                &&& final(self).spec_paths() =~= old(self).spec_paths().push(path@)
                &&& id as int == old(self).spec_paths().len()
            },
    {
        let n = self.paths.len();
        let mut i: usize = 0;
        while i < n
            invariant
                0 <= i <= n,
                n == self.spec_paths().len(),
                n < u32::MAX,
                old(self).wf(),
                *self == *old(self),
                forall|j: int| 0 <= j < i ==> old(self).spec_paths()[j] != path@,
            decreases n - i,
        {
            if self.paths[i] == *path {
                proof {
                    assert(self.spec_paths()[i as int] == path@);
                    assert(pool_has(self.spec_paths(), path@));
                    let w = pool_index_of(old(self).spec_paths(), path@);
                    if w != i {
                        assert(old(self).spec_paths()[w] == old(self).spec_paths()[i as int]);
                        assert(false);
                    }
                }
                return i as u32;
            }
            i = i + 1;
        }
        proof {
            if pool_has(old(self).spec_paths(), path@) {
                let w = pool_index_of(old(self).spec_paths(), path@);
                assert(old(self).spec_paths()[w] == path@);
                assert(false);
            }
        }
        let ghost before = self.spec_paths();
        self.paths.push(path.clone());
        proof {
            assert(self.spec_paths() =~= before.push(path@));
        }
        n as u32
    }

    /// Returns the path of an identifier this pool issued; `None` for any
    /// other identifier.
    pub fn get(&self, id: u32) -> (r: Option<&String>)
        ensures
            (id as int) < self.spec_paths().len() ==> (r matches Option::Some(p) && p@
                == self.spec_paths()[id as int]),
            (id as int) >= self.spec_paths().len() ==> r is None,
    {
        if (id as usize) < self.paths.len() {
            Option::Some(&self.paths[id as usize])
        } else {
            Option::None
        }
    }

    /// The path at a position, for walking the pool in identifier order.
    pub fn path_at(&self, i: usize) -> (p: &String)
        requires
            i < self.spec_paths().len(),
        ensures
            p@ == self.spec_paths()[i as int],
    {
        &self.paths[i]
    }

    /// The number of distinct paths stored.
    pub fn len(&self) -> (n: usize)
        ensures
            n == self.spec_paths().len(),
    {
        self.paths.len()
    }

    /// Whether the pool holds no path.
    pub fn is_empty(&self) -> (b: bool)
        ensures
            b == (self.spec_paths().len() == 0),
    {
        self.paths.len() == 0
    }
}

} // verus!
