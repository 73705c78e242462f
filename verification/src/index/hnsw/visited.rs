//! Generation-stamped visited sets, pooled for reuse across searches.
//!
//! A graph traversal must mark nodes visited. Instead of allocating a fresh set per
//! search, each [`VisitedList`] keeps a generation counter and a vector of stamps:
//! "clearing" just advances the generation.

use vstd::prelude::*;
use vstd::rwlock::RwLock;
use vstd::rwlock::RwLockPredicate;

verus! {

/// A reusable visited set sized to the number of points.
pub struct VisitedList {
    /// The current generation; a stamp equal to it marks a visited point.
    pub generation: u32,
    /// The generation in which each point was last visited.
    pub stamps: Vec<u32>,
}

impl VisitedList {
    /// No stamp lies ahead of the generation, and no fresh stamp equals it.
    pub open spec fn wf(&self) -> bool {
        &&& self.generation >= 1
        &&& forall|i: int|
            0 <= i < self.stamps@.len() ==> (#[trigger] self.stamps@[i]) <= self.generation
    }

    /// The number of points that can be marked.
    pub open spec fn capacity(&self) -> nat {
        self.stamps@.len()
    }

    /// The points visited in this generation.
    pub open spec fn seen(&self) -> Set<u32> {
        Set::new(|i: u32| i < self.stamps@.len() && self.stamps@[i as int] == self.generation)
    }

    /// Creates a visited set for `n` points.
    pub fn new(n: usize) -> (list: VisitedList)
        ensures
            list.wf(),
            list.capacity() == n,
            list.seen() == Set::<u32>::empty(),
    {
        let mut stamps: Vec<u32> = Vec::new();
        stamps.resize(n, 0);
        let list = VisitedList { generation: 1, stamps };
        assert(list.seen() =~= Set::<u32>::empty());
        list
    }

    /// Grows the set to hold at least `n` points; what was visited stays visited.
    pub fn ensure_capacity(&mut self, n: usize)
        requires
            old(self).wf(),
        ensures
            final(self).wf(),
            final(self).capacity() == if old(self).capacity() < n {
                n as nat
            } else {
                old(self).capacity()
            },
            final(self).seen() == old(self).seen(),
    {
        let ghost before = self.seen();
        let ghost stamps = self.stamps@;
        if self.stamps.len() < n {
            self.stamps.resize(n, 0);
            assert forall|i: int| 0 <= i < self.stamps@.len() implies (#[trigger] self.stamps@[i])
                <= self.generation by {
                if i < stamps.len() {
                    assert(self.stamps@.subrange(0, stamps.len() as int)[i] == stamps[i]);
                }
            }
            assert forall|i: u32| before.contains(i) <==> self.seen().contains(i) by {
                if i < stamps.len() {
                    assert(self.stamps@.subrange(0, stamps.len() as int)[i as int] == stamps[i as int]);
                }
            }
        }
        assert(self.seen() =~= before);
    }

    /// Forgets every mark by advancing the generation.
    pub fn clear(&mut self)
        requires
            old(self).wf(),
        ensures
            final(self).wf(),
            final(self).capacity() == old(self).capacity(),
            final(self).seen() == Set::<u32>::empty(),
    {
        if self.generation == u32::MAX {
            // The counter is spent: wipe the stamps once, then resume.
            let n: usize = self.stamps.len();
            let mut i: usize = 0;
            while i < n
                invariant
                    n == self.stamps@.len(),
                    n == old(self).stamps@.len(),
                    i <= n,
                    forall|j: int| 0 <= j < i ==> (#[trigger] self.stamps@[j]) == 0,
                decreases n - i,
            {
                self.stamps[i] = 0;
                i = i + 1;
            }
            self.generation = 1;
        } else {
            self.generation = self.generation + 1;
        }
        assert(self.seen() =~= Set::<u32>::empty());
    }

    /// Marks `i` visited, returning `true` if it was **not** already visited this
    /// generation.
    pub fn visit(&mut self, i: u32) -> (fresh: bool)
        requires
            old(self).wf(),
            i < old(self).capacity(),
        ensures
            final(self).wf(),
            final(self).capacity() == old(self).capacity(),
            final(self).seen() == old(self).seen().insert(i),
            fresh == !old(self).seen().contains(i),
    {
        let ghost before = self.seen();
        let idx: usize = i as usize;
        if self.stamps[idx] == self.generation {
            assert(self.seen() =~= before.insert(i));
            false
        } else {
            self.stamps[idx] = self.generation;
            assert(self.seen() =~= before.insert(i));
            true
        }
    }
}

/// What a pool keeps of the lists in it: each is well-formed.
pub struct PooledLists;

impl RwLockPredicate<Vec<VisitedList>> for PooledLists {
    open spec fn inv(self, lists: Vec<VisitedList>) -> bool {
        forall|i: int| 0 <= i < lists@.len() ==> (#[trigger] lists@[i]).wf()
    }
}

/// A pool of [`VisitedList`]s for `n`-point graphs, shared by concurrent searches.
pub struct VisitedPool {
    /// The number of points of the graphs searched.
    pub n: usize,
    /// The lists returned for reuse.
    pub free: RwLock<Vec<VisitedList>, PooledLists>,
}

impl VisitedPool {
    /// Creates a pool for graphs of `n` points.
    pub fn new(n: usize) -> (pool: VisitedPool)
        ensures
            pool.n == n,
    {
        VisitedPool { n, free: RwLock::new(Vec::new(), Ghost(PooledLists)) }
    }

    /// Checks out a cleared visited list (allocating only if the pool is empty).
    pub fn get(&self) -> (list: VisitedList)
        ensures
            list.wf(),
            list.capacity() >= self.n,
            list.seen() == Set::<u32>::empty(),
    {
        let (mut free, handle) = self.free.acquire_write();
        let pooled = free.pop();
        handle.release_write(free);
        match pooled {
            Some(pooled) => {
                let mut list = pooled;
                list.ensure_capacity(self.n);
                list.clear();
                list
            },
            None => VisitedList::new(self.n),
        }
    }

    /// Returns a visited list to the pool for reuse.
    pub fn put(&self, list: VisitedList)
        requires
            list.wf(),
    {
        let (mut free, handle) = self.free.acquire_write();
        free.push(list);
        handle.release_write(free);
    }
}

} // verus!
