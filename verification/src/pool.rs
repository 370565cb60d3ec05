//! The shared resource pool: a fixed arena of independently lockable cells.
//!
//! Each cell is either free or held by exactly one actor, identified by its
//! index. Mutual exclusion is the defining invariant of the type: a cell
//! records at most one holder, `try_acquire` succeeds only on a free cell,
//! and `release` requires the caller to be the current holder. Blocking
//! acquisition is modelled by retrying `try_acquire`: a failed attempt
//! changes nothing, so a blocked actor is simply one whose attempt fails.

use vstd::prelude::*;

verus! {

/// A pool of mutually exclusive resource cells addressed by index.
///
/// The view of a pool is the sequence of its cells, each `None` when free or
/// `Some(a)` when held by actor `a`.
pub struct ResourcePool {
    cells: Vec<Option<usize>>,
}

impl View for ResourcePool {
    type V = Seq<Option<usize>>;

    closed spec fn view(&self) -> Seq<Option<usize>> {
        self.cells@
    }
}

/// Whether actor `a` holds cell `i` of `slots`.
pub open spec fn holds(slots: Seq<Option<usize>>, a: usize, i: int) -> bool {
    0 <= i < slots.len() && slots[i] == Some(a)
}

impl ResourcePool {
    /// Builds a pool of `n` cells, all free.
    pub fn new(n: usize) -> (p: ResourcePool)
        ensures
            p@.len() == n,
            forall|i: int| 0 <= i < n ==> p@[i] is None,
    {
        let mut cells: Vec<Option<usize>> = Vec::new();
        let mut k: usize = 0;
        while k < n
            invariant
                k <= n,
                cells@.len() == k,
                forall|i: int| 0 <= i < k ==> cells@[i] is None,
            decreases n - k,
        {
            cells.push(None);
            k = k + 1;
        }
        ResourcePool { cells }
    }

    /// The number of cells in the pool.
    pub fn len(&self) -> (n: usize)
        ensures
            n == self@.len(),
    {
        self.cells.len()
    }

    /// Whether cell `i` is currently free.
    pub fn is_free(&self, i: usize) -> (r: bool)
        requires
            i < self@.len(),
        ensures
            r == (self@[i as int] is None),
    {
        self.cells[i].is_none()
    }

    /// Attempts to take cell `i` for actor `who`. The attempt succeeds
    /// exactly when the cell is free; a failed attempt leaves the pool
    /// unchanged, which is how a blocked (waiting) actor is modelled.
    pub fn try_acquire(&mut self, who: usize, i: usize) -> (ok: bool)
        requires
            i < old(self)@.len(),
        ensures
            ok == (old(self)@[i as int] is None),
            ok ==> final(self)@ == old(self)@.update(i as int, Some(who)),
            !ok ==> final(self)@ == old(self)@,
    {
        if self.cells[i].is_none() {
            self.cells.set(i, Some(who));
            true
        } else {
            false
        }
    }

    /// Releases cell `i`, which actor `who` must currently hold. The cell
    /// becomes free and every other cell is untouched.
    pub fn release(&mut self, who: usize, i: usize)
        requires
            i < old(self)@.len(),
            old(self)@[i as int] == Some(who),
        ensures
            final(self)@ == old(self)@.update(i as int, None),
    {
        self.cells.set(i, None);
    }
}

/// Mutual exclusion: a cell never has two simultaneous holders. Whenever two
/// actors both hold the same cell, they are the same actor.
pub proof fn lemma_mutual_exclusion(slots: Seq<Option<usize>>, a: usize, b: usize, i: int)
    requires
        holds(slots, a, i),
        holds(slots, b, i),
    ensures
        a == b,
{
}

/// Exclusive reuse: while an actor holds a cell, any further acquisition
/// attempt on that cell fails, and once the holder releases it, an
/// acquisition attempt succeeds again.
pub proof fn lemma_exclusive_reuse(slots: Seq<Option<usize>>, a: usize, i: int)
    requires
        holds(slots, a, i),
    ensures
        !(slots[i] is None),
        slots.update(i, None)[i] is None,
{
}

} // verus!
