//! A reusable-buffer pool: a LIFO stack of numeric buffers and one of
//! move-list buffers. Buffers are handed out empty and returned (cleared)
//! when no longer needed, so deep recursive search allocates nothing after
//! its first pass.

use vstd::prelude::*;
use crate::game::Move;

verus! {

/// What one `alloc` leaves of a pool of `n` retained buffers: it pops one
/// when the pool is non-empty and falls back to a fresh buffer otherwise.
pub open spec fn pool_take(n: nat) -> nat {
    if n > 0 {
        (n - 1) as nat
    } else {
        0
    }
}

/// The buffer pool. `T` is the numeric element type of the reusable
/// buffers; the move-list buffers always hold `Move` values.
pub struct Alloc<T> {
    bufs: Vec<Vec<T>>,
    mvecs: Vec<Vec<Move>>,
}

impl<T> Alloc<T> {
    /// How many numeric buffers the pool currently retains.
    pub closed spec fn bufs_retained(&self) -> nat {
        self.bufs@.len()
    }

    /// How many move-list buffers the pool currently retains.
    pub closed spec fn mvecs_retained(&self) -> nat {
        self.mvecs@.len()
    }

    /// Every retained buffer is empty, ready to be handed out.
    pub closed spec fn wf(&self) -> bool {
        &&& forall|i: int| 0 <= i < self.bufs@.len() ==> self.bufs@[i]@.len() == 0
        &&& forall|i: int| 0 <= i < self.mvecs@.len() ==> self.mvecs@[i]@.len() == 0
    }

    pub fn new() -> (r: Self)
        ensures
            r.wf(),
            r.bufs_retained() == 0,
            r.mvecs_retained() == 0,
    {
        Self { bufs: Vec::new(), mvecs: Vec::new() }
    }

    /// Hand out an empty numeric buffer, reusing a retained one if any.
    pub fn alloc_buf(&mut self) -> (r: Vec<T>)
        requires
            old(self).wf(),
        ensures
            final(self).wf(),
            r@.len() == 0,
            final(self).bufs_retained() == pool_take(old(self).bufs_retained()),
            final(self).mvecs_retained() == old(self).mvecs_retained(),
    {
        match self.bufs.pop() {
            Some(v) => v,
            None => Vec::new(),
        }
    }

    /// Take a numeric buffer back; it is cleared and retained for reuse.
    pub fn dealloc(&mut self, v: Vec<T>)
        requires
            old(self).wf(),
        ensures
            final(self).wf(),
            final(self).bufs_retained() == old(self).bufs_retained() + 1,
            final(self).mvecs_retained() == old(self).mvecs_retained(),
    {
        let mut v = v;
        v.clear();
        self.bufs.push(v);
    }

    /// Take a whole batch of numeric buffers back, leaving the batch vector
    /// empty.
    pub fn dealloc_bulk(&mut self, v: &mut Vec<Vec<T>>)
        requires
            old(self).wf(),
        ensures
            final(self).wf(),
            final(self).bufs_retained() == old(self).bufs_retained() + old(v)@.len(),
            final(self).mvecs_retained() == old(self).mvecs_retained(),
            final(v)@.len() == 0,
    {
        let ghost total = self.bufs@.len() + v@.len();
        while v.len() > 0
            invariant
                self.wf(),
                self.bufs@.len() + v@.len() == total,
                self.mvecs@ == old(self).mvecs@,
            decreases v@.len(),
        {
            let mut b = v.pop().unwrap();
            b.clear();
            self.bufs.push(b);
        }
    }

    /// Hand out an empty move-list buffer, reusing a retained one if any.
    pub fn alloc_mvec(&mut self) -> (r: Vec<Move>)
        requires
            old(self).wf(),
        ensures
            final(self).wf(),
            r@.len() == 0,
            final(self).mvecs_retained() == pool_take(old(self).mvecs_retained()),
            final(self).bufs_retained() == old(self).bufs_retained(),
    {
        match self.mvecs.pop() {
            Some(v) => v,
            None => Vec::new(),
        }
    }

    /// Take a move-list buffer back; it is cleared and retained for reuse.
    pub fn dealloc_mvec(&mut self, v: Vec<Move>)
        requires
            old(self).wf(),
        ensures
            final(self).wf(),
            final(self).mvecs_retained() == old(self).mvecs_retained() + 1,
            final(self).bufs_retained() == old(self).bufs_retained(),
    {
        let mut v = v;
        v.clear();
        self.mvecs.push(v);
    }

    /// How many numeric buffers the pool retains right now.
    pub fn len(&self) -> (r: usize)
        ensures
            r == self.bufs_retained(),
    {
        self.bufs.len()
    }
}

/// A pool's life as a sequence of steps on one of its two stacks: `true`
/// is a buffer handed out (an alloc), `false` a buffer returned (a
/// dealloc). How many buffers a pool that started empty retains after a
/// run of steps; each alloc matches `alloc_buf`'s contract, each dealloc
/// `dealloc`'s (a bulk return is one `false` step per buffer).
pub open spec fn retained_after(ops: Seq<bool>) -> nat
    decreases ops.len(),
{
    if ops.len() == 0 {
        0
    } else {
        let r = retained_after(ops.drop_last());
        if ops.last() {
            pool_take(r)
        } else {
            r + 1
        }
    }
}

/// How many buffers are out on loan after a run of steps.
pub open spec fn borrowed_after(ops: Seq<bool>) -> int
    decreases ops.len(),
{
    if ops.len() == 0 {
        0
    } else {
        borrowed_after(ops.drop_last()) + if ops.last() {
            1int
        } else {
            -1int
        }
    }
}

/// Only buffers that were handed out are ever returned: no prefix of the
/// run returns more buffers than it took.
pub open spec fn ops_balanced(ops: Seq<bool>) -> bool {
    forall|k: int| 0 <= k <= ops.len() ==> borrowed_after(#[trigger] ops.take(k)) >= 0
}

/// The largest number of buffers simultaneously out on loan at any point
/// of the run.
pub open spec fn peak_borrowed(ops: Seq<bool>) -> int
    decreases ops.len(),
{
    if ops.len() == 0 {
        0
    } else {
        let p = peak_borrowed(ops.drop_last());
        if p >= borrowed_after(ops) {
            p
        } else {
            borrowed_after(ops)
        }
    }
}

/// Repeated alloc/dealloc cycles never grow the pool: however long the
/// run, a pool that started empty retains no more buffers than the peak
/// number that were ever out on loan at once.
pub proof fn lemma_retention_bounded(ops: Seq<bool>)
    requires
        ops_balanced(ops),
    ensures
        retained_after(ops) + borrowed_after(ops) <= peak_borrowed(ops),
        retained_after(ops) <= peak_borrowed(ops),
    decreases ops.len(),
{
    assert(ops.take(ops.len() as int) =~= ops);
    if ops.len() > 0 {
        let pre = ops.drop_last();
        assert(ops_balanced(pre)) by {
            assert forall|k: int| 0 <= k <= pre.len()
                implies borrowed_after(#[trigger] pre.take(k)) >= 0 by {
                assert(pre.take(k) =~= ops.take(k));
            }
        }
        lemma_retention_bounded(pre);
    }
}

} // verus!
