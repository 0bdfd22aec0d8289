//! The two arena disciplines, as verified bookkeeping over offsets: a
//! fixed-layout pool with a free list of block slots, and a stack-like
//! bump region that rewinds eagerly whenever the top allocation is
//! freed.  Either can back the clause storage; the solver itself keeps
//! its words in ordinary vectors.

use vstd::prelude::*;

verus! {

/// A fixed-layout pool: `capacity` blocks of one agreed layout, with a
/// stack of free slots.
pub struct PoolAlloc {
    pub block_size: usize,
    pub block_align: usize,
    pub capacity: usize,
    pub free_blocks: Vec<usize>,
}

impl PoolAlloc {
    /// Free slots are pairwise distinct block indices.
    pub open spec fn wf(self) -> bool {
        &&& forall|t: int|
            0 <= t < self.free_blocks@.len() ==> #[trigger] self.free_blocks@[t]
                < self.capacity
        &&& forall|t1: int, t2: int|
            #![trigger self.free_blocks@[t1], self.free_blocks@[t2]]
            0 <= t1 < t2 < self.free_blocks@.len() ==> self.free_blocks@[t1]
                != self.free_blocks@[t2]
    }

    /// Builds a pool for `capc` blocks of the given layout.  An
    /// alignment beyond one machine word is refused, as is a block too
    /// large to lay out.
    pub fn from(size: usize, align: usize, capc: usize) -> (r: Option<PoolAlloc>)
        requires
            capc <= 0x10_0000,
        ensures
            r matches Some(p) ==> p.wf() && p.block_size == size && p.block_align == align
                && p.capacity == capc && p.free_blocks@.len() == capc,
            r is None <==> (align > 8 || size > 0x1000_0000),
    {
        if align > 8 || size > 0x1000_0000 {
            return None;
        }
        let mut free_blocks: Vec<usize> = Vec::new();
        let mut i: usize = 0;
        while i < capc
            invariant
                i <= capc,
                free_blocks@.len() == i,
                forall|t: int| 0 <= t < i ==> #[trigger] free_blocks@[t] == t,
            decreases capc - i,
        {
            free_blocks.push(i);
            i = i + 1;
        }
        Some(PoolAlloc { block_size: size, block_align: align, capacity: capc, free_blocks })
    }

    /// Hands out a free block slot.  A request not matching the pool's
    /// one layout is refused, as is an exhausted pool.
    pub fn allocate(&mut self, size: usize, align: usize) -> (r: Option<usize>)
        requires
            old(self).wf(),
        ensures
            final(self).wf(),
            final(self).capacity == old(self).capacity,
            final(self).block_size == old(self).block_size,
            final(self).block_align == old(self).block_align,
            r is None <==> (size != old(self).block_size || align != old(self).block_align || old(
                self,
            ).free_blocks@.len() == 0),
            r is None ==> final(self).free_blocks@ == old(self).free_blocks@,
            r matches Some(b) ==> b < old(self).capacity && old(self).free_blocks@.len() > 0 && b
                == old(self).free_blocks@.last() && final(self).free_blocks@ == old(
                self,
            ).free_blocks@.drop_last(),
    {
        if size != self.block_size || align != self.block_align {
            return None;
        }
        let r = self.free_blocks.pop();
        r
    }

    /// Returns a block slot to the pool.
    pub fn deallocate(&mut self, block: usize)
        requires
            old(self).wf(),
            block < old(self).capacity,
            forall|t: int|
                0 <= t < old(self).free_blocks@.len() ==> #[trigger] old(self).free_blocks@[t]
                    != block,
        ensures
            final(self).wf(),
            final(self).capacity == old(self).capacity,
            final(self).block_size == old(self).block_size,
            final(self).block_align == old(self).block_align,
            final(self).free_blocks@ == old(self).free_blocks@.push(block),
    {
        self.free_blocks.push(block);
    }
}

/// The bookkeeping of the stack-like region: the bump offset, the
/// stack of allocation points, and the pending freed end-offsets kept
/// ascending (their greatest is the next candidate for a rewind).
pub struct StacklikeCtrl {
    pub offset: usize,
    pub alptrs: Vec<usize>,
    pub frptrs: Vec<usize>,
}

impl StacklikeCtrl {
    pub fn new() -> (r: StacklikeCtrl)
        ensures
            r.offset == 0,
            r.alptrs@.len() == 0,
            r.frptrs@.len() == 0,
    {
        StacklikeCtrl { offset: 0, alptrs: Vec::new(), frptrs: Vec::new() }
    }
}

/// The next multiple of `a` at or above `o`.
pub open spec fn align_up(o: int, a: int) -> int {
    ((o + a - 1) / a) * a
}

/// A stack-like bump arena over a region of `size` bytes.
pub struct StacklikeAlloc {
    pub size: usize,
    pub align: usize,
    pub contrl: StacklikeCtrl,
}

impl StacklikeAlloc {
    /// Freed ends stay sorted and in range; no more frees than
    /// allocations are outstanding.
    pub open spec fn wf(self) -> bool {
        &&& self.size <= 0x1000_0000
        &&& 1 <= self.align <= 4096
        &&& self.contrl.offset <= self.size
        &&& self.contrl.frptrs@.len() <= self.contrl.alptrs@.len()
        &&& forall|t1: int, t2: int|
            #![trigger self.contrl.frptrs@[t1], self.contrl.frptrs@[t2]]
            0 <= t1 < t2 < self.contrl.frptrs@.len() ==> self.contrl.frptrs@[t1]
                <= self.contrl.frptrs@[t2]
        &&& forall|t: int|
            0 <= t < self.contrl.alptrs@.len() ==> #[trigger] self.contrl.alptrs@[t]
                <= self.contrl.offset
        &&& forall|t1: int, t2: int|
            #![trigger self.contrl.alptrs@[t1], self.contrl.alptrs@[t2]]
            0 <= t1 < t2 < self.contrl.alptrs@.len() ==> self.contrl.alptrs@[t1]
                <= self.contrl.alptrs@[t2]
    }

    pub fn new(size: usize, align: usize) -> (r: StacklikeAlloc)
        requires
            size <= 0x1000_0000,
            1 <= align <= 4096,
        ensures
            r.wf(),
            r.size == size,
            r.align == align,
            r.contrl.offset == 0,
    {
        StacklikeAlloc { size, align, contrl: StacklikeCtrl::new() }
    }

    /// Bumps the offset to an aligned start.  The start is aligned, the
    /// block lies inside the region, and the previous offset is pushed
    /// so that a rewind can return to it.
    pub fn allocate(&mut self, size: usize, align: usize) -> (r: Option<usize>)
        requires
            old(self).wf(),
            1 <= align,
        ensures
            final(self).wf(),
            final(self).size == old(self).size,
            final(self).align == old(self).align,
            r is None ==> *final(self) == *old(self) && (align > old(self).align || align_up(
                old(self).contrl.offset as int,
                align as int,
            ) + size > old(self).size),
            (align > old(self).align || align_up(old(self).contrl.offset as int, align as int)
                + size > old(self).size) ==> r is None,
            r matches Some(start) ==> start % align == 0 && old(self).contrl.offset <= start
                && start + size <= old(self).size && final(self).contrl.offset == start + size
                && final(self).contrl.alptrs@ == old(self).contrl.alptrs@.push(
                old(self).contrl.offset,
            ) && final(self).contrl.frptrs@ == old(self).contrl.frptrs@,
    {
        if align > self.align {
            return None;
        }
        let off = self.contrl.offset;
        let q = (off + align - 1) / align;
        proof {
            let oi = off as int;
            let ai = align as int;
            assert(q * ai <= oi + ai - 1 && oi <= q * ai && (q * ai) % ai == 0)
                by (nonlinear_arith)
                requires
                    1 <= ai,
                    0 <= oi,
                    q == (oi + ai - 1) / ai,
            ;
        }
        let start = q * align;
        if size > self.size || start > self.size - size {
            return None;
        }
        let prev = self.contrl.offset;
        self.contrl.alptrs.push(prev);
        self.contrl.offset = start + size;
        Some(start)
    }

    /// Records a freed block by its end offset, then rewinds while the
    /// highest pending end meets the current offset: each such free is
    /// dropped together with its matching allocation point, and the
    /// offset returns to that point.
    pub fn deallocate(&mut self, end: usize)
        requires
            old(self).wf(),
            end <= old(self).contrl.offset,
            old(self).contrl.frptrs@.len() < old(self).contrl.alptrs@.len(),
        ensures
            final(self).wf(),
            final(self).size == old(self).size,
            final(self).align == old(self).align,
            final(self).contrl.offset <= old(self).contrl.offset,
            // the freed end joined the pending list; the rewind then
            // dropped a top run of it
            exists|pp: int|
                0 <= pp <= old(self).contrl.frptrs@.len() && final(self).contrl.frptrs@ == old(
                    self,
                ).contrl.frptrs@.insert(pp, end).subrange(
                    0,
                    final(self).contrl.frptrs@.len() as int,
                ),
            // each rewind popped one allocation point, and the offset
            // stands at the last one popped
            final(self).contrl.alptrs@ == old(self).contrl.alptrs@.subrange(
                0,
                final(self).contrl.alptrs@.len() as int,
            ),
            final(self).contrl.frptrs@.len() + old(self).contrl.alptrs@.len() == old(
                self,
            ).contrl.frptrs@.len() + 1 + final(self).contrl.alptrs@.len(),
            final(self).contrl.alptrs@.len() == old(self).contrl.alptrs@.len()
                ==> final(self).contrl.offset == old(self).contrl.offset,
            final(self).contrl.alptrs@.len() < old(self).contrl.alptrs@.len()
                ==> final(self).contrl.offset == old(self).contrl.alptrs@[
                    final(self).contrl.alptrs@.len() as int
                ],
            // and it ran to completion: no freed run tops the offset
            final(self).contrl.frptrs@.len() > 0 && final(self).contrl.alptrs@.len() > 0
                ==> final(self).contrl.frptrs@.last() != final(self).contrl.offset,
    {
        let p_ins = self.frptr_insert(end);
        let ghost ins = self.contrl.frptrs@;
        let ghost al0 = self.contrl.alptrs@;
        proof {
            assert(self.contrl.frptrs@ =~= ins.subrange(0, self.contrl.frptrs@.len() as int));
            assert(self.contrl.alptrs@ =~= al0.subrange(0, self.contrl.alptrs@.len() as int));
        }
        while self.contrl.frptrs.len() > 0 && self.contrl.frptrs[self.contrl.frptrs.len() - 1]
            == self.contrl.offset && self.contrl.alptrs.len() > 0
            invariant
                self.size == old(self).size,
                self.align == old(self).align,
                self.wf(),
                self.contrl.offset <= old(self).contrl.offset,
                ins.len() == old(self).contrl.frptrs@.len() + 1,
                al0 == old(self).contrl.alptrs@,
                self.contrl.frptrs@ == ins.subrange(0, self.contrl.frptrs@.len() as int),
                self.contrl.alptrs@ == al0.subrange(0, self.contrl.alptrs@.len() as int),
                self.contrl.alptrs@.len() <= al0.len(),
                self.contrl.frptrs@.len() + (al0.len() - self.contrl.alptrs@.len()) == ins.len(),
                self.contrl.alptrs@.len() == al0.len() ==> self.contrl.offset == old(
                    self,
                ).contrl.offset,
                self.contrl.alptrs@.len() < al0.len() ==> self.contrl.offset == al0[
                    self.contrl.alptrs@.len() as int],
            decreases self.contrl.frptrs@.len(),
        {
            let ghost fr_prev = self.contrl.frptrs@;
            let ghost al_prev = self.contrl.alptrs@;
            let _ = self.contrl.frptrs.pop();
            match self.contrl.alptrs.pop() {
                Some(back) => {
                    self.contrl.offset = back;
                },
                None => {
                    proof {
                        assert(false);
                    }
                },
            }
            proof {
                assert(self.contrl.frptrs@ =~= ins.subrange(
                    0,
                    self.contrl.frptrs@.len() as int,
                ));
                assert(self.contrl.alptrs@ =~= al0.subrange(0, self.contrl.alptrs@.len() as int));
                assert(al_prev.last() == al0[self.contrl.alptrs@.len() as int]);
                assert forall|t: int|
                    0 <= t < self.contrl.alptrs@.len() implies #[trigger] self.contrl.alptrs@[t]
                    <= self.contrl.offset by {
                    assert(al_prev[t] <= al_prev[al_prev.len() - 1]);
                }
            }
        }
        proof {
            assert(0 <= p_ins as int <= old(self).contrl.frptrs@.len());
            assert(final(self).contrl.frptrs@ == old(self).contrl.frptrs@.insert(
                p_ins as int,
                end,
            ).subrange(0, final(self).contrl.frptrs@.len() as int));
        }
    }

    /// Inserts a freed end into the sorted pending list, returning the
    /// place it took.
    fn frptr_insert(&mut self, end: usize) -> (p: usize)
        requires
            old(self).wf(),
            end <= old(self).contrl.offset,
            old(self).contrl.frptrs@.len() < old(self).contrl.alptrs@.len(),
        ensures
            final(self).wf(),
            final(self).size == old(self).size,
            final(self).align == old(self).align,
            final(self).contrl.offset == old(self).contrl.offset,
            final(self).contrl.alptrs@ == old(self).contrl.alptrs@,
            final(self).contrl.frptrs@.len() == old(self).contrl.frptrs@.len() + 1,
            p <= old(self).contrl.frptrs@.len(),
            final(self).contrl.frptrs@ == old(self).contrl.frptrs@.insert(p as int, end),
    {
        let len = self.contrl.frptrs.len();
        let mut p: usize = len;
        while p > 0 && self.contrl.frptrs[p - 1] > end
            invariant
                *self == *old(self),
                old(self).wf(),
                len == self.contrl.frptrs@.len(),
                p <= len,
                forall|t: int| p <= t < len ==> #[trigger] self.contrl.frptrs@[t] >= end,
            decreases p,
        {
            p = p - 1;
        }
        self.contrl.frptrs.insert(p, end);
        proof {
            let post = self.contrl.frptrs@;
            let pre = old(self).contrl.frptrs@;
            assert forall|t1: int, t2: int|
                #![trigger post[t1], post[t2]]
                0 <= t1 < t2 < post.len() implies post[t1] <= post[t2] by {
                let u1 = if t1 < p {
                    t1
                } else {
                    t1 - 1
                };
                let u2 = if t2 < p {
                    t2
                } else {
                    t2 - 1
                };
                if t1 == p {
                    assert(post[t2] == pre[u2] && pre[u2] >= end);
                } else if t2 == p {
                    assert(post[t1] == pre[u1]);
                    assert(pre[u1] <= end);
                } else {
                    assert(post[t1] == pre[u1] && post[t2] == pre[u2]);
                }
            }
        }
        p
    }
}

} // verus!
