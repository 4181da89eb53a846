//! The pool of physical frames.

use vstd::prelude::*;

verus! {

/// Hands out physical page numbers and takes them back.
///
/// A frame is in use from the `acquire` that returned its number until the
/// `release` of that number. Numbers given back are handed out again
/// before the pool grows by a new number.
pub struct FrameAllocator {
    in_use: Vec<bool>,
    recycled: Vec<usize>,
}

impl FrameAllocator {
    /// The page numbers that are currently handed out.
    pub closed spec fn allocated(&self) -> Set<usize> {
        Set::new(|p: usize| (p as int) < self.in_use.len() && self.in_use[p as int])
    }

    /// The number of page numbers that were ever handed out: they are the
    /// numbers below it.
    pub closed spec fn extent(&self) -> nat {
        self.in_use.len() as nat
    }

    pub closed spec fn wf(&self) -> bool {
        &&& forall|i: int|
            0 <= i < self.recycled.len() ==> (#[trigger] self.recycled[i] as int)
                < self.in_use.len() && !self.in_use[self.recycled[i] as int]
        &&& forall|i: int, j: int|
            0 <= i < j < self.recycled.len() ==> self.recycled[i] != self.recycled[j]
        &&& forall|p: int|
            0 <= p < self.in_use.len() && !#[trigger] self.in_use[p] ==> self.recycled@.contains(
                p as usize,
            )
    }

    /// Every page number that is handed out lies below the extent.
    pub proof fn lemma_allocated_below_extent(&self, p: usize)
        requires
            self.allocated().contains(p),
        ensures
            p < self.extent(),
    {
    }

    /// A pool from which nothing is handed out.
    pub fn new() -> (r: FrameAllocator)
        ensures
            r.wf(),
            r.allocated() == Set::<usize>::empty(),
            r.extent() == 0,
    {
        let r = FrameAllocator { in_use: Vec::new(), recycled: Vec::new() };
        assert(r.allocated() =~= Set::<usize>::empty());
        r
    }

    /// Hands out a frame that was not in use: one that was given back, if
    /// there is one, else the first new one.
    pub fn acquire(&mut self) -> (ppn: usize)
        requires
            old(self).wf(),
        ensures
            final(self).wf(),
            !old(self).allocated().contains(ppn),
            final(self).allocated() == old(self).allocated().insert(ppn),
            ppn <= old(self).extent(),
            ppn == old(self).extent() <==> forall|p: usize|
                p < old(self).extent() ==> old(self).allocated().contains(p),
            final(self).extent() == if ppn == old(self).extent() {
                old(self).extent() + 1
            } else {
                old(self).extent()
            },
    {
        match self.recycled.pop() {
            Some(ppn) => {
                let ghost rest = self.recycled@;
                assert(old(self).recycled[rest.len() as int] == ppn);
                self.in_use[ppn] = true;
                proof {
                    assert(self.allocated() =~= old(self).allocated().insert(ppn));
                    assert forall|p: int|
                        0 <= p < self.in_use.len() && !#[trigger] self.in_use[p] implies rest.contains(
                        p as usize) by {
                        assert(!old(self).in_use[p]);
                        assert(old(self).recycled@.contains(p as usize));
                        let i = choose|i: int|
                            0 <= i < old(self).recycled.len() && old(self).recycled[i] == p as usize;
                        assert(rest[i] == p as usize);
                    }
                    assert(!old(self).allocated().contains(ppn));
                }
                ppn
            },
            None => {
                let ppn = self.in_use.len();
                self.in_use.push(true);
                proof {
                    assert(self.allocated() =~= old(self).allocated().insert(ppn));
                    assert forall|p: usize| p < old(self).extent() implies old(self).allocated().contains(
                    p) by {
                        if !old(self).in_use[p as int] {
                            assert(old(self).recycled@.contains(p));
                        }
                    }
                }
                ppn
            },
        }
    }

    /// Takes back a frame that is in use.
    pub fn release(&mut self, ppn: usize)
        requires
            old(self).wf(),
            old(self).allocated().contains(ppn),
        ensures
            final(self).wf(),
            final(self).allocated() == old(self).allocated().remove(ppn),
            final(self).extent() == old(self).extent(),
    {
        self.in_use[ppn] = false;
        self.recycled.push(ppn);
        proof {
            assert(self.allocated() =~= old(self).allocated().remove(ppn));
            assert forall|p: int|
                0 <= p < self.in_use.len() && !#[trigger] self.in_use[p] implies self.recycled@.contains(
                p as usize) by {
                if p == ppn {
                    assert(self.recycled[old(self).recycled.len() as int] == ppn);
                } else {
                    assert(!old(self).in_use[p]);
                    let i = choose|i: int|
                        0 <= i < old(self).recycled.len() && old(self).recycled[i] == p as usize;
                    assert(self.recycled[i] == p as usize);
                }
            }
        }
    }

    /// Whether the frame `ppn` is in use.
    pub fn is_allocated(&self, ppn: usize) -> (r: bool)
        ensures
            r == self.allocated().contains(ppn),
    {
        ppn < self.in_use.len() && self.in_use[ppn]
    }
}

} // verus!
