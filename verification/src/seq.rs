//! The allocator of sequence numbers, the only source of `seq` in the engine.

use vstd::prelude::*;

verus! {

#[derive(Debug)]
pub struct SeqAllocator {
    next: u64,
}

impl View for SeqAllocator {
    type V = u64;

    /// The number that comes next.
    closed spec fn view(&self) -> u64 {
        self.next
    }
}

impl SeqAllocator {
    /// An allocator that hands out `start` first.
    pub fn new(start: u64) -> (a: Self)
        ensures
            a@ == start,
    {
        SeqAllocator { next: start }
    }

    /// Hands out the next number. The counter wraps around after `u64::MAX`.
    pub fn next(&mut self) -> (n: u64)
        ensures
            n == old(self)@,
            final(self)@ == (if n == u64::MAX {
                0u64
            } else {
                (n + 1) as u64
            }),
    {
        let n: u64 = self.next;
        self.next = n.wrapping_add(1);
        n
    }

    /// The next number, without handing it out.
    pub fn peek(&self) -> (n: u64)
        ensures
            n == self@,
    {
        self.next
    }

    /// Makes the next number at least `floor`.
    pub fn bump_to_at_least(&mut self, floor: u64)
        ensures
            final(self)@ == (if old(self)@ < floor {
                floor
            } else {
                old(self)@
            }),
    {
        if self.next < floor {
            self.next = floor;
        }
    }
}

impl Default for SeqAllocator {
    fn default() -> (a: Self)
        ensures
            a@ == 1,
    {
        SeqAllocator::new(1)
    }
}

} // verus!
