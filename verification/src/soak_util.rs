//! The seeded generator that soak runs draw their choices from.

use vstd::prelude::*;

verus! {

/// A linear congruential generator.
pub struct Lcg(pub u64);

/// The state that follows `x`.
pub open spec fn lcg_next(x: u64) -> u64 {
    ((x * 6364136223846793005 + 1) % 0x1_0000_0000_0000_0000) as u64
}

/// The number below `n` that is drawn from the state `x`.
pub open spec fn lcg_pick(x: u64, n: u32) -> u32 {
    ((x / 0x1_0000_0000) % (if n > 0 {
        n as u64
    } else {
        1
    })) as u32
}

impl Lcg {
    pub fn new(seed: u64) -> (g: Self)
        ensures
            g.0 == (if seed > 0 {
                seed
            } else {
                1
            }),
    {
        if seed > 0 {
            Lcg(seed)
        } else {
            Lcg(1)
        }
    }

    pub fn next_u64(&mut self) -> (x: u64)
        ensures
            x == lcg_next(old(self).0),
            final(self).0 == x,
    {
        let y: u64 = self.0.wrapping_mul(6364136223846793005);
        let x: u64 = y.wrapping_add(1);
        proof {
            vstd::arithmetic::div_mod::lemma_add_mod_noop(
                old(self).0 * 6364136223846793005,
                1,
                0x1_0000_0000_0000_0000,
            );
        }
        self.0 = x;
        x
    }

    /// A number below `n`, or zero where `n` is zero.
    pub fn range_u32(&mut self, n: u32) -> (r: u32)
        ensures
            final(self).0 == lcg_next(old(self).0),
            r == lcg_pick(final(self).0, n),
            n > 0 ==> r < n,
    {
        let x: u64 = self.next_u64();
        let high: u64 = x / 0x1_0000_0000;
        let m: u64 = if n > 0 {
            n as u64
        } else {
            1
        };
        (high % m) as u32
    }

    /// A number from `lo` to `hi_inclusive`, or `lo` where the range is empty.
    /// Only the low 32 bits of the range's size count.
    pub fn range_usize(&mut self, lo: usize, hi_inclusive: usize) -> (r: usize)
        requires
            hi_inclusive <= lo || hi_inclusive - lo < usize::MAX,
        ensures
            hi_inclusive <= lo ==> r == lo && final(self).0 == old(self).0,
            hi_inclusive > lo ==> {
                &&& final(self).0 == lcg_next(old(self).0)
                &&& r == lo + lcg_pick(
                    final(self).0,
                    ((hi_inclusive - lo + 1) % 0x1_0000_0000) as u32,
                )
                &&& lo <= r <= hi_inclusive
            },
    {
        if hi_inclusive <= lo {
            return lo;
        }
        let span: u32 = ((hi_inclusive - lo + 1) as u64 % 0x1_0000_0000) as u32;
        let r: u32 = self.range_u32(span);
        lo + r as usize
    }
}

} // verus!
