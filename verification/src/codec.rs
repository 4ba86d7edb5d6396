//! Big-endian integers in byte buffers.

use vstd::prelude::*;

verus! {

/// The number that a big-endian byte string stands for.
pub open spec fn be_value(s: Seq<u8>) -> nat
    decreases s.len(),
{
    if s.len() == 0 {
        0
    } else {
        be_value(s.drop_last()) * 256 + s.last() as nat
    }
}

/// The low `width` bytes of `n`, most significant first.
pub open spec fn be_bytes(n: nat, width: nat) -> Seq<u8>
    decreases width,
{
    if width == 0 {
        Seq::empty()
    } else {
        be_bytes(n / 256, (width - 1) as nat).push((n % 256) as u8)
    }
}

/// One more than the largest number that fits in `width` bytes.
pub open spec fn be_limit(width: nat) -> nat
    decreases width,
{
    if width == 0 {
        1
    } else {
        256 * be_limit((width - 1) as nat)
    }
}

/// What a 32-bit length field holds for a length of `n`.
pub open spec fn length_field(n: nat) -> nat {
    n % 0x1_0000_0000
}

pub proof fn be_bytes_len(n: nat, width: nat)
    ensures
        be_bytes(n, width).len() == width,
    decreases width,
{
    if width > 0 {
        be_bytes_len(n / 256, (width - 1) as nat);
    }
}

/// Reading back a written number gives the number.
pub proof fn be_value_of_bytes(n: nat, width: nat)
    requires
        n < be_limit(width),
    ensures
        be_value(be_bytes(n, width)) == n,
    decreases width,
{
    if width > 0 {
        let rest = be_bytes(n / 256, (width - 1) as nat);
        assert(be_bytes(n, width).drop_last() =~= rest);
        be_value_of_bytes(n / 256, (width - 1) as nat);
    }
}

/// Writing the number that was read gives the bytes back.
pub proof fn be_bytes_of_value(s: Seq<u8>)
    ensures
        be_bytes(be_value(s), s.len()) == s,
    decreases s.len(),
{
    if s.len() > 0 {
        be_bytes_of_value(s.drop_last());
        assert(be_value(s) / 256 == be_value(s.drop_last()));
        assert(s =~= s.drop_last().push(s.last()));
    } else {
        assert(be_bytes(be_value(s), 0) =~= s);
    }
}

pub proof fn be_value_bound(s: Seq<u8>)
    ensures
        be_value(s) < be_limit(s.len()),
    decreases s.len(),
{
    if s.len() > 0 {
        be_value_bound(s.drop_last());
    }
}

pub proof fn be_limits()
    ensures
        be_limit(1) == 0x100,
        be_limit(2) == 0x1_0000,
        be_limit(4) == 0x1_0000_0000,
        be_limit(8) == 0x1_0000_0000_0000_0000,
{
    reveal_with_fuel(be_limit, 9);
}

pub proof fn be_limit_monotonic(a: nat, b: nat)
    requires
        a <= b,
    ensures
        be_limit(a) <= be_limit(b),
        0 < be_limit(a),
    decreases b,
{
    if a < b {
        be_limit_monotonic(a, (b - 1) as nat);
    } else if a > 0 {
        be_limit_monotonic((a - 1) as nat, (a - 1) as nat);
    }
}

/// Appends the low `width` bytes of `x`, most significant first.
pub fn put_be(buf: &mut Vec<u8>, x: u64, width: usize)
    ensures
        final(buf)@ == old(buf)@ + be_bytes(x as nat, width as nat),
    decreases width,
{
    if width > 0 {
        put_be(buf, x / 256, width - 1);
        buf.push((x % 256) as u8);
    }
    assert(buf@ =~= old(buf)@ + be_bytes(x as nat, width as nat));
}

/// Appends a 32-bit length field for a length of `n`.
pub fn put_length(buf: &mut Vec<u8>, n: usize)
    ensures
        final(buf)@ == old(buf)@ + be_bytes(length_field(n as nat), 4),
{
    put_be(buf, n as u64 % 0x1_0000_0000, 4);
}

/// Reads the big-endian number in the `width` bytes from `at`.
pub fn get_be(buf: &[u8], at: usize, width: usize) -> (x: u64)
    requires
        width <= 8,
        at + width <= buf@.len(),
    ensures
        x == be_value(buf@.subrange(at as int, at + width)),
        x < be_limit(width as nat),
{
    let n: usize = buf.len();
    let mut acc: u64 = 0;
    let mut i: usize = 0;
    assert(buf@.subrange(at as int, at as int) =~= Seq::<u8>::empty());
    proof {
        be_limits();
    }
    while i < width
        invariant
            i <= width <= 8,
            at + width <= n == buf@.len(),
            acc == be_value(buf@.subrange(at as int, at + i)),
        decreases width - i,
    {
        let ghost part = buf@.subrange(at as int, at + i + 1);
        proof {
            be_value_bound(part);
            be_limit_monotonic(part.len(), 8);
            be_limits();
            assert(part.drop_last() =~= buf@.subrange(at as int, at + i));
        }
        acc = acc * 256 + buf[at + i] as u64;
        i = i + 1;
    }
    proof {
        be_value_bound(buf@.subrange(at as int, at + width));
    }
    acc
}

} // verus!
