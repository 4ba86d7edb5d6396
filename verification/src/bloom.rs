//! Bloom filters for table membership tests: ten bits for each key and seven
//! hash positions, combined from two seeded hashes by double hashing.

use vstd::arithmetic::div_mod::lemma_add_mod_noop_right;
use vstd::prelude::*;
use crate::bytes::{append_bytes, copy_range};
use crate::codec::{
    be_bytes, be_bytes_len, be_limits, be_value, be_value_of_bytes, get_be, length_field,
    put_length,
};

verus! {

/// The number of positions that each key sets.
pub const NUM_HASHES: u64 = 7;

pub const BITS_PER_KEY: usize = 10;

/// The seed of the second hash.
pub const SECOND_SEED: u64 = 0x9E37_79B9_7F4A_7C15;

/// The 64-bit XXH3 hash of `key` under `seed`.
pub uninterp spec fn xxh3_64(key: Seq<u8>, seed: u64) -> u64;

/// Calls `xxhash_rust::xxh3::xxh3_64_with_seed`, which hashes a byte string
/// under a seed. The result depends on the two arguments alone; nothing more is
/// claimed of it.
#[verifier::external_body]
fn seeded_hash(key: &[u8], seed: u64) -> (h: u64)
    ensures
        h == xxh3_64(key@, seed),
{
    xxhash_rust::xxh3::xxh3_64_with_seed(key, seed)
}

/// The `i`-th position of a key with hashes `h1` and `h2` in a filter of
/// `num_bits` bits.
pub open spec fn position(h1: u64, h2: u64, i: int, num_bits: nat) -> int {
    ((h1 + i * h2) % 0x1_0000_0000_0000_0000) % (num_bits as int)
}

/// The `i`-th position of `key` in a filter of `num_bits` bits.
pub open spec fn key_position(key: Seq<u8>, i: int, num_bits: nat) -> int {
    position(xxh3_64(key, 0), xxh3_64(key, SECOND_SEED), i, num_bits)
}

/// Bit `p` of a byte string, counting from the low bit of the first byte.
pub open spec fn bit_at(bits: Seq<u8>, p: int) -> bool {
    bits[p / 8] & (1u8 << ((p % 8) as u8)) != 0
}

/// The number of bytes that hold `num_bits` bits.
pub open spec fn bytes_for(num_bits: nat) -> nat {
    (num_bits + 7) / 8
}

/// One of the first `n` positions of `key` is `p`.
pub open spec fn hits(key: Seq<u8>, n: int, num_bits: nat, p: int) -> bool {
    exists|i: int| 0 <= i < n && #[trigger] key_position(key, i, num_bits) == p
}

/// One of the keys has `p` among its positions.
pub open spec fn any_hits(keys: Seq<Vec<u8>>, num_bits: nat, p: int) -> bool {
    exists|k: int| 0 <= k < keys.len() && #[trigger] hits(keys[k]@, NUM_HASHES as int, num_bits, p)
}

/// What a filter holds.
pub struct BloomView {
    pub num_bits: nat,
    pub bits: Seq<u8>,
}

impl BloomView {
    /// The bit array is long enough.
    pub open spec fn wf(self) -> bool {
        self.num_bits <= self.bits.len() * 8
    }

    /// The filter answers "perhaps" for `key`.
    pub open spec fn may_hold(self, key: Seq<u8>) -> bool {
        self.num_bits == 0 || forall|i: int|
            0 <= i < NUM_HASHES ==> bit_at(self.bits, #[trigger] key_position(key, i, self.num_bits))
    }

    /// The stored form of a filter.
    pub open spec fn encoded(self) -> Seq<u8> {
        be_bytes(length_field(self.num_bits), 4) + self.bits
    }

    /// The filter that a stored form stands for, if it is long enough.
    pub open spec fn decoded(buf: Seq<u8>) -> Option<BloomView> {
        if buf.len() < 4 {
            None
        } else {
            let num_bits = be_value(buf.subrange(0, 4));
            let bits = buf.subrange(4, buf.len() as int);
            if bits.len() < bytes_for(num_bits) {
                None
            } else {
                Some(BloomView { num_bits, bits })
            }
        }
    }
}

#[derive(Debug)]
pub struct BloomFilter {
    bits: Vec<u8>,
    num_bits: usize,
}

impl View for BloomFilter {
    type V = BloomView;

    closed spec fn view(&self) -> BloomView {
        BloomView { num_bits: self.num_bits as nat, bits: self.bits@ }
    }
}

impl Clone for BloomFilter {
    fn clone(&self) -> (b: Self)
        ensures
            b@ == self@,
    {
        BloomFilter { bits: self.bits.clone(), num_bits: self.num_bits }
    }
}

/// A stored filter reads back as it was, where its size fits the size field.
pub proof fn bloom_round_trips(b: BloomView)
    requires
        b.wf(),
        b.num_bits <= u32::MAX,
    ensures
        BloomView::decoded(b.encoded()) == Some(b),
{
    be_bytes_len(length_field(b.num_bits), 4);
    be_limits();
    be_value_of_bytes(b.num_bits, 4);
    assert(b.encoded().subrange(0, 4) =~= be_bytes(length_field(b.num_bits), 4));
    assert(b.encoded().subrange(4, b.encoded().len() as int) =~= b.bits);
}

/// Exactly the bits that some keys hit are set.
pub open spec fn built_from(b: BloomView, keys: Seq<Vec<u8>>) -> bool {
    forall|p: int|
        0 <= p < b.bits.len() * 8 ==> #[trigger] bit_at(b.bits, p) == any_hits(keys, b.num_bits, p)
}

/// A filter never denies a key that it was built from.
pub proof fn no_false_negatives(b: BloomView, keys: Seq<Vec<u8>>, k: int)
    requires
        built_from(b, keys),
        b.wf(),
        0 <= k < keys.len(),
    ensures
        b.may_hold(keys[k]@),
{
    if b.num_bits > 0 {
        assert forall|i: int| 0 <= i < NUM_HASHES implies bit_at(
            b.bits,
            #[trigger] key_position(keys[k]@, i, b.num_bits),
        ) by {
            let p = key_position(keys[k]@, i, b.num_bits);
            assert(hits(keys[k]@, NUM_HASHES as int, b.num_bits, p));
            assert(bit_at(b.bits, p) == any_hits(keys, b.num_bits, p));
        }
    }
}

proof fn built_keys_are_held(b: BloomView, key: Seq<u8>)
    requires
        b.wf(),
    ensures
        forall|keys: Seq<Vec<u8>>, k: int|
            #![trigger built_from(b, keys), keys[k]]
            built_from(b, keys) && 0 <= k < keys.len() && keys[k]@ == key ==> b.may_hold(key),
{
    assert forall|keys: Seq<Vec<u8>>, k: int|
        #![trigger built_from(b, keys), keys[k]]
        built_from(b, keys) && 0 <= k < keys.len() && keys[k]@ == key implies b.may_hold(key) by {
        no_false_negatives(b, keys, k);
    }
}

proof fn set_bit(b: u8, s: u8, t: u8)
    requires
        s < 8,
        t < 8,
    ensures
        ((b | (1u8 << s)) & (1u8 << t) != 0) == (s == t || b & (1u8 << t) != 0),
{
    assert(((b | (1u8 << s)) & (1u8 << t) != 0) == (s == t || b & (1u8 << t) != 0)) by (bit_vector)
        requires
            s < 8,
            t < 8,
    ;
}

impl BloomFilter {
    /// A filter over `keys`.
    pub fn build(keys: &[Vec<u8>]) -> (b: BloomFilter)
        requires
            keys@.len() * BITS_PER_KEY <= usize::MAX,
        ensures
            b@.wf(),
            b@.num_bits == (if keys@.len() * BITS_PER_KEY >= 64 {
                keys@.len() * BITS_PER_KEY
            } else {
                64
            }),
            b@.bits.len() == bytes_for(b@.num_bits),
            b@.num_bits == 64 || b@.num_bits == 10 * keys@.len(),
            b@.num_bits >= 64 && b@.num_bits >= 10 * keys@.len(),
            b@.num_bits <= 8 * b@.bits.len() < b@.num_bits + 8,
            built_from(b@, keys@),
            forall|k: int| 0 <= k < keys@.len() ==> b@.may_hold(#[trigger] keys@[k]@),
    {
        let n: usize = if keys.len() > 1 {
            keys.len()
        } else {
            1
        };
        let wanted: usize = n * BITS_PER_KEY;
        let num_bits: usize = if wanted > 64 {
            wanted
        } else {
            64
        };
        let num_bytes: usize = num_bits / 8 + (if num_bits % 8 != 0 {
            1usize
        } else {
            0usize
        });
        let mut b = BloomFilter { bits: vec![0u8; num_bytes], num_bits };
        assert forall|p: int| 0 <= p < num_bytes * 8 implies !#[trigger] bit_at(b.bits@, p) by {
            let s = (p % 8) as u8;
            assert(0u8 & (1u8 << s) == 0) by (bit_vector);
        }
        let mut k: usize = 0;
        while k < keys.len()
            invariant
                k <= keys@.len(),
                b.num_bits == num_bits,
                64 <= num_bits <= num_bytes * 8,
                b.bits@.len() == num_bytes,
                forall|p: int|
                    0 <= p < num_bytes * 8 ==> #[trigger] bit_at(b.bits@, p) == any_hits(
                        keys@.take(k as int),
                        num_bits as nat,
                        p,
                    ),
            decreases keys.len() - k,
        {
            let ghost before = b.bits@;
            b.add(keys[k].as_slice());
            proof {
                let longer = keys@.take(k + 1);
                let shorter = keys@.take(k as int);
                assert forall|p: int| 0 <= p < num_bytes * 8 implies #[trigger] bit_at(b.bits@, p)
                    == any_hits(longer, num_bits as nat, p) by {
                    assert(bit_at(before, p) == any_hits(shorter, num_bits as nat, p));
                    if any_hits(shorter, num_bits as nat, p) {
                        let j = choose|j: int|
                            0 <= j < shorter.len() && hits(
                                shorter[j]@,
                                NUM_HASHES as int,
                                num_bits as nat,
                                p,
                            );
                        assert(longer[j] == shorter[j]);
                    }
                    if hits(keys@[k as int]@, NUM_HASHES as int, num_bits as nat, p) {
                        assert(longer[k as int] == keys@[k as int]);
                    }
                    if any_hits(longer, num_bits as nat, p) {
                        let j = choose|j: int|
                            0 <= j < longer.len() && hits(
                                longer[j]@,
                                NUM_HASHES as int,
                                num_bits as nat,
                                p,
                            );
                        if j < k {
                            assert(shorter[j] == longer[j]);
                        }
                    }
                }
            }
            k = k + 1;
        }
        assert(keys@.take(keys@.len() as int) =~= keys@);
        proof {
            assert forall|k: int| 0 <= k < keys@.len() implies b@.may_hold(
                #[trigger] keys@[k]@,
            ) by {
                no_false_negatives(b@, keys@, k);
            }
        }
        b
    }

    /// Sets the positions of `key`.
    fn add(&mut self, key: &[u8])
        requires
            old(self)@.wf(),
            old(self)@.num_bits > 0,
        ensures
            final(self)@.num_bits == old(self)@.num_bits,
            final(self)@.bits.len() == old(self)@.bits.len(),
            forall|p: int|
                0 <= p < old(self)@.bits.len() * 8 ==> #[trigger] bit_at(final(self)@.bits, p) == (
                bit_at(old(self)@.bits, p) || hits(
                    key@,
                    NUM_HASHES as int,
                    old(self)@.num_bits,
                    p,
                )),
    {
        let ghost start = self.bits@;
        let ghost n = self.num_bits as nat;
        let (h1, h2) = Self::hashes(key);
        let mut i: u64 = 0;
        while i < NUM_HASHES
            invariant
                i <= NUM_HASHES,
                self.num_bits == n,
                0 < n <= self.bits@.len() * 8,
                self.bits@.len() == start.len(),
                h1 == xxh3_64(key@, 0),
                h2 == xxh3_64(key@, SECOND_SEED),
                forall|p: int|
                    0 <= p < start.len() * 8 ==> #[trigger] bit_at(self.bits@, p) == (bit_at(
                        start,
                        p,
                    ) || hits(key@, i as int, n, p)),
            decreases NUM_HASHES - i,
        {
            let ghost before = self.bits@;
            let bit: usize = Self::nth_bit(h1, h2, i, self.num_bits);
            let at: usize = bit / 8;
            let s: u8 = (bit % 8) as u8;
            let b: u8 = self.bits[at];
            self.bits.set(at, b | (1u8 << s));
            proof {
                assert(key_position(key@, i as int, n) == bit);
                assert forall|p: int| 0 <= p < start.len() * 8 implies #[trigger] bit_at(
                    self.bits@,
                    p,
                ) == (bit_at(start, p) || hits(key@, i + 1, n, p)) by {
                    assert(bit_at(before, p) == (bit_at(start, p) || hits(key@, i as int, n, p)));
                    set_bit(b, s, (p % 8) as u8);
                    if p == bit {
                        assert(hits(key@, i + 1, n, p));
                    }
                    if hits(key@, i as int, n, p) {
                        let j = choose|j: int| 0 <= j < i && key_position(key@, j, n) == p;
                        assert(key_position(key@, j, n) == p);
                    }
                    if hits(key@, i + 1, n, p) && p != bit {
                        let j = choose|j: int| 0 <= j < i + 1 && key_position(key@, j, n) == p;
                        assert(key_position(key@, j, n) == p);
                    }
                }
            }
            i = i + 1;
        }
    }

    /// False only for a key that the filter was not built from.
    pub fn maybe_contains(&self, key: &[u8]) -> (r: bool)
        requires
            self@.wf(),
        ensures
            r == self@.may_hold(key@),
            forall|keys: Seq<Vec<u8>>, k: int|
                #![trigger built_from(self@, keys), keys[k]]
                built_from(self@, keys) && 0 <= k < keys.len() && keys[k]@ == key@ ==> r,
    {
        if self.num_bits == 0 {
            return true;
        }
        let (h1, h2) = Self::hashes(key);
        let mut i: u64 = 0;
        while i < NUM_HASHES
            invariant
                i <= NUM_HASHES,
                0 < self.num_bits <= self.bits@.len() * 8,
                h1 == xxh3_64(key@, 0),
                h2 == xxh3_64(key@, SECOND_SEED),
                forall|j: int|
                    0 <= j < i ==> bit_at(
                        self.bits@,
                        #[trigger] key_position(key@, j, self.num_bits as nat),
                    ),
            decreases NUM_HASHES - i,
        {
            let bit: usize = Self::nth_bit(h1, h2, i, self.num_bits);
            assert(key_position(key@, i as int, self.num_bits as nat) == bit);
            if self.bits[bit / 8] & (1u8 << ((bit % 8) as u8)) == 0 {
                assert(!bit_at(self@.bits, key_position(key@, i as int, self@.num_bits)));
                proof {
                    built_keys_are_held(self@, key@);
                }
                return false;
            }
            i = i + 1;
        }
        true
    }

    fn hashes(key: &[u8]) -> (r: (u64, u64))
        ensures
            r.0 == xxh3_64(key@, 0),
            r.1 == xxh3_64(key@, SECOND_SEED),
    {
        (seeded_hash(key, 0), seeded_hash(key, SECOND_SEED))
    }

    fn nth_bit(h1: u64, h2: u64, i: u64, num_bits: usize) -> (p: usize)
        requires
            num_bits > 0,
        ensures
            p == position(h1, h2, i as int, num_bits as nat),
            p < num_bits,
    {
        let combined: u64 = h1.wrapping_add(i.wrapping_mul(h2));
        proof {
            lemma_add_mod_noop_right(h1 as int, i * h2, 0x1_0000_0000_0000_0000);
        }
        (combined % num_bits as u64) as usize
    }

    /// The stored form: the number of bits in four bytes, then the bit bytes.
    pub fn encode(&self) -> (buf: Vec<u8>)
        ensures
            buf@ == self@.encoded(),
    {
        let mut buf: Vec<u8> = Vec::new();
        put_length(&mut buf, self.num_bits);
        append_bytes(&mut buf, self.bits.as_slice());
        assert(buf@ =~= self@.encoded());
        buf
    }

    /// Reads a stored form; `None` where it is too short.
    pub fn decode(buf: &[u8]) -> (r: Option<BloomFilter>)
        ensures
            match r {
                Some(b) => BloomView::decoded(buf@) == Some(b@) && b@.wf(),
                None => BloomView::decoded(buf@) is None,
            },
    {
        if buf.len() < 4 {
            return None;
        }
        proof {
            be_limits();
        }
        let num_bits: usize = get_be(buf, 0, 4) as usize;
        let bits: Vec<u8> = copy_range(buf, 4, buf.len());
        let needed: usize = num_bits / 8 + (if num_bits % 8 != 0 {
            1usize
        } else {
            0usize
        });
        if bits.len() < needed {
            return None;
        }
        Some(BloomFilter { bits, num_bits })
    }
}

} // verus!
