//! A Bloom filter per table: a compact set that says of a key that it is
//! definitely absent, or that it may be there. A lookup asks it before it reads
//! any block.
//!
//! The `k` bits of a key come from two hashes by double hashing: bit `i` is
//! `h1 + i * h2`, modulo 64 bits and then modulo the number of bits.
//!
//! Encoded it is `[k:4][bit_count:8][bits...]`, numbers lowest byte first.

use vstd::prelude::*;

use crate::bytes;
use crate::error::{Error, ErrorView, Result};
use crate::hash;

verus! {

/// The content of a [`BloomFilter`].
#[verifier::ext_equal]
pub struct BloomView {
    pub bits: Seq<u8>,
    pub bit_count: u64,
    pub k: u32,
}

/// Bit `i` of a run of bytes.
pub open spec fn has_bit(bits: Seq<u8>, i: int) -> bool {
    bits[i / 8] & (1u8 << (i % 8) as u8) != 0
}

/// The bytes with bit `i` set.
pub open spec fn with_bit(bits: Seq<u8>, i: int) -> Seq<u8> {
    bits.update(i / 8, bits[i / 8] | (1u8 << (i % 8) as u8))
}

/// How many bytes hold `n` bits.
pub open spec fn byte_len(n: u64) -> nat {
    ((n + 7) / 8) as nat
}

impl BloomView {
    /// A filter has at least one bit, sets at least one per key, and has as
    /// many bytes as its bits need.
    pub open spec fn wf(self) -> bool {
        &&& self.k > 0
        &&& self.bit_count > 0
        &&& self.bits.len() == byte_len(self.bit_count)
    }

    /// Bit number `i` of a key.
    pub open spec fn position(self, key: Seq<u8>, i: nat) -> int {
        ((hash::xxh3(key, 0) + i * hash::xxh3(key, 1)) % 0x1_0000_0000_0000_0000)
            % self.bit_count as int
    }

    /// The filter with the first `n` bits of a key set.
    pub open spec fn with_some(self, key: Seq<u8>, n: nat) -> BloomView
        decreases n,
    {
        if n == 0 {
            self
        } else {
            let v = self.with_some(key, (n - 1) as nat);
            BloomView { bits: with_bit(v.bits, self.position(key, (n - 1) as nat)), ..v }
        }
    }

    /// The filter with a key.
    pub open spec fn with(self, key: Seq<u8>) -> BloomView {
        self.with_some(key, self.k as nat)
    }

    /// Whether the first `n` bits of a key are set.
    pub open spec fn has_some(self, key: Seq<u8>, n: nat) -> bool {
        forall|i: nat| i < n ==> has_bit(self.bits, #[trigger] self.position(key, i))
    }

    /// Whether a key may be there.
    pub open spec fn may_have(self, key: Seq<u8>) -> bool {
        self.has_some(key, self.k as nat)
    }

    /// The bytes of the filter.
    pub open spec fn encoded(self) -> Seq<u8> {
        bytes::le(self.k as nat, 4) + bytes::le(self.bit_count as nat, 8) + self.bits
    }

    /// The filter in these bytes, or why there is none.
    pub open spec fn decoded(buf: Seq<u8>) -> core::result::Result<BloomView, ErrorView> {
        let k = bytes::from_le(buf.subrange(0, 4)) as u32;
        let bit_count = bytes::from_le(buf.subrange(4, 12)) as u64;
        if buf.len() < 12 {
            Err(ErrorView::Corrupt("bloom filter truncated"@))
        } else if buf.len() != 12 + byte_len(bit_count) {
            Err(ErrorView::Corrupt("bloom filter length mismatch"@))
        } else if k == 0 || bit_count == 0 {
            Err(ErrorView::Corrupt("bloom filter has zero parameters"@))
        } else {
            Ok(BloomView { bits: buf.skip(12), bit_count, k })
        }
    }

    /// An empty filter.
    pub open spec fn empty(bit_count: u64, k: u32) -> BloomView {
        BloomView { bits: Seq::new(byte_len(bit_count), |i: int| 0u8), bit_count, k }
    }
}

// -------------------------------------------------------------------- laws
/// Setting a bit sets that bit and leaves the others.
proof fn one_bit(bits: Seq<u8>, i: int, j: int)
    requires
        0 <= i < 8 * bits.len(),
        0 <= j < 8 * bits.len(),
    ensures
        has_bit(with_bit(bits, i), j) == (i == j || has_bit(bits, j)),
        with_bit(bits, i).len() == bits.len(),
{
    let b = bits[i / 8];
    let s = (i % 8) as u8;
    let t = (j % 8) as u8;
    if i / 8 == j / 8 {
        assert((b | (1u8 << s)) & (1u8 << t) != 0 <==> (s == t || b & (1u8 << t) != 0))
            by (bit_vector)
            requires
                s < 8,
                t < 8,
        ;
    }
}

proof fn position_in_range(v: BloomView, key: Seq<u8>, i: nat)
    requires
        v.wf(),
    ensures
        0 <= v.position(key, i) < 8 * v.bits.len(),
        0 <= v.position(key, i) < v.bit_count,
{
    let x = (hash::xxh3(key, 0) + i * hash::xxh3(key, 1)) % 0x1_0000_0000_0000_0000;
    assert(0 <= x % (v.bit_count as int) < v.bit_count) by (nonlinear_arith)
        requires
            v.bit_count > 0,
    ;
}

/// The bits of a key are set, and what was set stays set.
proof fn some_bits(v: BloomView, key: Seq<u8>, n: nat)
    requires
        v.wf(),
    ensures
        v.with_some(key, n).wf(),
        v.with_some(key, n).bit_count == v.bit_count,
        v.with_some(key, n).k == v.k,
        v.with_some(key, n).has_some(key, n),
        forall|j: int|
            0 <= j < 8 * v.bits.len() && has_bit(v.bits, j) ==> #[trigger] has_bit(
                v.with_some(key, n).bits,
                j,
            ),
    decreases n,
{
    if n > 0 {
        let m = (n - 1) as nat;
        some_bits(v, key, m);
        let u = v.with_some(key, m);
        let w = v.with_some(key, n);
        position_in_range(v, key, m);
        let at = v.position(key, m);
        assert forall|j: int| 0 <= j < 8 * v.bits.len() && has_bit(v.bits, j) implies #[trigger]
        has_bit(w.bits, j) by {
            one_bit(u.bits, at, j);
        }
        one_bit(u.bits, at, at);
        assert forall|i: nat| i < n implies has_bit(w.bits, #[trigger] w.position(key, i)) by {
            position_in_range(v, key, i);
            assert(w.position(key, i) == u.position(key, i));
            if i < m {
                one_bit(u.bits, at, u.position(key, i));
            }
        }
    }
}

/// No false negatives: a key that was put in may be there, and so may every key
/// that might have been there before.
pub proof fn no_false_negatives(v: BloomView, key: Seq<u8>, other: Seq<u8>)
    requires
        v.wf(),
    ensures
        v.with(key).wf(),
        v.with(key).may_have(key),
        v.may_have(other) ==> v.with(key).may_have(other),
{
    some_bits(v, key, v.k as nat);
    let w = v.with(key);
    if v.may_have(other) {
        assert forall|i: nat| i < w.k implies has_bit(w.bits, #[trigger] w.position(other, i)) by {
            position_in_range(v, other, i);
            assert(w.position(other, i) == v.position(other, i));
        }
    }
}

/// A filter is read back from its bytes.
pub proof fn filter_round_trip(v: BloomView)
    requires
        v.wf(),
    ensures
        BloomView::decoded(v.encoded()) == Ok::<BloomView, ErrorView>(v),
        v.encoded().len() == 12 + byte_len(v.bit_count),
{
    let buf = v.encoded();
    bytes::spans();
    bytes::le_round_trip(v.k as nat, 4);
    bytes::le_round_trip(v.bit_count as nat, 8);
    assert(buf.subrange(0, 4) =~= bytes::le(v.k as nat, 4));
    assert(buf.subrange(4, 12) =~= bytes::le(v.bit_count as nat, 8));
    assert(buf.skip(12) =~= v.bits);
}

/// A filter that was read is one: its parameters are not zero and its bytes are
/// as many as its bits need.
pub proof fn decoded_is_wf(buf: Seq<u8>)
    ensures
        BloomView::decoded(buf) matches Ok(v) ==> v.wf() && v.encoded() == buf,
{
    if let Ok(v) = BloomView::decoded(buf) {
        bytes::from_le_round_trip(buf.subrange(0, 4));
        bytes::from_le_round_trip(buf.subrange(4, 12));
        bytes::spans();
        assert(v.encoded() =~= buf);
    }
}

// -------------------------------------------------------------- the filter
/// A Bloom filter of a fixed size.
pub struct BloomFilter {
    bits: Vec<u8>,
    bit_count: u64,
    k: u32,
}

impl View for BloomFilter {
    type V = BloomView;

    closed spec fn view(&self) -> BloomView {
        BloomView { bits: self.bits@, bit_count: self.bit_count, k: self.k }
    }
}

impl BloomFilter {
    /// An empty filter with `bit_count` bits that sets `k` of them per key.
    pub fn new(bit_count: u64, k: u32) -> (r: BloomFilter)
        requires
            bit_count > 0,
            k > 0,
            byte_len(bit_count) <= isize::MAX,
        ensures
            r@ == BloomView::empty(bit_count, k),
            r@.wf(),
    {
        let n: usize = (bit_count / 8 + if bit_count % 8 == 0 {
            0
        } else {
            1
        }) as usize;
        let r = BloomFilter { bits: vec![0u8; n], bit_count, k };
        assert(r@ =~= BloomView::empty(bit_count, k));
        r
    }

    /// How many bits there are.
    pub fn bit_count(&self) -> (r: u64)
        ensures
            r == self@.bit_count,
    {
        self.bit_count
    }

    /// How many bits are set per key.
    pub fn hash_count(&self) -> (r: u32)
        ensures
            r == self@.k,
    {
        self.k
    }

    /// The two hashes of a key.
    fn hashes(key: &[u8]) -> (r: (u64, u64))
        ensures
            r.0 == hash::xxh3(key@, 0),
            r.1 == hash::xxh3(key@, 1),
    {
        (hash::xxh3_64(key, 0), hash::xxh3_64(key, 1))
    }

    /// Bit number `i` of a key with these hashes.
    fn bit_at(&self, h: (u64, u64), i: u32, Ghost(key): Ghost<Seq<u8>>) -> (r: u64)
        requires
            self@.wf(),
            h.0 == hash::xxh3(key, 0),
            h.1 == hash::xxh3(key, 1),
        ensures
            r == self@.position(key, i as nat),
            r / 8 < self@.bits.len() <= usize::MAX,
    {
        let n: usize = self.bits.len();
        let step: u64 = (i as u64).wrapping_mul(h.1);
        let at: u64 = h.0.wrapping_add(step);
        proof {
            let m = 0x1_0000_0000_0000_0000int;
            let p = i as int * h.1 as int;
            assert(step as int == p % m);
            vstd::arithmetic::div_mod::lemma_add_mod_noop_right(h.0 as int, p, m);
            assert(at as int == (h.0 + step) % m);
            position_in_range(self@, key, i as nat);
            assert(n == self@.bits.len());
        }
        at % self.bit_count
    }

    /// Put a key in.
    pub fn insert(&mut self, key: &[u8])
        requires
            old(self)@.wf(),
        ensures
            final(self)@ == old(self)@.with(key@),
            final(self)@.wf(),
    {
        let h = Self::hashes(key);
        let k: u32 = self.k;
        let ghost start = self@;
        let mut i: u32 = 0;
        while i < k
            invariant
                i <= k,
                k == start.k,
                start.wf(),
                self@.wf(),
                self@ == start.with_some(key@, i as nat),
                self@.bit_count == start.bit_count,
                h.0 == hash::xxh3(key@, 0),
                h.1 == hash::xxh3(key@, 1),
            decreases k - i,
        {
            let bit: u64 = self.bit_at(h, i, Ghost(key@));
            let at: usize = (bit / 8) as usize;
            let mask: u8 = 1u8 << (bit % 8) as u8;
            let ghost before = self@;
            let old_byte: u8 = self.bits[at];
            self.bits[at] = old_byte | mask;
            proof {
                assert(before.position(key@, i as nat) == start.position(key@, i as nat));
                assert(self@.bits =~= with_bit(before.bits, bit as int));
                assert(self@ =~= start.with_some(key@, (i + 1) as nat));
            }
            i += 1;
        }
    }

    /// `false` only if the key is definitely absent; `true` means that it may
    /// be there.
    pub fn contains(&self, key: &[u8]) -> (r: bool)
        requires
            self@.wf(),
        ensures
            r == self@.may_have(key@),
    {
        let h = Self::hashes(key);
        let mut i: u32 = 0;
        while i < self.k
            invariant
                i <= self.k,
                self@.wf(),
                self@.has_some(key@, i as nat),
                h.0 == hash::xxh3(key@, 0),
                h.1 == hash::xxh3(key@, 1),
            decreases self.k - i,
        {
            let bit: u64 = self.bit_at(h, i, Ghost(key@));
            let mask: u8 = 1u8 << (bit % 8) as u8;
            if self.bits[(bit / 8) as usize] & mask == 0 {
                assert(!has_bit(self@.bits, self@.position(key@, i as nat)));
                return false;
            }
            proof {
                assert(has_bit(self@.bits, self@.position(key@, i as nat)));
                assert forall|j: nat| j < i + 1 implies has_bit(
                    self@.bits,
                    #[trigger] self@.position(key@, j),
                ) by {}
            }
            i += 1;
        }
        true
    }

    /// The bytes of the filter.
    pub fn encode(&self) -> (r: Vec<u8>)
        ensures
            r@ == self@.encoded(),
    {
        let mut buf: Vec<u8> = Vec::new();
        bytes::push_u32(&mut buf, self.k);
        bytes::push_u64(&mut buf, self.bit_count);
        bytes::append(&mut buf, self.bits.as_slice());
        assert(buf@ =~= self@.encoded());
        buf
    }

    /// Read a filter from its bytes.
    pub fn decode(buf: &[u8]) -> (r: Result<BloomFilter>)
        ensures
            match BloomView::decoded(buf@) {
                Ok(v) => r is Ok && r->Ok_0@ == v && v.wf(),
                Err(e) => r is Err && r->Err_0@ == e,
            },
    {
        let total: usize = buf.len();
        if total < 12 {
            return Err(Error::corrupt("bloom filter truncated"));
        }
        let k: u32 = bytes::get_u32(buf, 0);
        let bit_count: u64 = bytes::get_u64(buf, 4);
        let need: u64 = bit_count / 8 + if bit_count % 8 == 0 {
            0
        } else {
            1
        };
        if (total - 12) as u64 != need {
            return Err(Error::corrupt("bloom filter length mismatch"));
        }
        if k == 0 || bit_count == 0 {
            return Err(Error::corrupt("bloom filter has zero parameters"));
        }
        let bits = bytes::copy(bytes::part(buf, 12, total));
        assert(bits@ =~= buf@.skip(12));
        Ok(BloomFilter { bits, bit_count, k })
    }
}

/// Which bits a key sets: bit number `i` of a key is the first hash of all of the key
/// plus `i` times the second, in 64 bits, modulo the number of bits. A filter with the
/// key has these bits and those that it had, and no others.
pub proof fn key_sets_its_bits(v: BloomView, key: Seq<u8>, j: int)
    requires
        v.wf(),
        0 <= j < 8 * v.bits.len(),
    ensures
        has_bit(v.with(key).bits, j) <==> has_bit(v.bits, j) || exists|i: nat|
            i < v.k && j == #[trigger] v.position(key, i),
        forall|i: nat| #[trigger]
            v.position(key, i) == ((hash::xxh3(key, 0) + i * hash::xxh3(key, 1))
                % 0x1_0000_0000_0000_0000) % (v.bit_count as int),
{
    bits_set_by(v, key, v.k as nat, j);
}

proof fn bits_set_by(v: BloomView, key: Seq<u8>, n: nat, j: int)
    requires
        v.wf(),
        0 <= j < 8 * v.bits.len(),
    ensures
        has_bit(v.with_some(key, n).bits, j) <==> has_bit(v.bits, j) || exists|i: nat|
            i < n && j == #[trigger] v.position(key, i),
        v.with_some(key, n).bits.len() == v.bits.len(),
    decreases n,
{
    if n > 0 {
        let m = (n - 1) as nat;
        bits_set_by(v, key, m, j);
        position_in_range(v, key, m);
        one_bit(v.with_some(key, m).bits, v.position(key, m), j);
        if exists|i: nat| i < n && j == #[trigger] v.position(key, i) {
            let i = choose|i: nat| i < n && j == #[trigger] v.position(key, i);
            if i < m {
                assert(exists|i: nat| i < m && j == #[trigger] v.position(key, i));
            }
        }
        if exists|i: nat| i < m && j == #[trigger] v.position(key, i) {
            let i = choose|i: nat| i < m && j == #[trigger] v.position(key, i);
            assert(i < n && j == v.position(key, i));
        }
    }
}

/// A key may be there exactly if every one of its bits is set. A new filter has none.
pub proof fn key_is_asked_by_its_bits(v: BloomView, key: Seq<u8>, bit_count: u64, k: u32, j: int)
    ensures
        v.may_have(key) <==> forall|i: nat|
            i < v.k ==> has_bit(v.bits, #[trigger] v.position(key, i)),
        0 <= j < bit_count ==> !has_bit(BloomView::empty(bit_count, k).bits, j),
        BloomView::empty(bit_count, k).bits.len() == (bit_count + 7) / 8,
{
    if 0 <= j < bit_count {
        let s = (j % 8) as u8;
        assert(0u8 & (1u8 << s) == 0) by (bit_vector);
    }
}

/// What stands in the bytes of a filter: how many bits it sets per key, how many bits
/// it has, both lowest byte first, and the bits.
pub proof fn filter_layout(v: BloomView)
    ensures
        v.encoded().len() == 12 + v.bits.len(),
        bytes::from_le(v.encoded().subrange(0, 4)) == v.k,
        bytes::from_le(v.encoded().subrange(4, 12)) == v.bit_count,
        v.encoded().skip(12) == v.bits,
{
    bytes::spans();
    bytes::le_round_trip(v.k as nat, 4);
    bytes::le_round_trip(v.bit_count as nat, 8);
    assert(v.encoded().subrange(0, 4) =~= bytes::le(v.k as nat, 4));
    assert(v.encoded().subrange(4, 12) =~= bytes::le(v.bit_count as nat, 8));
    assert(v.encoded().skip(12) =~= v.bits);
}

} // verus!
