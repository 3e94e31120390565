//! Byte strings: their order, and the little-endian integers inside them.

use vstd::prelude::*;
use vstd::slice::slice_subrange;

verus! {

/// Lexicographic order on byte strings: the first byte that differs decides,
/// and a proper prefix comes first.
pub open spec fn lex_lt(a: Seq<u8>, b: Seq<u8>) -> bool
    decreases a.len(),
{
    if b.len() == 0 {
        false
    } else if a.len() == 0 {
        true
    } else if a[0] != b[0] {
        a[0] < b[0]
    } else {
        lex_lt(a.drop_first(), b.drop_first())
    }
}

/// `a` comes before `b` or is the same byte string.
pub open spec fn lex_le(a: Seq<u8>, b: Seq<u8>) -> bool {
    a == b || lex_lt(a, b)
}

/// No byte string comes before itself.
pub proof fn lex_irreflexive(a: Seq<u8>)
    ensures
        !lex_lt(a, a),
    decreases a.len(),
{
    if a.len() > 0 {
        lex_irreflexive(a.drop_first());
    }
}

/// The order is transitive.
pub proof fn lex_transitive(a: Seq<u8>, b: Seq<u8>, c: Seq<u8>)
    requires
        lex_lt(a, b),
        lex_lt(b, c),
    ensures
        lex_lt(a, c),
    decreases a.len(),
{
    if a.len() > 0 && a[0] == b[0] && b[0] == c[0] {
        lex_transitive(a.drop_first(), b.drop_first(), c.drop_first());
    }
}

/// Of two byte strings exactly one of three things holds: one comes first, the
/// other does, or they are the same.
pub proof fn lex_total(a: Seq<u8>, b: Seq<u8>)
    ensures
        lex_lt(a, b) || a == b || lex_lt(b, a),
        !(lex_lt(a, b) && lex_lt(b, a)),
        lex_lt(a, b) ==> a != b,
        lex_lt(b, a) ==> a != b,
    decreases a.len(),
{
    lex_irreflexive(a);
    lex_irreflexive(b);
    if a.len() > 0 && b.len() > 0 && a[0] == b[0] {
        lex_total(a.drop_first(), b.drop_first());
        if a.drop_first() == b.drop_first() {
            assert(a =~= seq![a[0]] + a.drop_first());
            assert(b =~= seq![b[0]] + b.drop_first());
        }
    } else if a.len() == 0 && b.len() == 0 {
        assert(a =~= b);
    }
}

/// The order is by the first byte at which two byte strings part, taken as an
/// unsigned number: whatever follows, and whatever both start with.
pub proof fn lower_byte_comes_first(
    front: Seq<u8>,
    low: u8,
    high: u8,
    x: Seq<u8>,
    y: Seq<u8>,
)
    requires
        low < high,
    ensures
        lex_lt(front + seq![low] + x, front + seq![high] + y),
        !lex_lt(front + seq![high] + y, front + seq![low] + x),
    decreases front.len(),
{
    let a = front + seq![low] + x;
    let b = front + seq![high] + y;
    if front.len() > 0 {
        lower_byte_comes_first(front.drop_first(), low, high, x, y);
        assert(a.drop_first() =~= front.drop_first() + seq![low] + x);
        assert(b.drop_first() =~= front.drop_first() + seq![high] + y);
    } else {
        assert(a[0] == low && b[0] == high);
    }
}

/// A byte string comes before every longer one that starts with it.
pub proof fn prefix_comes_first(front: Seq<u8>, next: u8, rest: Seq<u8>)
    ensures
        lex_lt(front, front + seq![next] + rest),
        !lex_lt(front + seq![next] + rest, front),
    decreases front.len(),
{
    let b = front + seq![next] + rest;
    if front.len() > 0 {
        prefix_comes_first(front.drop_first(), next, rest);
        assert(b.drop_first() =~= front.drop_first() + seq![next] + rest);
    }
}

/// There is no other way for one byte string to come before another: it is a
/// proper prefix, or the two agree up to a place at which it has the lower byte.
pub proof fn earlier_has_the_lower_byte(a: Seq<u8>, b: Seq<u8>)
    requires
        lex_lt(a, b),
    ensures
        exists|n: int|
            {
                &&& 0 <= n <= a.len()
                &&& n < b.len()
                &&& #[trigger] a.take(n) == b.take(n)
                &&& n == a.len() || a[n] < b[n]
            },
    decreases a.len(),
{
    if a.len() == 0 || a[0] != b[0] {
        assert(a.take(0) =~= b.take(0));
    } else {
        earlier_has_the_lower_byte(a.drop_first(), b.drop_first());
        let (a1, b1) = (a.drop_first(), b.drop_first());
        let n = choose|n: int|
            {
                &&& 0 <= n <= a1.len()
                &&& n < b1.len()
                &&& #[trigger] a1.take(n) == b1.take(n)
                &&& n == a1.len() || a1[n] < b1[n]
            };
        assert(a.take(n + 1) =~= seq![a[0]] + a1.take(n));
        assert(b.take(n + 1) =~= seq![b[0]] + b1.take(n));
        assert(a.take(n + 1) == b.take(n + 1));
    }
}

/// How one byte string stands to another.
#[derive(Debug, Clone, Copy, PartialEq, Eq, Structural)]
pub enum Order {
    /// It comes first.
    Less,
    /// The two are the same.
    Equal,
    /// It comes after.
    Greater,
}

/// Whether the first `n` bytes agree, and the order is that of the rest.
proof fn lex_skip(a: Seq<u8>, b: Seq<u8>, n: int)
    requires
        0 <= n <= a.len(),
        n <= b.len(),
        forall|i: int| 0 <= i < n ==> a[i] == b[i],
    ensures
        lex_lt(a, b) == lex_lt(a.skip(n), b.skip(n)),
    decreases n,
{
    if n == 0 {
        assert(a.skip(0) =~= a);
        assert(b.skip(0) =~= b);
    } else {
        let a1 = a.drop_first();
        let b1 = b.drop_first();
        lex_skip(a1, b1, n - 1);
        assert(a1.skip(n - 1) =~= a.skip(n));
        assert(b1.skip(n - 1) =~= b.skip(n));
    }
}

/// Compare two byte strings.
pub fn order(a: &[u8], b: &[u8]) -> (r: Order)
    ensures
        r == Order::Less <==> lex_lt(a@, b@),
        r == Order::Equal <==> a@ == b@,
        r == Order::Greater <==> lex_lt(b@, a@),
{
    let mut i: usize = 0;
    while i < a.len() && i < b.len()
        invariant
            i <= a.len(),
            i <= b.len(),
            forall|j: int| 0 <= j < i ==> a@[j] == b@[j],
        decreases a.len() - i,
    {
        if a[i] != b[i] {
            proof {
                lex_skip(a@, b@, i as int);
                lex_skip(b@, a@, i as int);
                lex_total(a@, b@);
            }
            if a[i] < b[i] {
                return Order::Less;
            }
            return Order::Greater;
        }
        i += 1;
    }
    proof {
        lex_skip(a@, b@, i as int);
        lex_skip(b@, a@, i as int);
        lex_total(a@, b@);
    }
    if a.len() < b.len() {
        Order::Less
    } else if a.len() > b.len() {
        Order::Greater
    } else {
        assert(a@ =~= b@);
        Order::Equal
    }
}

/// Whether two byte strings are the same.
pub fn same(a: &[u8], b: &[u8]) -> (r: bool)
    ensures
        r == (a@ == b@),
{
    order(a, b) == Order::Equal
}

/// Whether `a` comes strictly before `b`.
pub fn less(a: &[u8], b: &[u8]) -> (r: bool)
    ensures
        r == lex_lt(a@, b@),
{
    order(a, b) == Order::Less
}

/// A copy of `bytes`.
pub fn copy(bytes: &[u8]) -> (r: Vec<u8>)
    ensures
        r@ == bytes@,
{
    let mut out: Vec<u8> = Vec::with_capacity(bytes.len());
    append(&mut out, bytes);
    assert(out@ =~= bytes@);
    out
}

/// Put `bytes` at the end of `buf`.
pub fn append(buf: &mut Vec<u8>, bytes: &[u8])
    ensures
        final(buf)@ == old(buf)@ + bytes@,
{
    let ghost before = buf@;
    buf.extend_from_slice(bytes);
    assert(buf@ =~= before + bytes@);
}

/// The bytes of `buf` from `from` up to `to`.
pub fn part(buf: &[u8], from: usize, to: usize) -> (r: &[u8])
    requires
        from <= to <= buf@.len(),
    ensures
        r@ == buf@.subrange(from as int, to as int),
{
    slice_subrange(buf, from, to)
}

// ------------------------------------------------- little-endian integers
/// The `n` low-order bytes of `x`, the lowest first.
pub open spec fn le(x: nat, n: nat) -> Seq<u8>
    decreases n,
{
    if n == 0 {
        Seq::empty()
    } else {
        seq![(x % 256) as u8] + le(x / 256, (n - 1) as nat)
    }
}

/// The number that a run of bytes stands for, the lowest byte first.
pub open spec fn from_le(s: Seq<u8>) -> nat
    decreases s.len(),
{
    if s.len() == 0 {
        0
    } else {
        (s[0] + 256 * from_le(s.drop_first())) as nat
    }
}

/// 256 to the power of `n`: how many numbers `n` bytes can hold.
pub open spec fn span(n: nat) -> nat
    decreases n,
{
    if n == 0 {
        1
    } else {
        256 * span((n - 1) as nat)
    }
}

/// `n` bytes come out.
pub proof fn le_len(x: nat, n: nat)
    ensures
        le(x, n).len() == n,
    decreases n,
{
    if n > 0 {
        le_len(x / 256, (n - 1) as nat);
    }
}

/// Reading back what was written gives the number, where it fits.
pub proof fn le_round_trip(x: nat, n: nat)
    requires
        x < span(n),
    ensures
        from_le(le(x, n)) == x,
        le(x, n).len() == n,
    decreases n,
{
    le_len(x, n);
    if n > 0 {
        le_round_trip(x / 256, (n - 1) as nat);
        assert(le(x, n).drop_first() =~= le(x / 256, (n - 1) as nat));
    }
}

/// What `n` bytes stand for fits in `n` bytes, and writing it gives them back.
pub proof fn from_le_round_trip(s: Seq<u8>)
    ensures
        from_le(s) < span(s.len()),
        le(from_le(s), s.len()) == s,
    decreases s.len(),
{
    if s.len() > 0 {
        from_le_round_trip(s.drop_first());
        assert(s =~= seq![s[0]] + s.drop_first());
    } else {
        assert(le(from_le(s), s.len()) =~= s);
    }
}

/// Byte `i` of a number is the remainder by 256 of the number over 256 to the
/// power of `i`: the bytes stand from the lowest to the highest.
pub proof fn byte_of_number(x: nat, n: nat, i: nat)
    requires
        i < n,
    ensures
        le(x, n)[i as int] as int == (x as int / vstd::arithmetic::power::pow(256, i)) % 256,
    decreases n,
{
    le_len(x, n);
    le_len(x / 256, (n - 1) as nat);
    vstd::arithmetic::power::lemma_pow0(256);
    if i == 0 {
        assert(le(x, n)[0] == (x % 256) as u8);
    } else {
        let j = (i - 1) as nat;
        assert(le(x, n)[i as int] == le(x / 256, (n - 1) as nat)[j as int]);
        byte_of_number(x / 256, (n - 1) as nat, j);
        vstd::arithmetic::power::lemma_pow_positive(256, j);
        vstd::arithmetic::power::lemma_pow_positive(256, i);
        let p = vstd::arithmetic::power::pow(256, j);
        assert(vstd::arithmetic::power::pow(256, i) == 256 * p) by {
            reveal(vstd::arithmetic::power::pow);
        }
        vstd::arithmetic::div_mod::lemma_div_denominator(x as int, 256, p);
    }
}

/// What bytes stand for is the sum of each of them times 256 to the power of its
/// place: one more byte at the end counts for that much more.
pub proof fn number_of_bytes(s: Seq<u8>, last: u8)
    ensures
        from_le(Seq::empty()) == 0,
        from_le(s.push(last)) == from_le(s) + last * vstd::arithmetic::power::pow(
            256,
            s.len(),
        ),
    decreases s.len(),
{
    let all = s.push(last);
    vstd::arithmetic::power::lemma_pow0(256);
    if s.len() == 0 {
        assert(all.drop_first() =~= s);
        assert(from_le(all.drop_first()) == 0);
    } else {
        let rest = s.drop_first();
        number_of_bytes(rest, last);
        assert(all.drop_first() =~= rest.push(last));
        let p = vstd::arithmetic::power::pow(256, rest.len());
        assert(vstd::arithmetic::power::pow(256, s.len()) == 256 * p) by {
            reveal(vstd::arithmetic::power::pow);
        }
        assert(256 * (from_le(rest) + last * p) == 256 * from_le(rest) + last * (256 * p))
            by (nonlinear_arith);
    }
}

/// How many numbers fit in the widths that the file formats use.
pub proof fn spans()
    ensures
        span(1) == 0x100,
        span(2) == 0x1_0000,
        span(4) == 0x1_0000_0000,
        span(8) == 0x1_0000_0000_0000_0000,
{
    reveal_with_fuel(span, 9);
}

/// Put the `n` low-order bytes of `x` at the end of `buf`, the lowest first.
fn push_le(buf: &mut Vec<u8>, x: u64, n: usize)
    ensures
        final(buf)@ == old(buf)@ + le(x as nat, n as nat),
{
    let ghost before = buf@;
    let mut rest: u64 = x;
    let mut left: usize = n;
    while left > 0
        invariant
            left <= n,
            before + le(x as nat, n as nat) == buf@ + le(rest as nat, left as nat),
        decreases left,
    {
        let ghost now = buf@;
        buf.push((rest % 256) as u8);
        proof {
            assert(now + le(rest as nat, left as nat) =~= buf@ + le(
                rest as nat / 256,
                (left - 1) as nat,
            ));
        }
        rest = rest / 256;
        left -= 1;
    }
    assert(buf@ + le(rest as nat, 0) =~= buf@);
}

/// Append a 32-bit number.
pub fn push_u32(buf: &mut Vec<u8>, x: u32)
    ensures
        final(buf)@ == old(buf)@ + le(x as nat, 4),
{
    push_le(buf, x as u64, 4)
}

/// Append a 64-bit number.
pub fn push_u64(buf: &mut Vec<u8>, x: u64)
    ensures
        final(buf)@ == old(buf)@ + le(x as nat, 8),
{
    push_le(buf, x, 8)
}

/// The low-order 32 bits of a length, as the formats store one.
pub fn low_u32(n: usize) -> (r: u32)
    ensures
        r as nat == n as nat % 0x1_0000_0000,
{
    (n as u64 % 0x1_0000_0000) as u32
}

/// The number that `n` bytes at `pos` stand for.
fn get_le(buf: &[u8], pos: usize, n: usize) -> (r: u64)
    requires
        n <= 8,
        pos + n <= buf@.len(),
    ensures
        r == from_le(buf@.subrange(pos as int, pos + n)),
        r < span(n as nat),
{
    let total: usize = buf.len();
    let mut acc: u64 = 0;
    let mut i: usize = n;
    let ghost s = buf@.subrange(pos as int, pos + n);
    assert(s.skip(n as int) =~= Seq::<u8>::empty());
    while i > 0
        invariant
            i <= n <= 8,
            pos + n <= total == buf@.len(),
            s == buf@.subrange(pos as int, pos + n),
            acc == from_le(s.skip(i as int)),
        decreases i,
    {
        proof {
            spans();
            from_le_round_trip(s.skip(i as int));
            assert(s.skip(i as int).len() <= 7);
            span_monotonic(s.skip(i as int).len(), 7);
            reveal_with_fuel(span, 8);
            assert(s.skip(i - 1).drop_first() =~= s.skip(i as int));
        }
        i -= 1;
        acc = acc * 256 + buf[pos + i] as u64;
    }
    proof {
        assert(s.skip(0) =~= s);
        from_le_round_trip(s);
    }
    acc
}

proof fn span_monotonic(a: nat, b: nat)
    requires
        a <= b,
    ensures
        span(a) <= span(b),
    decreases b,
{
    if a < b {
        span_monotonic(a, (b - 1) as nat);
    }
}

/// The 16-bit number at `pos`.
pub fn get_u16(buf: &[u8], pos: usize) -> (r: u16)
    requires
        pos + 2 <= buf@.len(),
    ensures
        r == from_le(buf@.subrange(pos as int, pos + 2)),
{
    proof {
        spans();
    }
    get_le(buf, pos, 2) as u16
}

/// The 32-bit number at `pos`.
pub fn get_u32(buf: &[u8], pos: usize) -> (r: u32)
    requires
        pos + 4 <= buf@.len(),
    ensures
        r == from_le(buf@.subrange(pos as int, pos + 4)),
{
    proof {
        spans();
    }
    get_le(buf, pos, 4) as u32
}

/// The 64-bit number at `pos`.
pub fn get_u64(buf: &[u8], pos: usize) -> (r: u64)
    requires
        pos + 8 <= buf@.len(),
    ensures
        r == from_le(buf@.subrange(pos as int, pos + 8)),
{
    get_le(buf, pos, 8)
}

} // verus!
