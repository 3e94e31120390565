//! Text: decimal numbers and the pieces that messages and file names are
//! built from.

use vstd::prelude::*;

verus! {

/// The decimal digit for `d`.
pub open spec fn digit(d: nat) -> char {
    if d == 0 {
        '0'
    } else if d == 1 {
        '1'
    } else if d == 2 {
        '2'
    } else if d == 3 {
        '3'
    } else if d == 4 {
        '4'
    } else if d == 5 {
        '5'
    } else if d == 6 {
        '6'
    } else if d == 7 {
        '7'
    } else if d == 8 {
        '8'
    } else {
        '9'
    }
}

/// `n` in decimal, without leading zeros.
pub open spec fn digits(n: nat) -> Seq<char>
    decreases n,
{
    if n < 10 {
        seq![digit(n)]
    } else {
        digits(n / 10).push(digit(n % 10))
    }
}

/// `n` zeros.
pub open spec fn zeros(n: nat) -> Seq<char> {
    Seq::new(n, |i: int| '0')
}

/// `n` in decimal, filled up with zeros on the left to at least `width` digits.
pub open spec fn padded(n: nat, width: nat) -> Seq<char> {
    let d = digits(n);
    if d.len() < width {
        zeros((width - d.len()) as nat) + d
    } else {
        d
    }
}

/// Whether `c` is a decimal digit.
pub open spec fn is_digit(c: char) -> bool {
    '0' <= c <= '9'
}

/// The number that a run of decimal digits stands for.
pub open spec fn number(s: Seq<char>) -> nat
    decreases s.len(),
{
    if s.len() == 0 {
        0
    } else {
        (10 * number(s.drop_last()) + (s.last() as int - '0' as int)) as nat
    }
}

/// The text without one leading plus sign.
pub open spec fn without_plus(s: Seq<char>) -> Seq<char> {
    if s.len() > 0 && s[0] == '+' {
        s.drop_first()
    } else {
        s
    }
}

/// The 64-bit number that `s` spells: one digit or more, with an optional plus
/// sign in front, and no greater than 64 bits hold.
pub open spec fn parsed(s: Seq<char>) -> Option<u64> {
    let d = without_plus(s);
    if d.len() > 0 && (forall|i: int| 0 <= i < d.len() ==> is_digit(#[trigger] d[i])) && number(d)
        <= u64::MAX {
        Some(number(d) as u64)
    } else {
        None
    }
}

proof fn digit_value(d: nat)
    requires
        d < 10,
    ensures
        is_digit(digit(d)),
        digit(d) as int - '0' as int == d,
{
}

/// The digits of a number stand for that number.
pub proof fn digits_round_trip(n: nat)
    ensures
        digits(n).len() > 0,
        forall|i: int| 0 <= i < digits(n).len() ==> is_digit(#[trigger] digits(n)[i]),
        number(digits(n)) == n,
    decreases n,
{
    if n < 10 {
        digit_value(n);
        assert(digits(n).drop_last() =~= Seq::<char>::empty());
        assert(number(digits(n).drop_last()) == 0);
    } else {
        digits_round_trip(n / 10);
        digit_value(n % 10);
        assert(digits(n).drop_last() =~= digits(n / 10));
    }
}

proof fn number_of_zeros_then(k: nat, s: Seq<char>)
    ensures
        number(zeros(k) + s) == number(s),
    decreases k + s.len(),
{
    let t = zeros(k) + s;
    if s.len() > 0 {
        assert(t.drop_last() =~= zeros(k) + s.drop_last());
        number_of_zeros_then(k, s.drop_last());
    } else if k > 0 {
        assert(t.drop_last() =~= zeros((k - 1) as nat) + s);
        number_of_zeros_then((k - 1) as nat, s);
        assert(t.last() == '0');
    } else {
        assert(t =~= s);
    }
}

/// A number written with leading zeros is read back.
pub proof fn padded_round_trip(n: u64, width: nat)
    ensures
        parsed(padded(n as nat, width)) == Some(n),
{
    let d = digits(n as nat);
    digits_round_trip(n as nat);
    let p = padded(n as nat, width);
    if d.len() < width {
        number_of_zeros_then((width - d.len()) as nat, d);
    }
    assert forall|i: int| 0 <= i < p.len() implies is_digit(#[trigger] p[i]) by {
        if d.len() < width && i >= width - d.len() {
            assert(p[i] == d[i - (width - d.len())]);
        }
    }
    assert(is_digit(p[0]));
}

/// One decimal digit.
fn digit_text(d: u64) -> (r: &'static str)
    requires
        d < 10,
    ensures
        r@ == seq![digit(d as nat)],
{
    proof {
        reveal_strlit("0");
        reveal_strlit("1");
        reveal_strlit("2");
        reveal_strlit("3");
        reveal_strlit("4");
        reveal_strlit("5");
        reveal_strlit("6");
        reveal_strlit("7");
        reveal_strlit("8");
        reveal_strlit("9");
    }
    let r: &'static str = if d == 0 {
        "0"
    } else if d == 1 {
        "1"
    } else if d == 2 {
        "2"
    } else if d == 3 {
        "3"
    } else if d == 4 {
        "4"
    } else if d == 5 {
        "5"
    } else if d == 6 {
        "6"
    } else if d == 7 {
        "7"
    } else if d == 8 {
        "8"
    } else {
        "9"
    };
    assert(r@ =~= seq![digit(d as nat)]);
    r
}

/// `n` in decimal.
pub fn decimal(n: u64) -> (r: String)
    ensures
        r@ == digits(n as nat),
    decreases n,
{
    if n < 10 {
        digit_text(n).to_owned()
    } else {
        let mut s = decimal(n / 10);
        let ghost before = s@;
        s.append(digit_text(n % 10));
        assert(s@ =~= before.push(digit(n as nat % 10)));
        s
    }
}

/// `n` in decimal, with leading zeros up to `width` digits.
pub fn padded_decimal(n: u64, width: usize) -> (r: String)
    ensures
        r@ == padded(n as nat, width as nat),
{
    let d = decimal(n);
    let len: usize = d.as_str().unicode_len();
    let mut s = String::new();
    let mut k: usize = len;
    while k < width
        invariant
            d@ == digits(n as nat),
            len == d@.len(),
            len <= k,
            if len < width { k <= width } else { k == len },
            s@ == zeros((k - len) as nat),
        decreases width - k,
    {
        s.append(digit_text(0));
        assert(s@ =~= zeros((k + 1 - len) as nat));
        k += 1;
    }
    s.append(d.as_str());
    assert(s@ =~= padded(n as nat, width as nat));
    s
}

/// The characters of `s`.
pub fn chars_of(s: &str) -> (r: Vec<char>)
    ensures
        r@ == s@,
{
    let n: usize = s.unicode_len();
    let mut out: Vec<char> = Vec::with_capacity(n);
    let mut i: usize = 0;
    while i < n
        invariant
            n == s@.len(),
            i <= n,
            out@ == s@.take(i as int),
        decreases n - i,
    {
        out.push(s.get_char(i));
        assert(out@ =~= s@.take(i + 1));
        i += 1;
    }
    assert(out@ =~= s@);
    out
}

/// Read the 64-bit number that `s` spells.
pub fn parse_u64(s: &[char]) -> (r: Option<u64>)
    ensures
        r == parsed(s@),
{
    let len: usize = s.len();
    let start: usize = if len > 0 && s[0] == '+' {
        1
    } else {
        0
    };
    let ghost d = without_plus(s@);
    assert(d =~= s@.skip(start as int));
    if start == len {
        return None;
    }
    let mut acc: u64 = 0;
    let mut i: usize = start;
    assert(d.take(0) =~= Seq::<char>::empty());
    while i < len
        invariant
            start <= i <= len == s@.len(),
            start < len,
            d == s@.skip(start as int),
            d == without_plus(s@),
            acc == number(d.take(i - start)),
            forall|j: int| 0 <= j < i - start ==> is_digit(#[trigger] d[j]),
        decreases len - i,
    {
        let c: char = s[i];
        let ghost j = i - start;
        assert(d[j] == c);
        if c < '0' || c > '9' {
            assert(!is_digit(d[j]));
            return None;
        }
        let v: u64 = c as u64 - '0' as u64;
        proof {
            number_step(d, j);
        }
        if acc > (u64::MAX - v) / 10 {
            proof {
                if forall|x: int| 0 <= x < d.len() ==> is_digit(#[trigger] d[x]) {
                    number_grows(d, j + 1);
                }
            }
            return None;
        }
        acc = acc * 10 + v;
        i += 1;
    }
    assert(d.take(d.len() as int) =~= d);
    Some(acc)
}

proof fn number_step(s: Seq<char>, k: int)
    requires
        0 <= k < s.len(),
        is_digit(s[k]),
    ensures
        number(s.take(k + 1)) == 10 * number(s.take(k)) + (s[k] as int - '0' as int),
{
    assert(s.take(k + 1).drop_last() =~= s.take(k));
}

proof fn number_grows(s: Seq<char>, k: int)
    requires
        0 <= k <= s.len(),
        forall|i: int| 0 <= i < s.len() ==> is_digit(#[trigger] s[i]),
    ensures
        number(s.take(k)) <= number(s),
    decreases s.len(),
{
    if k < s.len() {
        number_grows(s.drop_last(), k);
        assert(s.drop_last().take(k) =~= s.take(k));
        assert(is_digit(s[s.len() - 1]));
    } else {
        assert(s.take(k) =~= s);
    }
}

/// Two texts, one behind the other.
pub fn joined(a: &str, b: &str) -> (r: String)
    ensures
        r@ == a@ + b@,
{
    let mut s = a.to_owned();
    s.append(b);
    s
}

/// A copy of `s`.
pub fn copy_text(s: &str) -> (r: String)
    ensures
        r@ == s@,
{
    s.to_owned()
}

/// The decimal digits of a number: the last is the remainder by ten, and those before
/// it are the digits of what is left.
pub proof fn digits_are_decimal(n: nat)
    ensures
        digits(n).last() as int == '0' as int + n % 10,
        n < 10 ==> digits(n).len() == 1,
        n >= 10 ==> digits(n).drop_last() == digits(n / 10),
{
    digit_value(n % 10);
    if n >= 10 {
        assert(digits(n).drop_last() =~= digits(n / 10));
    }
}

/// A number that is filled up is as wide as asked for, or as wide as its digits are,
/// and has nothing but zeros in front of them.
pub proof fn padding_is_zeros(n: nat, width: nat)
    ensures
        padded(n, width).len() == if digits(n).len() < width {
            width
        } else {
            digits(n).len()
        },
        padded(n, width).skip(padded(n, width).len() - digits(n).len()) == digits(n),
        forall|i: int|
            0 <= i < padded(n, width).len() - digits(n).len() ==> #[trigger] padded(n, width)[i]
                == '0',
{
    assert(padded(n, width).skip(padded(n, width).len() - digits(n).len()) =~= digits(n));
}

/// The number that digits stand for: one more digit is ten times as much and the digit.
pub proof fn one_more_digit(s: Seq<char>, d: char)
    requires
        is_digit(d),
    ensures
        number(Seq::empty()) == 0,
        number(s.push(d)) == 10 * number(s) + (d as int - '0' as int),
{
    assert(s.push(d).drop_last() =~= s);
}

/// A number that is filled up still stands for itself.
pub proof fn padded_stands_for(n: nat, width: nat)
    ensures
        number(padded(n, width)) == n,
{
    digits_round_trip(n);
    if digits(n).len() < width {
        number_of_zeros_then((width - digits(n).len()) as nat, digits(n));
    }
}

/// A number below ten to the power of `k` has at most `k` digits.
pub proof fn digits_are_few(n: nat, k: nat)
    requires
        k > 0,
    ensures
        n < vstd::arithmetic::power::pow(10, k) ==> digits(n).len() <= k,
    decreases k,
{
    if n < vstd::arithmetic::power::pow(10, k) && n >= 10 {
        let j = (k - 1) as nat;
        assert(vstd::arithmetic::power::pow(10, k) == 10 * vstd::arithmetic::power::pow(10, j)) by {
            reveal(vstd::arithmetic::power::pow);
        }
        if j == 0 {
            vstd::arithmetic::power::lemma_pow0(10);
        } else {
            digits_are_few(n / 10, j);
        }
    }
}

} // verus!
