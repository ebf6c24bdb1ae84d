//! The two number grammars, as predicates on the bytes of a cell.
//!
//! A byte string reads as an integer when it is an optional sign followed
//! by decimal digits whose value fits a signed 64-bit integer.  It reads as
//! a float when, up to the case of its letters, it follows
//!
//! ```text
//! float    ::= sign? ( "inf" | "infinity" | "nan" | number )
//! number   ::= mantissa exponent?
//! mantissa ::= digit+ | digit+ "." digit* | digit* "." digit+
//! exponent ::= "e" sign? digit+
//! ```
//!
//! Both grammars use ASCII bytes only, and neither skips whitespace.

use vstd::prelude::*;
use vstd::slice::slice_subrange;

verus! {

/// The byte `0`.
pub const ZERO: u8 = 0x30;

/// The byte `9`.
pub const NINE: u8 = 0x39;

/// The byte `+`.
pub const PLUS: u8 = 0x2b;

/// The byte `-`.
pub const MINUS: u8 = 0x2d;

/// The byte `.`.
pub const POINT: u8 = 0x2e;

/// The byte `e`, which opens an exponent in either case.
pub const EXP: u8 = 0x65;

/// `0` to `9`.
pub open spec fn is_digit(b: u8) -> bool {
    ZERO <= b <= NINE
}

/// `+` or `-`.
pub open spec fn is_sign(b: u8) -> bool {
    b == PLUS || b == MINUS
}

/// Every byte of `s` is a digit. The empty string qualifies.
pub open spec fn is_digits(s: Seq<u8>) -> bool {
    forall|i: int| 0 <= i < s.len() ==> is_digit(#[trigger] s[i])
}

/// `s` without its leading sign, if it has one.
pub open spec fn unsigned_part(s: Seq<u8>) -> Seq<u8> {
    if s.len() > 0 && is_sign(s[0]) {
        s.skip(1)
    } else {
        s
    }
}

/// The number that a string of digits denotes in base ten.
pub open spec fn decimal_value(s: Seq<u8>) -> nat
    decreases s.len(),
{
    if s.len() == 0 {
        0
    } else {
        decimal_value(s.drop_last()) * 10 + (s.last() - ZERO) as nat
    }
}

/// The integer that an optional sign and a string of digits denote.
pub open spec fn signed_value(s: Seq<u8>) -> int {
    if s.len() > 0 && s[0] == MINUS {
        -(decimal_value(unsigned_part(s)) as int)
    } else {
        decimal_value(unsigned_part(s)) as int
    }
}

/// `s` is an optional sign and at least one digit, and the integer it
/// denotes lies between `i64::MIN` and `i64::MAX`.
pub open spec fn is_integer_text(s: Seq<u8>) -> bool {
    &&& unsigned_part(s).len() > 0
    &&& is_digits(unsigned_part(s))
    &&& i64::MIN <= signed_value(s) <= i64::MAX
}

/// A string of digits denotes at least as much as any of its prefixes.
proof fn lemma_decimal_value_grows(s: Seq<u8>, k: int)
    requires
        is_digits(s),
        0 <= k <= s.len(),
    ensures
        decimal_value(s.take(k)) <= decimal_value(s),
    decreases s.len(),
{
    if k == s.len() {
        assert(s.take(k) =~= s);
    } else {
        assert(s.drop_last().take(k) =~= s.take(k));
        lemma_decimal_value_grows(s.drop_last(), k);
    }
}

/// Whether `bytes` reads as a signed 64-bit integer.
pub fn reads_as_integer(bytes: &[u8]) -> (r: bool)
    ensures
        r == is_integer_text(bytes@),
{
    let n = bytes.len();
    if n == 0 {
        return false;
    }
    let negative = bytes[0] == MINUS;
    let start: usize = if bytes[0] == PLUS || negative { 1 } else { 0 };
    if start == n {
        return false;
    }
    // The largest magnitude that the sign allows.
    let limit: u64 = if negative { 0x8000_0000_0000_0000 } else { 0x7fff_ffff_ffff_ffff };
    let ghost digits = unsigned_part(bytes@);
    assert(digits =~= bytes@.subrange(start as int, n as int));
    let mut acc: u64 = 0;
    let mut i: usize = start;
    while i < n
        invariant
            n == bytes@.len(),
            start <= i <= n,
            digits == unsigned_part(bytes@),
            digits == bytes@.subrange(start as int, n as int),
            is_digits(digits.take(i - start)),
            acc == decimal_value(digits.take(i - start)),
            acc <= limit,
            limit == if bytes@[0] == MINUS {
                0x8000_0000_0000_0000u64
            } else {
                0x7fff_ffff_ffff_ffffu64
            },
        decreases n - i,
    {
        let b = bytes[i];
        assert(digits[i - start] == b);
        if b < ZERO || b > NINE {
            return false;
        }
        let d: u64 = (b - ZERO) as u64;
        proof {
            let next = digits.take(i - start + 1);
            assert(next.drop_last() =~= digits.take(i - start));
            assert(next.last() == b);
            assert(decimal_value(next) == acc * 10 + d);
            assert(is_digits(next)) by {
                assert forall|j: int| 0 <= j < next.len() implies is_digit(#[trigger] next[j]) by {
                    if j < i - start {
                        assert(next[j] == digits.take(i - start)[j]);
                    }
                }
            }
        }
        if acc > (limit - d) / 10 {
            proof {
                if is_digits(digits) {
                    lemma_decimal_value_grows(digits, i - start + 1);
                }
            }
            return false;
        }
        acc = acc * 10 + d;
        i += 1;
    }
    assert(digits.take(i - start) =~= digits);
    true
}

/// The lower-case form of an ASCII letter; any other byte is unchanged.
pub open spec fn to_lower(b: u8) -> u8 {
    if 0x41 <= b <= 0x5a {
        (b + 0x20) as u8
    } else {
        b
    }
}

/// `s` with each ASCII letter in lower case.
pub open spec fn lowercase(s: Seq<u8>) -> Seq<u8> {
    s.map_values(|b: u8| to_lower(b))
}

/// The bytes of `inf`.
pub open spec fn inf_word() -> Seq<u8> {
    seq![0x69u8, 0x6e, 0x66]
}

/// The bytes of `infinity`.
pub open spec fn infinity_word() -> Seq<u8> {
    seq![0x69u8, 0x6e, 0x66, 0x69, 0x6e, 0x69, 0x74, 0x79]
}

/// The bytes of `nan`.
pub open spec fn nan_word() -> Seq<u8> {
    seq![0x6eu8, 0x61, 0x6e]
}

/// `s` spells `inf`, `infinity` or `nan` in any mix of cases.
pub open spec fn is_special(s: Seq<u8>) -> bool {
    let l = lowercase(s);
    l == inf_word() || l == infinity_word() || l == nan_word()
}

/// `s` is digits with at most one point among them, and at least one digit.
pub open spec fn is_mantissa(s: Seq<u8>) -> bool {
    ||| s.len() >= 1 && is_digits(s)
    ||| exists|p: int|
        0 <= p < s.len() && #[trigger] s[p] == POINT && is_digits(s.take(p)) && is_digits(
            s.skip(p + 1),
        ) && s.len() >= 2
}

/// `s` is the letter `e` in either case, an optional sign and at least one
/// digit.
pub open spec fn is_exponent(s: Seq<u8>) -> bool {
    &&& s.len() >= 1
    &&& to_lower(s[0]) == EXP
    &&& unsigned_part(s.skip(1)).len() >= 1
    &&& is_digits(unsigned_part(s.skip(1)))
}

/// `s` is a mantissa, optionally followed by an exponent.
pub open spec fn is_number(s: Seq<u8>) -> bool {
    ||| is_mantissa(s)
    ||| exists|k: int|
        0 <= k < s.len() && to_lower(#[trigger] s[k]) == EXP && is_mantissa(s.take(k))
            && is_exponent(s.skip(k))
}

/// `s` is an optional sign followed by a special word or a number.
pub open spec fn is_float_text(s: Seq<u8>) -> bool {
    is_special(unsigned_part(s)) || is_number(unsigned_part(s))
}

/// A mantissa holds digits and points only.
proof fn lemma_mantissa_bytes(s: Seq<u8>)
    requires
        is_mantissa(s),
    ensures
        forall|i: int| 0 <= i < s.len() ==> is_digit(#[trigger] s[i]) || s[i] == POINT,
{
    if !(s.len() >= 1 && is_digits(s)) {
        let p = choose|p: int|
            0 <= p < s.len() && #[trigger] s[p] == POINT && is_digits(s.take(p)) && is_digits(
                s.skip(p + 1),
            ) && s.len() >= 2;
        assert forall|i: int| 0 <= i < s.len() implies is_digit(#[trigger] s[i]) || s[i]
            == POINT by {
            if i < p {
                assert(s.take(p)[i] == s[i]);
            } else if i > p {
                assert(s.skip(p + 1)[i - p - 1] == s[i]);
            }
        }
    }
}

fn lower(b: u8) -> (r: u8)
    ensures
        r == to_lower(b),
{
    if 0x41 <= b && b <= 0x5a {
        b + 0x20
    } else {
        b
    }
}

/// The end of the run of digits that starts at `from`.
fn digits_end(s: &[u8], from: usize) -> (end: usize)
    requires
        from <= s@.len(),
    ensures
        from <= end <= s@.len(),
        is_digits(s@.subrange(from as int, end as int)),
        end < s@.len() ==> !is_digit(s@[end as int]),
{
    let n = s.len();
    let mut i: usize = from;
    while i < n && ZERO <= s[i] && s[i] <= NINE
        invariant
            n == s@.len(),
            from <= i <= n,
            is_digits(s@.subrange(from as int, i as int)),
        decreases n - i,
    {
        proof {
            let next = s@.subrange(from as int, i + 1);
            assert forall|j: int| 0 <= j < next.len() implies is_digit(#[trigger] next[j]) by {
                if j < i - from {
                    assert(next[j] == s@.subrange(from as int, i as int)[j]);
                }
            }
        }
        i += 1;
    }
    i
}

fn reads_as_special(s: &[u8]) -> (r: bool)
    ensures
        r == is_special(s@),
{
    let n = s.len();
    let ghost l = lowercase(s@);
    assert(l.len() == n);
    assert(inf_word().len() == 3 && nan_word().len() == 3 && infinity_word().len() == 8);
    if n == 3 {
        let a = lower(s[0]);
        let b = lower(s[1]);
        let c = lower(s[2]);
        assert(l[0] == a && l[1] == b && l[2] == c);
        let inf = a == 0x69 && b == 0x6e && c == 0x66;
        let nan = a == 0x6e && b == 0x61 && c == 0x6e;
        assert(inf == (l =~= inf_word()));
        assert(nan == (l =~= nan_word()));
        inf || nan
    } else if n == 8 {
        let r = lower(s[0]) == 0x69 && lower(s[1]) == 0x6e && lower(s[2]) == 0x66 && lower(s[3])
            == 0x69 && lower(s[4]) == 0x6e && lower(s[5]) == 0x69 && lower(s[6]) == 0x74 && lower(
            s[7],
        ) == 0x79;
        assert(l[0] == to_lower(s@[0]) && l[1] == to_lower(s@[1]) && l[2] == to_lower(s@[2])
            && l[3] == to_lower(s@[3]) && l[4] == to_lower(s@[4]) && l[5] == to_lower(s@[5])
            && l[6] == to_lower(s@[6]) && l[7] == to_lower(s@[7]));
        assert(r == (l =~= infinity_word()));
        r
    } else {
        false
    }
}

fn reads_as_mantissa(s: &[u8]) -> (r: bool)
    ensures
        r == is_mantissa(s@),
{
    let n = s.len();
    let a = digits_end(s, 0);
    if a == n {
        assert(s@.subrange(0, n as int) =~= s@);
        return n >= 1;
    }
    assert(!is_digits(s@));
    assert forall|p: int|
        0 <= p < s@.len() && #[trigger] s@[p] == POINT && is_digits(s@.take(p)) && is_digits(
            s@.skip(p + 1),
        ) implies p == a by {
        if p < a {
            assert(s@.subrange(0, a as int)[p] == s@[p]);
        } else if p > a {
            assert(s@.take(p)[a as int] == s@[a as int]);
        }
    }
    if s[a] != POINT {
        return false;
    }
    let b = digits_end(s, a + 1);
    assert(s@.take(a as int) =~= s@.subrange(0, a as int));
    if b == n {
        assert(s@.skip(a + 1) =~= s@.subrange(a + 1, n as int));
        n >= 2
    } else {
        assert(s@.skip(a + 1)[b - a - 1] == s@[b as int]);
        false
    }
}

fn reads_as_exponent(s: &[u8]) -> (r: bool)
    ensures
        r == is_exponent(s@),
{
    let n = s.len();
    if n == 0 || lower(s[0]) != EXP {
        return false;
    }
    let start: usize = if n > 1 && (s[1] == PLUS || s[1] == MINUS) { 2 } else { 1 };
    let ghost tail = s@.skip(1);
    let ghost digits = unsigned_part(tail);
    assert(n > 1 ==> tail[0] == s@[1]);
    assert(digits =~= s@.subrange(start as int, n as int));
    if start == n {
        return false;
    }
    let end = digits_end(s, start);
    if end < n {
        assert(digits[end - start] == s@[end as int]);
    }
    end == n
}

fn reads_as_number(s: &[u8]) -> (r: bool)
    ensures
        r == is_number(s@),
{
    let n = s.len();
    let mut k: usize = 0;
    while k < n && lower(s[k]) != EXP
        invariant
            n == s@.len(),
            k <= n,
            forall|j: int| 0 <= j < k ==> to_lower(#[trigger] s@[j]) != EXP,
        decreases n - k,
    {
        k += 1;
    }
    assert forall|j: int|
        0 <= j < s@.len() && to_lower(#[trigger] s@[j]) == EXP && is_mantissa(
            s@.take(j),
        ) implies j == k by {
        if j > k {
            lemma_mantissa_bytes(s@.take(j));
            assert(s@.take(j)[k as int] == s@[k as int]);
        }
    }
    if k == n {
        reads_as_mantissa(s)
    } else {
        proof {
            if is_mantissa(s@) {
                lemma_mantissa_bytes(s@);
            }
        }
        let head = slice_subrange(s, 0, k);
        let tail = slice_subrange(s, k, n);
        assert(head@ =~= s@.take(k as int));
        assert(tail@ =~= s@.skip(k as int));
        reads_as_mantissa(head) && reads_as_exponent(tail)
    }
}

/// Whether `bytes` reads as a floating-point number.
pub fn reads_as_float(bytes: &[u8]) -> (r: bool)
    ensures
        r == is_float_text(bytes@),
{
    let n = bytes.len();
    let start: usize = if n > 0 && (bytes[0] == PLUS || bytes[0] == MINUS) { 1 } else { 0 };
    let body = slice_subrange(bytes, start, n);
    assert(body@ =~= unsigned_part(bytes@));
    reads_as_special(body) || reads_as_number(body)
}

} // verus!
