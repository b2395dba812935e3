//! Decimal numerals: writing integers with zero padding, and reading them.

use vstd::prelude::*;
use vstd::slice::slice_subrange;

verus! {

/// The character of the digit `d`.
pub open spec fn digit(d: int) -> char {
    (48 + d) as char
}

/// `c` is one of the ten decimal digits.
pub open spec fn is_digit(c: char) -> bool {
    '0' <= c <= '9'
}

/// `n` in decimal, with no leading zero (but for zero itself).
pub open spec fn decimal(n: nat) -> Seq<char>
    decreases n,
{
    if n < 10 {
        seq![digit(n as int)]
    } else {
        decimal(n / 10).push(digit((n % 10) as int))
    }
}

/// `count` zeros.
pub open spec fn zeros(count: nat) -> Seq<char> {
    Seq::new(count, |i: int| '0')
}

/// `n` in decimal, filled with leading zeros up to `width` characters.
pub open spec fn padded(n: nat, width: nat) -> Seq<char> {
    let plain = decimal(n);
    if plain.len() < width {
        zeros((width - plain.len()) as nat) + plain
    } else {
        plain
    }
}

/// `n` in decimal, filled with zeros behind the sign up to `width` characters,
/// of which the sign is one.
pub open spec fn padded_signed(n: int, width: nat) -> Seq<char> {
    if n < 0 {
        seq!['-'] + padded(-n as nat, if width > 0 { (width - 1) as nat } else { 0 })
    } else {
        padded(n as nat, width)
    }
}

/// Every character of `s` is a decimal digit.
pub open spec fn all_digits(s: Seq<char>) -> bool {
    forall|i: int| 0 <= i < s.len() ==> is_digit(#[trigger] s[i])
}

/// The number that the digits `s` write.
pub open spec fn value(s: Seq<char>) -> nat
    decreases s.len(),
{
    if s.len() == 0 {
        0
    } else {
        value(s.drop_last()) * 10 + (s.last() as int - 48) as nat
    }
}

/// The number that `s` writes, if `s` is one or more digits.
pub open spec fn magnitude(s: Seq<char>) -> Option<nat> {
    if s.len() > 0 && all_digits(s) {
        Some(value(s))
    } else {
        None
    }
}

/// The number that `s` writes: an optional `+`, then digits, at most `max` in
/// all.
pub open spec fn unsigned(s: Seq<char>, max: nat) -> Option<nat> {
    let digits = if s.len() > 0 && s[0] == '+' {
        s.subrange(1, s.len() as int)
    } else {
        s
    };
    match magnitude(digits) {
        Some(v) => if v <= max {
            Some(v)
        } else {
            None
        },
        None => None,
    }
}

/// The number that `s` writes: an optional `+` or `-`, then digits, from `min`
/// to `max` in all.
pub open spec fn signed(s: Seq<char>, min: int, max: int) -> Option<int> {
    let negative = s.len() > 0 && s[0] == '-';
    let digits = if s.len() > 0 && (s[0] == '+' || s[0] == '-') {
        s.subrange(1, s.len() as int)
    } else {
        s
    };
    match magnitude(digits) {
        Some(v) => {
            let n = if negative {
                -(v as int)
            } else {
                v as int
            };
            if min <= n <= max {
                Some(n)
            } else {
                None
            }
        },
        None => None,
    }
}

/// The number `s` writes, read as an `i32`.
pub open spec fn as_i32(s: Seq<char>) -> Option<i32> {
    match signed(s, i32::MIN as int, i32::MAX as int) {
        Some(n) => Some(n as i32),
        None => None,
    }
}

/// The number `s` writes, read as a `u32`.
pub open spec fn as_u32(s: Seq<char>) -> Option<u32> {
    match unsigned(s, u32::MAX as nat) {
        Some(n) => Some(n as u32),
        None => None,
    }
}

/// The number `s` writes, read as a `u64`.
pub open spec fn as_u64(s: Seq<char>) -> Option<u64> {
    match unsigned(s, u64::MAX as nat) {
        Some(n) => Some(n as u64),
        None => None,
    }
}

/// `n` in decimal.
fn decimal_of(n: u64) -> (r: Vec<char>)
    ensures
        r@ == decimal(n as nat),
    decreases n,
{
    if n < 10 {
        let mut out: Vec<char> = Vec::new();
        out.push((48u8 + n as u8) as char);
        assert(out@ =~= decimal(n as nat));
        out
    } else {
        let mut out = decimal_of(n / 10);
        out.push((48u8 + (n % 10) as u8) as char);
        out
    }
}

/// `n` in decimal, filled with leading zeros up to `width` characters.
pub fn padded_of(n: u64, width: usize) -> (r: Vec<char>)
    ensures
        r@ == padded(n as nat, width as nat),
{
    let plain = decimal_of(n);
    if plain.len() >= width {
        return plain;
    }
    let fill: usize = width - plain.len();
    let mut out: Vec<char> = Vec::new();
    let mut i: usize = 0;
    while i < fill
        invariant
            i <= fill,
            out@ == zeros(i as nat),
        decreases fill - i,
    {
        out.push('0');
        i = i + 1;
        assert(out@ =~= zeros(i as nat));
    }
    crate::text::append(&mut out, plain.as_slice());
    out
}

/// `n` in decimal, filled with zeros behind the sign up to `width` characters.
pub fn padded_signed_of(n: i32, width: usize) -> (r: Vec<char>)
    ensures
        r@ == padded_signed(n as int, width as nat),
{
    if n < 0 {
        let mut out: Vec<char> = Vec::new();
        out.push('-');
        let rest = padded_of((-(n as i64)) as u64, if width > 0 { width - 1 } else { 0 });
        crate::text::append(&mut out, rest.as_slice());
        assert(out@ =~= padded_signed(n as int, width as nat));
        out
    } else {
        padded_of(n as u64, width)
    }
}

/// The number that the digits `s` write, if it is at most `max`.
fn magnitude_of(s: &[char], max: u64) -> (r: Option<u64>)
    ensures
        r == match magnitude(s@) {
            Some(v) => if v <= max {
                Some(v as u64)
            } else {
                None
            },
            None => None,
        },
{
    if s.len() == 0 {
        return None;
    }
    let mut total: u128 = 0;
    let mut i: usize = 0;
    while i < s.len()
        invariant
            i <= s@.len(),
            total <= max,
            total == value(s@.take(i as int)),
            forall|j: int| 0 <= j < i ==> is_digit(#[trigger] s@[j]),
        decreases s@.len() - i,
    {
        let c = s[i];
        if !('0' <= c && c <= '9') {
            return None;
        }
        assert(s@.take(i + 1).drop_last() =~= s@.take(i as int));
        total = total * 10 + (c as u128 - 48);
        i = i + 1;
        if total > max as u128 {
            proof {
                if all_digits(s@) {
                    lemma_value_of_prefix(s@, i as int);
                }
            }
            return None;
        }
    }
    assert(s@.take(i as int) =~= s@);
    Some(total as u64)
}

/// Reads an optional `+` and digits, at most `max` in all.
fn unsigned_of(s: &[char], max: u64) -> (r: Option<u64>)
    ensures
        r == match unsigned(s@, max as nat) {
            Some(v) => Some(v as u64),
            None => None,
        },
{
    if s.len() > 0 && s[0] == '+' {
        magnitude_of(slice_subrange(s, 1, s.len()), max)
    } else {
        magnitude_of(s, max)
    }
}

/// Reads `s` as a `u64`: an optional `+`, then decimal digits.
pub fn parse_u64(s: &[char]) -> (r: Option<u64>)
    ensures
        r == as_u64(s@),
{
    unsigned_of(s, u64::MAX)
}

/// Reads `s` as a `u32`: an optional `+`, then decimal digits.
pub fn parse_u32(s: &[char]) -> (r: Option<u32>)
    ensures
        r == as_u32(s@),
{
    match unsigned_of(s, u32::MAX as u64) {
        Some(v) => Some(v as u32),
        None => None,
    }
}

/// Reads `s` as an `i32`: an optional `+` or `-`, then decimal digits.
pub fn parse_i32(s: &[char]) -> (r: Option<i32>)
    ensures
        r == as_i32(s@),
{
    if s.len() > 0 && s[0] == '-' {
        match magnitude_of(slice_subrange(s, 1, s.len()), 2_147_483_648) {
            Some(v) => Some((-(v as i64)) as i32),
            None => None,
        }
    } else {
        match unsigned_of(s, 2_147_483_647) {
            Some(v) => Some(v as i32),
            None => None,
        }
    }
}

/// A prefix of digits writes no larger number than the whole.
proof fn lemma_value_of_prefix(s: Seq<char>, i: int)
    requires
        0 <= i <= s.len(),
        all_digits(s),
    ensures
        value(s.take(i)) <= value(s),
    decreases s.len(),
{
    if i == s.len() {
        assert(s.take(i) =~= s);
    } else {
        assert(s.drop_last().take(i) =~= s.take(i));
        lemma_value_of_prefix(s.drop_last(), i);
    }
}

/// What `decimal` writes are digits, at least one, and they write `n`.
pub proof fn lemma_decimal_value(n: nat)
    ensures
        decimal(n).len() >= 1,
        all_digits(decimal(n)),
        value(decimal(n)) == n,
    decreases n,
{
    if n < 10 {
        let s = decimal(n);
        assert(s.drop_last() =~= Seq::<char>::empty());
        assert(value(s.drop_last()) == 0);
    } else {
        lemma_decimal_value(n / 10);
        let s = decimal(n);
        assert(s.drop_last() =~= decimal(n / 10));
    }
}

/// Leading zeros change no value.
proof fn lemma_leading_zeros(count: nat, s: Seq<char>)
    requires
        all_digits(s),
    ensures
        all_digits(zeros(count) + s),
        value(zeros(count) + s) == value(s),
    decreases count + s.len(),
{
    let t = zeros(count) + s;
    if s.len() > 0 {
        assert(t.drop_last() =~= zeros(count) + s.drop_last());
        lemma_leading_zeros(count, s.drop_last());
    } else if count > 0 {
        let one_less = (count - 1) as nat;
        assert(t.drop_last() =~= zeros(one_less) + s);
        lemma_leading_zeros(one_less, s);
    } else {
        assert(t =~= s);
    }
}

/// What `padded` writes are digits, at least `width` and at least one, and they
/// write `n`.
pub proof fn lemma_padded_value(n: nat, width: nat)
    ensures
        padded(n, width).len() >= 1,
        padded(n, width).len() >= width,
        all_digits(padded(n, width)),
        value(padded(n, width)) == n,
{
    lemma_decimal_value(n);
    let plain = decimal(n);
    if plain.len() < width {
        lemma_leading_zeros((width - plain.len()) as nat, plain);
    }
}

/// Reading back an unsigned number gives what was written.
pub proof fn law_unsigned_round_trip(n: nat, width: nat, max: nat)
    requires
        n <= max,
    ensures
        unsigned(padded(n, width), max) == Some(n),
{
    lemma_padded_value(n, width);
    assert(is_digit(padded(n, width)[0]));
}

/// Reading back a signed number gives what was written.
pub proof fn law_signed_round_trip(n: int, width: nat, min: int, max: int)
    requires
        min <= n <= max,
    ensures
        signed(padded_signed(n, width), min, max) == Some(n),
{
    let s = padded_signed(n, width);
    if n < 0 {
        let w = if width > 0 {
            (width - 1) as nat
        } else {
            0
        };
        lemma_padded_value(-n as nat, w);
        assert(s.subrange(1, s.len() as int) =~= padded(-n as nat, w));
    } else {
        lemma_padded_value(n as nat, width);
        assert(is_digit(s[0]));
    }
}

/// A decimal numeral is read digit by digit: one more digit makes ten times the
/// number, and the digit.
pub proof fn law_one_more_digit(s: Seq<char>, d: int)
    requires
        0 <= d < 10,
    ensures
        value(Seq::empty()) == 0,
        is_digit((48 + d) as char),
        value(s.push((48 + d) as char)) == 10 * value(s) + d,
{
    assert(s.push((48 + d) as char).drop_last() =~= s);
}

/// A number is written in digits with zeros in front of it up to the width, and
/// with no zero in front of it beyond.
pub proof fn law_padding_fills_the_width(n: nat, width: nat)
    ensures
        all_digits(padded(n, width)),
        value(padded(n, width)) == n,
        padded(n, width).len() >= width,
        padded(n, width).len() > width && padded(n, width).len() > 1 ==> padded(n, width)[0] != '0',
        padded(n, width).len() > 0,
{
    lemma_padded_value(n, width);
    lemma_no_leading_zero(n);
}

/// A number that is not zero begins with another digit.
proof fn lemma_no_leading_zero(n: nat)
    ensures
        decimal(n).len() > 0,
        n > 0 ==> decimal(n)[0] != '0',
        n < 10 ==> decimal(n).len() == 1,
    decreases n,
{
    if n >= 10 {
        lemma_no_leading_zero(n / 10);
        assert(decimal(n)[0] == decimal(n / 10)[0]);
    }
}

/// A negative number is written as its amount behind a sign that takes one
/// place of the width.
pub proof fn law_sign_takes_one_place(n: int, width: nat)
    ensures
        n >= 0 ==> padded_signed(n, width) == padded(n as nat, width),
        n < 0 && width > 0 ==> padded_signed(n, width) == seq!['-'] + padded(
            -n as nat,
            (width - 1) as nat,
        ),
        n < 0 && width == 0 ==> padded_signed(n, width) == seq!['-'] + padded(-n as nat, 0),
{
}

/// Digits are read as the number that they write if it is in bounds, with a `+`
/// before them, with a `-` before them as the number below zero, or plain.
pub proof fn law_numerals_are_read(digits: Seq<char>, min: int, max: int)
    requires
        digits.len() > 0,
        all_digits(digits),
        max >= 0,
    ensures
        unsigned(digits, max as nat) == if value(digits) <= max {
            Some(value(digits))
        } else {
            None
        },
        unsigned(seq!['+'] + digits, max as nat) == unsigned(digits, max as nat),
        unsigned(seq!['-'] + digits, max as nat) is None,
        signed(digits, min, max) == if min <= value(digits) <= max {
            Some(value(digits) as int)
        } else {
            None
        },
        signed(seq!['+'] + digits, min, max) == signed(digits, min, max),
        signed(seq!['-'] + digits, min, max) == if min <= -(value(digits) as int) <= max {
            Some(-(value(digits) as int))
        } else {
            None
        },
{
    assert(is_digit(digits[0]));
    let plus = seq!['+'] + digits;
    let minus = seq!['-'] + digits;
    assert(plus.subrange(1, plus.len() as int) =~= digits);
    assert(minus.subrange(1, minus.len() as int) =~= digits);
    assert(plus[0] == '+');
    assert(minus[0] == '-');
    assert(!is_digit(minus[0]));
}

/// Nothing but digits, with or without a sign before them, is read as a number.
pub proof fn law_only_numerals_are_read(s: Seq<char>, min: int, max: int)
    requires
        max >= 0,
        !(s.len() > 0 && all_digits(s)),
        !(s.len() > 1 && (s[0] == '+' || s[0] == '-') && all_digits(s.skip(1))),
    ensures
        unsigned(s, max as nat) is None,
        signed(s, min, max) is None,
{
    assert(s.len() > 0 ==> s.skip(1) =~= s.subrange(1, s.len() as int));
}

/// The bounds of a number are those of its type.
pub proof fn law_numbers_fit_their_types(s: Seq<char>)
    ensures
        as_u64(s) is Some <==> unsigned(s, 0xffff_ffff_ffff_ffff) is Some,
        as_u64(s) matches Some(n) ==> unsigned(s, 0xffff_ffff_ffff_ffff) == Some(n as nat),
        as_u32(s) is Some <==> unsigned(s, 0xffff_ffff) is Some,
        as_u32(s) matches Some(n) ==> unsigned(s, 0xffff_ffff) == Some(n as nat),
        as_i32(s) is Some <==> signed(s, -0x8000_0000, 0x7fff_ffff) is Some,
        as_i32(s) matches Some(n) ==> signed(s, -0x8000_0000, 0x7fff_ffff) == Some(n as int),
{
}

} // verus!
