//! Integers written in decimal.

use crate::big;
use crate::text;
use crate::text::chars_of;
use vstd::prelude::*;

verus! {

/// The character of a decimal digit.
pub open spec fn digit_char(d: int) -> char {
    (48 + d) as char
}

/// Whether the character is one of `0` to `9`.
pub open spec fn is_digit(c: char) -> bool {
    '0' <= c <= '9'
}

/// The value of a decimal digit.
pub open spec fn digit_value(c: char) -> int {
    c as int - 48
}

/// The decimal digits of a number, without leading zeros.
pub open spec fn decimal(n: nat) -> Seq<char>
    decreases n,
{
    if n < 10 {
        seq![digit_char(n as int)]
    } else {
        decimal(n / 10).push(digit_char((n % 10) as int))
    }
}

/// The decimal form of an integer, with a minus sign where it is negative.
pub open spec fn signed_decimal(i: int) -> Seq<char> {
    if i < 0 {
        seq!['-'] + decimal((-i) as nat)
    } else {
        decimal(i as nat)
    }
}

/// A number of zeros.
pub open spec fn zeros(n: int) -> Seq<char> {
    Seq::new(if n > 0 { n as nat } else { 0 }, |i: int| '0')
}

/// The decimal form of an integer, filled up with zeros behind the sign to the given width.
pub open spec fn padded(i: int, width: int) -> Seq<char> {
    if i < 0 {
        let digits = decimal((-i) as nat);
        seq!['-'] + zeros(width - 1 - digits.len()) + digits
    } else {
        let digits = decimal(i as nat);
        zeros(width - digits.len()) + digits
    }
}

/// The decimal digits of a number.
pub fn decimal_text(n: u64) -> (out: String)
    ensures
        out@ == decimal(n as nat),
    decreases n,
{
    if n < 10 {
        let mut out = String::new();
        out.push((48u8 + n as u8) as char);
        assert(out@ =~= decimal(n as nat));
        out
    } else {
        let mut out = decimal_text(n / 10);
        out.push((48u8 + (n % 10) as u8) as char);
        out
    }
}

/// How far an integer is from zero.
fn magnitude(i: i64) -> (m: u64)
    ensures
        m == if i < 0 { -(i as int) } else { i as int },
{
    if i < 0 {
        (-(i as i128)) as u64
    } else {
        i as u64
    }
}

/// The decimal form of an integer.
pub fn signed_text(i: i64) -> (out: String)
    ensures
        out@ == signed_decimal(i as int),
{
    let digits = decimal_text(magnitude(i));
    if i < 0 {
        let mut out = String::new();
        out.push('-');
        assert(out@ =~= seq!['-']);
        out.append(digits.as_str());
        out
    } else {
        digits
    }
}

/// The decimal form of an integer, filled up with zeros to the given width.
pub fn padded_text(i: i64, width: usize) -> (out: String)
    ensures
        out@ == padded(i as int, width as int),
{
    let digits = decimal_text(magnitude(i));
    let mut out = String::new();
    let mut used: usize = digits.as_str().unicode_len();
    if i < 0 {
        out.push('-');
        assert(out@ =~= seq!['-']);
    }
    let ghost sign = out@;
    let ghost taken = digits@.len() + sign.len();
    let mut fill: usize = if i < 0 { 1 } else { 0 };
    let ghost start = fill;
    assert(out@ =~= sign + zeros(0));
    while fill < width && used < width - fill
        invariant
            start <= fill,
            used == digits@.len(),
            start == sign.len(),
            out@ == sign + zeros(fill - start),
            fill > start ==> fill + digits@.len() <= width,
        decreases width - fill,
    {
        out.push('0');
        assert(out@ =~= sign + zeros(fill + 1 - start));
        fill += 1;
    }
    assert(zeros(fill - start) =~= zeros(width - taken));
    assert(sign + zeros(width - taken) =~= if i < 0 {
        sign + zeros(width - 1 - digits@.len())
    } else {
        zeros(width - digits@.len())
    });
    out.append(digits.as_str());
    out
}

/// The number that a sequence of decimal digits stands for.
pub open spec fn digits_value(s: Seq<char>) -> nat
    decreases s.len(),
{
    if s.len() == 0 {
        0
    } else {
        (digits_value(s.drop_last()) * 10 + digit_value(s.last())) as nat
    }
}

/// Whether the text is made of decimal digits only.
pub open spec fn all_digits(s: Seq<char>) -> bool {
    forall|i: int| 0 <= i < s.len() ==> is_digit(#[trigger] s[i])
}

/// The text behind a sign, where there is one.
pub open spec fn unsigned_part(s: Seq<char>) -> Seq<char> {
    if s.len() > 0 && (s[0] == '+' || s[0] == '-') {
        s.drop_first()
    } else {
        s
    }
}

/// The integer that an optional sign and one or more digits stand for.
pub open spec fn integer_value(s: Seq<char>) -> Option<int> {
    let digits = unsigned_part(s);
    if digits.len() == 0 || !all_digits(digits) {
        None
    } else if s[0] == '-' {
        Some(-digits_value(digits))
    } else {
        Some(digits_value(digits) as int)
    }
}

/// The same, where the integer fits in 64 bits.
pub open spec fn i64_value(s: Seq<char>) -> Option<int> {
    match integer_value(s) {
        Some(v) if i64::MIN <= v <= i64::MAX => Some(v),
        _ => None,
    }
}

/// Whether the character is a decimal digit.
pub fn is_decimal_digit(c: char) -> (b: bool)
    ensures
        b == is_digit(c),
{
    '0' <= c && c <= '9'
}

/// Reads an integer: an optional sign and one or more digits, within 64 bits.
pub fn parse_i64(s: &str) -> (out: Option<i64>)
    ensures
        match out {
            Some(v) => i64_value(s@) == Some(v as int),
            None => i64_value(s@) is None,
        },
{
    let chars = chars_of(s);
    let mut i: usize = 0;
    let mut negative = false;
    if chars.len() > 0 && (chars[0] == '+' || chars[0] == '-') {
        negative = chars[0] == '-';
        i = 1;
    }
    let ghost digits = unsigned_part(s@);
    let ghost start = i as int;
    assert(digits =~= s@.skip(start));
    if i == chars.len() {
        return None;
    }
    let mut acc: i128 = 0;
    let mut over = false;
    while i < chars.len()
        invariant
            chars@ == s@,
            digits == s@.skip(start),
            0 <= start <= i <= chars@.len(),
            forall|j: int| 0 <= j < i - start ==> is_digit(#[trigger] digits[j]),
            0 <= acc <= 0x8000_0000_0000_0000,
            !over ==> acc == digits_value(digits.take(i - start)),
            over ==> digits_value(digits.take(i - start)) > 0x8000_0000_0000_0000,
            digits == unsigned_part(s@),
        decreases chars.len() - i,
    {
        let c = chars[i];
        assert(digits[i - start] == c);
        if !is_decimal_digit(c) {
            return None;
        }
        assert(digits.take(i + 1 - start).drop_last() =~= digits.take(i - start));
        assert(digits.take(i + 1 - start).last() == c);
        if !over {
            let next: i128 = acc * 10 + (c as u32 - 48) as i128;
            if next > 0x8000_0000_0000_0000 {
                over = true;
            } else {
                acc = next;
            }
        }
        i += 1;
    }
    assert(digits.take(i - start) =~= digits);
    assert(all_digits(digits));
    if over {
        return None;
    }
    if negative {
        Some((-acc) as i64)
    } else if acc <= 0x7fff_ffff_ffff_ffff {
        Some(acc as i64)
    } else {
        None
    }
}

// ---------------------------------------------------------------------------
// Numbers of a fixed width
// ---------------------------------------------------------------------------

/// The lowest `width` digits of a number.
pub open spec fn fixed(n: nat, width: nat) -> Seq<char>
    decreases width,
{
    if width == 0 {
        seq![]
    } else {
        fixed(n / 10, (width - 1) as nat).push(digit_char((n % 10) as int))
    }
}

proof fn lemma_fixed_zero(width: nat)
    ensures
        fixed(0, width) == zeros(width as int),
    decreases width,
{
    if width > 0 {
        lemma_fixed_zero((width - 1) as nat);
    }
    assert(fixed(0, width) =~= zeros(width as int));
}

/// A number that fits in the width is filled up to it exactly.
pub proof fn lemma_padded_is_fixed(n: nat, width: nat)
    requires
        n < big::ten_pow(width),
        width > 0,
    ensures
        padded(n as int, width as int) == fixed(n, width),
        fixed(n, width).len() == width,
    decreases width,
{
    if n < 10 {
        lemma_fixed_zero((width - 1) as nat);
        assert(padded(n as int, width as int) =~= fixed(n, width));
    } else {
        if width == 1 {
            reveal_with_fuel(big::ten_pow, 2);
        }
        lemma_padded_is_fixed(n / 10, (width - 1) as nat);
        let d = decimal(n);
        let e = decimal(n / 10);
        assert(zeros(width - d.len()) =~= zeros(width - 1 - e.len()));
        assert(padded(n as int, width as int) =~= padded(n as int / 10, width - 1).push(
            digit_char((n % 10) as int),
        ));
    }
}

/// Digits of a fixed width read back as the number.
pub proof fn lemma_fixed_value(n: nat, width: nat)
    requires
        n < big::ten_pow(width),
    ensures
        all_digits(fixed(n, width)),
        digits_value(fixed(n, width)) == n,
        fixed(n, width).len() == width,
    decreases width,
{
    if width > 0 {
        let s = fixed(n, width);
        lemma_fixed_value(n / 10, (width - 1) as nat);
        assert(s.drop_last() =~= fixed(n / 10, (width - 1) as nat));
        assert forall|i: int| 0 <= i < s.len() implies is_digit(#[trigger] s[i]) by {
            if i < s.len() - 1 {
                assert(is_digit(s.drop_last()[i]));
            }
        }
    }
}

/// Digits are those of the number that they stand for, filled up to their count.
pub proof fn lemma_fixed_digits(s: Seq<char>)
    requires
        all_digits(s),
    ensures
        fixed(digits_value(s), s.len()) == s,
        digits_value(s) < big::ten_pow(s.len()),
    decreases s.len(),
{
    if s.len() > 0 {
        let front = s.drop_last();
        assert forall|i: int| 0 <= i < front.len() implies is_digit(#[trigger] front[i]) by {
            assert(is_digit(s[i]));
        }
        assert(is_digit(s[s.len() - 1]));
        lemma_fixed_digits(front);
        assert(digits_value(s) / 10 == digits_value(front));
        assert(digit_char((digits_value(s) % 10) as int) == s.last());
        assert(fixed(digits_value(s), s.len()) =~= s);
    }
}

/// A filled-up number reads back as itself.
pub proof fn lemma_padded_value(n: nat, width: nat)
    requires
        n < big::ten_pow(width),
        width > 0,
        n <= i64::MAX,
    ensures
        padded(n as int, width as int).len() == width,
        all_digits(padded(n as int, width as int)),
        i64_value(padded(n as int, width as int)) == Some(n as int),
{
    lemma_padded_is_fixed(n, width);
    lemma_fixed_value(n, width);
    let s = padded(n as int, width as int);
    assert(is_digit(s[0]));
    assert(unsigned_part(s) == s);
}

/// Numbers of one width are ordered as their digits are.
pub proof fn lemma_fixed_order(a: nat, b: nat, width: nat)
    requires
        a < b < big::ten_pow(width),
    ensures
        text::text_lt(fixed(a, width), fixed(b, width)),
    decreases width,
{
    if width > 0 {
        let w = (width - 1) as nat;
        let x = fixed(a / 10, w);
        let y = fixed(b / 10, w);
        let p = seq![digit_char((a % 10) as int)];
        let q = seq![digit_char((b % 10) as int)];
        lemma_fixed_value(a / 10, w);
        lemma_fixed_value(b / 10, w);
        assert(fixed(a, width) =~= x + p);
        assert(fixed(b, width) =~= y + q);
        if a / 10 < b / 10 {
            lemma_fixed_order(a / 10, b / 10, w);
            text::lemma_text_lt_front(x, y, p, q);
        } else {
            text::lemma_text_lt_common(x, p, q);
        }
    }
}

/// Filled-up numbers of one width are ordered as the numbers are.
pub proof fn lemma_padded_order(a: nat, b: nat, width: nat)
    requires
        a < b < big::ten_pow(width),
        width > 0,
    ensures
        text::text_lt(padded(a as int, width as int), padded(b as int, width as int)),
        padded(a as int, width as int).len() == width,
        padded(b as int, width as int).len() == width,
{
    lemma_padded_is_fixed(a, width);
    lemma_padded_is_fixed(b, width);
    lemma_fixed_order(a, b, width);
}

/// A number that was written is read back.
pub proof fn lemma_decimal_read_back(n: nat)
    ensures
        all_digits(decimal(n)),
        decimal(n).len() > 0,
        digits_value(decimal(n)) == n,
        n > 0 ==> decimal(n)[0] != '0',
    decreases n,
{
    if n >= 10 {
        lemma_decimal_read_back(n / 10);
        let front = decimal(n / 10);
        let out = decimal(n);
        assert(out.drop_last() =~= front);
        assert forall|i: int| 0 <= i < out.len() implies is_digit(#[trigger] out[i]) by {
            if i < front.len() {
                assert(is_digit(front[i]));
            }
        }
        assert(out[0] == front[0]);
    } else {
        reveal_with_fuel(digits_value, 2);
        assert(decimal(n).drop_last() =~= seq![]);
    }
}

/// An integer that was written is read back.
pub proof fn lemma_signed_read_back(n: int)
    requires
        i64::MIN <= n <= i64::MAX,
    ensures
        i64_value(signed_decimal(n)) == Some(n),
{
    if n < 0 {
        lemma_decimal_read_back((-n) as nat);
        let s = signed_decimal(n);
        assert(s.drop_first() =~= decimal((-n) as nat));
        assert(s.skip(1) =~= decimal((-n) as nat));
    } else {
        lemma_decimal_read_back(n as nat);
        assert(is_digit(decimal(n as nat)[0]));
    }
}

} // verus!
