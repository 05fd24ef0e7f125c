//! The numbers that numerals stand for.
//!
//! A JSON number is taken as the closest number that the binary64 format of IEEE 754 holds,
//! ties going to the even significand. Everything here counts in units of two to the power
//! of -1074, the smallest positive number of that format.

use crate::big;
use crate::decimal;
use crate::numeral;
use crate::numeral::{parts_of, Numeral};
use crate::text::{chars_of, owned};
use vstd::prelude::*;

verus! {

/// The exponent of the unit.
pub const UNIT: usize = 1074;

/// How many bits a significand has.
pub const BITS: usize = 53;

/// The lowest scale that is too large for the format.
pub const OVER: usize = 2046;

/// The integer closest to `num / den`, ties going to the even one.
pub open spec fn nearest(num: nat, den: nat) -> nat {
    let q = num / den;
    let r = num % den;
    if 2 * r < den || (2 * r == den && q % 2 == 0) {
        q
    } else {
        q + 1
    }
}

/// The lowest scale from `t` on at which `num / den` takes no more than the bits of a
/// significand.
pub open spec fn scale(num: nat, den: nat, t: nat) -> nat
    decreases OVER - t,
{
    if t >= OVER || num < den * big::two_pow(t) * big::two_pow(BITS as nat) {
        t
    } else {
        scale(num, den, t + 1)
    }
}

/// The closest number of the format to `num / den`, in units; at or above
/// [`infinite`] where the format holds none that large.
pub open spec fn units_of(num: nat, den: nat) -> nat {
    let n = num * big::two_pow(UNIT as nat);
    let t = scale(n, den, 0);
    nearest(n, den * big::two_pow(t)) * big::two_pow(t)
}

/// Where a count of units stands for infinity.
pub open spec fn infinite(units: nat) -> bool {
    units >= big::two_pow(2098)
}

/// The numerator of the value of a numeral without its sign.
pub open spec fn numerator(n: Numeral) -> nat {
    if n.exponent >= 0 {
        decimal::digits_value(n.digits) * big::ten_pow(n.exponent as nat)
    } else {
        decimal::digits_value(n.digits)
    }
}

/// The denominator of the value of a numeral.
pub open spec fn denominator(n: Numeral) -> nat {
    if n.exponent >= 0 {
        1
    } else {
        big::ten_pow((-n.exponent) as nat)
    }
}

/// How many units a numeral without its sign stands for.
pub open spec fn units(n: Numeral) -> nat {
    units_of(numerator(n), denominator(n))
}

/// The closest 64-bit integer.
pub open spec fn clamp(v: int) -> int {
    if v > i64::MAX {
        i64::MAX as int
    } else if v < i64::MIN {
        i64::MIN as int
    } else {
        v
    }
}

/// The number as a 64-bit integer: the fraction is cut off, and what is too large goes to
/// the closest integer. A text that is no numeral stands for zero.
pub open spec fn integer_of(s: Seq<char>) -> int {
    match numeral::numeral(s) {
        Some(n) => {
            let whole = units(n) / big::two_pow(UNIT as nat);
            clamp(if n.negative { -(whole as int) } else { whole as int })
        },
        None => 0,
    }
}

/// The number rounded to an integer, in decimal, ties going to the even one. A text that is
/// no numeral gives nothing.
pub open spec fn rounded_text(s: Seq<char>) -> Seq<char> {
    match numeral::numeral(s) {
        Some(n) => {
            let sign = if n.negative {
                "-"@
            } else {
                seq![]
            };
            if infinite(units(n)) {
                sign + "inf"@
            } else {
                sign + decimal::decimal(nearest(units(n), big::two_pow(UNIT as nat)))
            }
        },
        None => seq![],
    }
}

// ---------------------------------------------------------------------------
// Facts about rounding
// ---------------------------------------------------------------------------

/// Quotient and remainder determine each other.
proof fn lemma_div_is(num: nat, den: nat, q: nat, r: nat)
    requires
        den > 0,
        num == q * den + r,
        r < den,
    ensures
        num / den == q,
        num % den == r,
{
    vstd::arithmetic::div_mod::lemma_fundamental_div_mod_converse(
        num as int,
        den as int,
        q as int,
        r as int,
    );
}

/// A common factor does not change the closest integer.
proof fn lemma_nearest_scaled(num: nat, den: nat, c: nat)
    requires
        den > 0,
        c > 0,
    ensures
        nearest(num * c, den * c) == nearest(num, den),
{
    let q = num / den;
    let r = num % den;
    vstd::arithmetic::div_mod::lemma_fundamental_div_mod(num as int, den as int);
    assert(num == q * den + r) by (nonlinear_arith)
        requires
            num == den * q + r,
    ;
    assert(num * c == q * (den * c) + r * c) by (nonlinear_arith)
        requires
            num == q * den + r,
    ;
    assert(r * c < den * c) by (nonlinear_arith)
        requires
            r < den,
            c > 0,
    ;
    lemma_div_is(num * c, den * c, q, r * c);
    assert(2 * (r * c) < den * c <==> 2 * r < den) by (nonlinear_arith)
        requires
            c > 0,
    ;
    assert(2 * (r * c) == den * c <==> 2 * r == den) by (nonlinear_arith)
        requires
            c > 0,
    ;
}

/// A multiple is its own closest integer.
proof fn lemma_nearest_exact(q: nat, den: nat)
    requires
        den > 0,
    ensures
        nearest(q * den, den) == q,
        (q * den) / den == q,
{
    lemma_div_is(q * den, den, q, 0);
}

/// Less than half of the denominator rounds to zero.
proof fn lemma_nearest_zero(num: nat, den: nat)
    requires
        2 * num < den,
    ensures
        nearest(num, den) == 0,
{
    assert(num == 0 * den + num) by (nonlinear_arith);
    lemma_div_is(num, den, 0, num);
}

/// The scale is the first one that is large enough.
proof fn lemma_scale(num: nat, den: nat, t: nat, u: nat)
    requires
        t <= u <= OVER,
        u < OVER ==> num < den * big::two_pow(u) * big::two_pow(BITS as nat),
    ensures
        t <= scale(num, den, t) <= u,
    decreases u - t,
{
    if t < u && !(num < den * big::two_pow(t) * big::two_pow(BITS as nat)) {
        lemma_scale(num, den, t + 1, u);
    }
}

/// A whole number below two to the power of 53 is held as it is.
proof fn lemma_small_integer(v: nat)
    requires
        v < big::two_pow(BITS as nat),
    ensures
        units_of(v, 1) == v * big::two_pow(UNIT as nat),
{
    let unit = big::two_pow(UNIT as nat);
    let bits = big::two_pow(BITS as nat);
    let n = v * unit;
    big::lemma_two_pow_positive(UNIT as nat);
    assert(n < 1 * unit * bits) by (nonlinear_arith)
        requires
            n == v * unit,
            v < bits,
            unit > 0,
    ;
    lemma_scale(n, 1, 0, UNIT as nat);
    let t = scale(n, 1, 0);
    let rest = (UNIT - t) as nat;
    big::lemma_two_pow_adds(rest, t);
    let p = big::two_pow(rest);
    let q = big::two_pow(t);
    assert(n == (v * p) * q) by (nonlinear_arith)
        requires
            n == v * unit,
            unit == p * q,
    ;
    big::lemma_two_pow_positive(t);
    assert(1 * q == q) by (nonlinear_arith);
    lemma_nearest_exact(v * p, q);
}

/// Ten to the power of `n` is at least two to the power of three times `n`.
proof fn lemma_ten_over_two(n: nat)
    ensures
        big::ten_pow(n) >= big::two_pow(3 * n),
    decreases n,
{
    if n > 0 {
        lemma_ten_over_two((n - 1) as nat);
        reveal_with_fuel(big::two_pow, 4);
        assert(big::two_pow(3 * n) == 8 * big::two_pow((3 * n - 3) as nat));
    }
}

/// What is at least two to the power of 1024 is infinite.
proof fn lemma_large(num: nat, den: nat)
    requires
        den > 0,
        num >= den * big::two_pow(1024),
    ensures
        infinite(units_of(num, den)),
{
    let unit = big::two_pow(UNIT as nat);
    let n = num * unit;
    let bits = big::two_pow(BITS as nat);
    big::lemma_two_pow_positive(UNIT as nat);
    big::lemma_two_pow_adds(1024, UNIT as nat);
    let limit = big::two_pow(2098);
    assert(n >= den * limit) by (nonlinear_arith)
        requires
            n == num * unit,
            num >= den * big::two_pow(1024),
            limit == big::two_pow(1024) * unit,
            unit > 0,
    ;
    lemma_scale_reaches(n, den, 0);
    let top = big::two_pow(OVER as nat);
    big::lemma_two_pow_adds(52, OVER as nat);
    let half = big::two_pow(52);
    big::lemma_two_pow_positive(OVER as nat);
    let d = den * top;
    assert(d > 0) by (nonlinear_arith)
        requires
            d == den * top,
            den > 0,
            top > 0,
    ;
    assert(n >= half * d) by (nonlinear_arith)
        requires
            n >= den * limit,
            limit == half * top,
            d == den * top,
    ;
    vstd::arithmetic::div_mod::lemma_div_is_ordered((half * d) as int, n as int, d as int);
    lemma_nearest_exact(half, d);
    assert(n / d >= half);
    let m = nearest(n, d);
    assert(m * top >= half * top) by (nonlinear_arith)
        requires
            m >= half,
    ;
}

/// A number at or above the limit has no scale.
proof fn lemma_scale_reaches(n: nat, den: nat, t: nat)
    requires
        den > 0,
        n >= den * big::two_pow(2098),
        t <= OVER,
    ensures
        scale(n, den, t) == OVER,
    decreases OVER - t,
{
    if t < OVER {
        big::lemma_two_pow_adds(t, BITS as nat);
        big::lemma_two_pow_monotonic(t + BITS as nat, 2098);
        let p = big::two_pow(t);
        let b = big::two_pow(BITS as nat);
        let limit = big::two_pow(2098);
        assert(n >= den * p * b) by (nonlinear_arith)
            requires
                n >= den * limit,
                p * b <= limit,
        ;
        lemma_scale_reaches(n, den, t + 1);
    }
}

/// What is below two to the power of -1076 rounds to zero.
proof fn lemma_tiny(num: nat, den: nat)
    requires
        num * big::two_pow(1076) < den,
    ensures
        units_of(num, den) == 0,
{
    let unit = big::two_pow(UNIT as nat);
    let n = num * unit;
    big::lemma_two_pow_adds(2, UNIT as nat);
    reveal_with_fuel(big::two_pow, 3);
    assert(4 * n < den) by (nonlinear_arith)
        requires
            n == num * unit,
            num * (4 * unit) < den,
    ;
    let bits = big::two_pow(BITS as nat);
    big::lemma_two_pow_positive(BITS as nat);
    assert(n < den * 1 * bits) by (nonlinear_arith)
        requires
            n < den,
            bits > 0,
    ;
    assert(big::two_pow(0) == 1);
    assert(scale(n, den, 0) == 0);
    assert(den * 1 == den) by (nonlinear_arith);
    lemma_nearest_zero(n, den);
}

// ---------------------------------------------------------------------------
// Rounding
// ---------------------------------------------------------------------------

/// A number of the format without its sign.
pub enum Rounded {
    /// Too large for the format.
    Infinite,
    /// The significand, scaled by a power of two, in units.
    Finite(u64, usize),
}

impl Rounded {
    /// Whether this is the number with that many units.
    pub open spec fn is(self, units: nat) -> bool {
        match self {
            Rounded::Infinite => infinite(units),
            Rounded::Finite(m, t) => {
                &&& units == m * big::two_pow(t as nat)
                &&& !infinite(units)
                &&& m <= big::two_pow(BITS as nat)
                &&& t < OVER
            },
        }
    }
}

/// Two to the power of 53, written out.
proof fn lemma_bits()
    ensures
        big::two_pow(BITS as nat) == 0x20_0000_0000_0000,
{
    reveal_with_fuel(big::two_pow, 54);
}

/// The quotient of two numbers, and what is left, scaled by two to the power of 53.
fn divide(num: &Vec<u8>, limit: &Vec<u8>, Ghost(den): Ghost<nat>) -> (out: (u64, Vec<u8>))
    requires
        big::is_number(num@),
        big::is_number(limit@),
        den > 0,
        big::value(limit@) == den * big::two_pow(BITS as nat),
        big::value(num@) < big::value(limit@),
    ensures
        big::is_number(out.1@),
        out.0 < big::two_pow(BITS as nat),
        out.0 == big::value(num@) / den,
        big::value(out.1@) == (big::value(num@) % den) * big::two_pow(BITS as nat),
{
    let mut rest: Vec<u8> = num.clone();
    assert(rest@ =~= num@);
    let mut q: u64 = 0;
    let ghost top = big::value(limit@);
    let ghost n = big::value(num@);
    proof {
        lemma_bits();
        assert(n * big::two_pow(0) == n) by (nonlinear_arith)
            requires
                big::two_pow(0) == 1,
        ;
        assert(0 * top == 0) by (nonlinear_arith);
    }
    for i in 0..BITS
        invariant
            big::is_number(rest@),
            big::is_number(limit@),
            top == big::value(limit@),
            big::value(rest@) < top,
            q < big::two_pow(i as nat),
            n * big::two_pow(i as nat) == q * top + big::value(rest@),
            i <= 53,
    {
        let ghost r = big::value(rest@);
        let ghost before = q as nat;
        proof {
            big::lemma_two_pow_monotonic(i as nat, BITS as nat);
            lemma_bits();
            let p = big::two_pow(i as nat);
            assert(n * (2 * p) == (2 * before) * top + 2 * r) by (nonlinear_arith)
                requires
                    n * p == before * top + r,
            ;
            assert((2 * before + 1) * top == (2 * before) * top + top) by (nonlinear_arith);
        }
        rest = big::double(&rest);
        q = 2 * q;
        if !big::less(&rest, limit) {
            rest = big::minus(&rest, limit);
            q = q + 1;
        }
    }
    proof {
        let p = big::two_pow(BITS as nat);
        let r = big::value(rest@);
        big::lemma_two_pow_positive(BITS as nat);
        let whole = q as nat;
        assert(n * p == (whole * den) * p + r) by (nonlinear_arith)
            requires
                n * p == whole * (den * p) + r,
        ;
        assert(whole * den <= n) by (nonlinear_arith)
            requires
                n * p == (whole * den) * p + r,
                p > 0,
                r < den * p,
                r >= 0,
        ;
        let left = (n - whole * den) as nat;
        assert(left * p == r) by (nonlinear_arith)
            requires
                n * p == (whole * den) * p + r,
                left == n - whole * den,
        ;
        assert(left < den) by (nonlinear_arith)
            requires
                left * p < den * p,
                p > 0,
        ;
        lemma_div_is(n, den, whole, left);
    }
    (q, rest)
}

/// The closest number of the format.
fn round(num: &Vec<u8>, den: &Vec<u8>) -> (out: Rounded)
    requires
        big::is_number(num@),
        big::is_number(den@),
        big::value(den@) > 0,
    ensures
        out.is(units_of(big::value(num@), big::value(den@))),
{
    let n = big::doubled(num, UNIT);
    let mut limit = big::doubled(den, BITS);
    let mut t: usize = 0;
    let ghost d = big::value(den@);
    let ghost nv = big::value(n@);
    let ghost bits = big::two_pow(BITS as nat);
    proof {
        assert(d * big::two_pow(0) * bits == d * bits) by (nonlinear_arith)
            requires
                big::two_pow(0) == 1,
        ;
    }
    while t < OVER && !big::less(&n, &limit)
        invariant
            t <= OVER,
            d > 0,
            big::is_number(n@),
            big::is_number(limit@),
            nv == big::value(n@),
            bits == big::two_pow(BITS as nat),
            big::value(limit@) == d * big::two_pow(t as nat) * bits,
            scale(nv, d, t as nat) == scale(nv, d, 0),
            forall|u: nat| u < t ==> nv >= d * #[trigger] big::two_pow(u) * bits,
        decreases OVER - t,
    {
        limit = big::double(&limit);
        proof {
            let p = big::two_pow(t as nat);
            assert(2 * (d * p * bits) == d * (2 * p) * bits) by (nonlinear_arith);
        }
        t += 1;
    }
    proof {
        lemma_bits();
        big::lemma_two_pow_positive(t as nat);
    }
    let ghost p = big::two_pow(t as nat);
    let ghost dp = d * p;
    proof {
        assert(dp > 0) by (nonlinear_arith)
            requires
                dp == d * p,
                d > 0,
                p > 0,
        ;
    }
    if t == OVER {
        proof {
            lemma_unscaled(nv, d);
        }
        return Rounded::Infinite;
    }
    let (q, rest) = divide(&n, &limit, Ghost(dp));
    let twice = big::double(&rest);
    let down = big::less(&twice, &limit) || (!big::less(&limit, &twice) && q % 2 == 0);
    let m: u64 = if down {
        q
    } else {
        q + 1
    };
    proof {
        let r = nv % dp;
        assert(2 * (r * bits) < dp * bits <==> 2 * r < dp) by (nonlinear_arith)
            requires
                bits > 0,
        ;
        assert(2 * (r * bits) == dp * bits <==> 2 * r == dp) by (nonlinear_arith)
            requires
                bits > 0,
        ;
        assert(m == nearest(nv, dp));
        big::lemma_two_pow_adds(BITS as nat, t as nat);
        big::lemma_two_pow_monotonic((BITS + t) as nat, 2098);
        assert(m * p <= bits * p) by (nonlinear_arith)
            requires
                m <= bits,
        ;
        if m < bits {
            assert(m * p < bits * p) by (nonlinear_arith)
                requires
                    m < bits,
                    p > 0,
            ;
        } else if t < OVER - 1 {
            big::lemma_two_pow_monotonic((BITS + t) as nat, 2097);
            assert(big::two_pow(2098) == 2 * big::two_pow(2097));
            big::lemma_two_pow_positive(2097);
        } else {
            assert((BITS + t) as nat == 2098);
        }
    }
    if t == OVER - 1 && m == 0x20_0000_0000_0000 {
        return Rounded::Infinite;
    }
    Rounded::Finite(m, t)
}

/// Where no scale is large enough the number is infinite.
proof fn lemma_unscaled(n: nat, den: nat)
    requires
        den > 0,
        n >= den * big::two_pow(2045) * big::two_pow(BITS as nat),
    ensures
        infinite(nearest(n, den * big::two_pow(OVER as nat)) * big::two_pow(OVER as nat)),
{
    let top = big::two_pow(OVER as nat);
    let half = big::two_pow(52);
    let d = den * top;
    big::lemma_two_pow_positive(OVER as nat);
    big::lemma_two_pow_adds(52, OVER as nat);
    assert(top == 2 * big::two_pow(2045));
    assert(big::two_pow(BITS as nat) == 2 * half);
    assert(d > 0) by (nonlinear_arith)
        requires
            d == den * top,
            den > 0,
            top > 0,
    ;
    assert(n >= half * d) by (nonlinear_arith)
        requires
            n >= den * big::two_pow(2045) * (2 * half),
            d == den * (2 * big::two_pow(2045)),
    ;
    vstd::arithmetic::div_mod::lemma_div_is_ordered((half * d) as int, n as int, d as int);
    lemma_nearest_exact(half, d);
    let m = nearest(n, d);
    assert(m * top >= half * top) by (nonlinear_arith)
        requires
            m >= half,
    ;
}

// ---------------------------------------------------------------------------
// Numerals
// ---------------------------------------------------------------------------

/// An exponent as far as it matters: beyond ten to the power of 30 only its sign counts.
pub open spec fn far(e: int) -> int {
    if e > FAR {
        FAR as int
    } else if e < -FAR {
        -FAR
    } else {
        e
    }
}

/// Ten to the power of 30.
pub const FAR: i128 = 1_000_000_000_000_000_000_000_000_000_000;

/// Reads the exponent of a numeral.
fn read_exponent(s: &Vec<char>, lo: usize, hi: usize) -> (e: i128)
    requires
        lo < hi <= s@.len(),
        decimal::integer_value(s@.subrange(lo as int, hi as int)) is Some,
    ensures
        e == far(decimal::integer_value(s@.subrange(lo as int, hi as int))->0),
{
    let ghost text = s@.subrange(lo as int, hi as int);
    let ghost digits = decimal::unsigned_part(text);
    let mut i: usize = lo;
    let negative = s[lo] == '-';
    if s[lo] == '+' || s[lo] == '-' {
        i = lo + 1;
    }
    let ghost start = i as int;
    assert(digits =~= s@.subrange(start, hi as int));
    let mut acc: i128 = 0;
    let mut over = false;
    while i < hi
        invariant
            lo <= start <= i <= hi <= s@.len(),
            digits == s@.subrange(start, hi as int),
            decimal::all_digits(digits),
            0 <= acc <= FAR,
            !over ==> acc == decimal::digits_value(digits.take(i - start)),
            over ==> decimal::digits_value(digits.take(i - start)) > FAR,
        decreases hi - i,
    {
        let c = s[i];
        assert(digits[i - start] == c);
        assert(decimal::is_digit(digits[i - start]));
        assert(digits.take(i + 1 - start).drop_last() =~= digits.take(i - start));
        if !over {
            let next: i128 = acc * 10 + (c as u32 - 48) as i128;
            if next > FAR {
                over = true;
            } else {
                acc = next;
            }
        }
        i += 1;
    }
    assert(digits.take(i - start) =~= digits);
    if over {
        acc = FAR;
    }
    if negative {
        -acc
    } else {
        acc
    }
}

/// A numeral whose digits and exponent make it at least ten to the power of 400.
proof fn lemma_far_above(n: Numeral, d: Seq<u8>)
    requires
        big::is_number(d),
        d.len() > 0,
        big::value(d) == decimal::digits_value(n.digits),
        d.len() + n.exponent > 400,
    ensures
        infinite(units(n)),
{
    big::lemma_value_at_least(d);
    let v = big::value(d);
    let low = big::ten_pow((d.len() - 1) as nat);
    lemma_ten_over_two(400);
    big::lemma_two_pow_monotonic(1024, 1200);
    let limit = big::ten_pow(400);
    if n.exponent >= 0 {
        let p = big::ten_pow(n.exponent as nat);
        big::lemma_ten_pow_adds((d.len() - 1) as nat, n.exponent as nat);
        big::lemma_ten_pow_monotonic(400, (d.len() - 1 + n.exponent) as nat);
        assert(v * p >= low * p) by (nonlinear_arith)
            requires
                v >= low,
        ;
        assert(1 * big::two_pow(1024) == big::two_pow(1024)) by (nonlinear_arith);
        lemma_large(v * p, 1);
    } else {
        let e = (-n.exponent) as nat;
        let den = big::ten_pow(e);
        big::lemma_ten_pow_positive(e);
        big::lemma_ten_pow_adds(e, 400);
        big::lemma_ten_pow_monotonic(e + 400, (d.len() - 1) as nat);
        assert(v >= den * big::two_pow(1024)) by (nonlinear_arith)
            requires
                v >= low,
                low >= den * limit,
                limit >= big::two_pow(1024),
        ;
        lemma_large(v, den);
    }
}

/// A numeral whose digits and exponent make it less than ten to the power of -400.
proof fn lemma_far_below(n: Numeral, d: Seq<u8>)
    requires
        big::is_number(d),
        big::value(d) == decimal::digits_value(n.digits),
        d.len() + n.exponent < -400,
    ensures
        units(n) == 0,
{
    big::lemma_low_value_bound(d, d.len());
    let v = big::value(d);
    let e = (-n.exponent) as nat;
    let den = big::ten_pow(e);
    let high = big::ten_pow(d.len());
    lemma_ten_over_two(400);
    big::lemma_two_pow_monotonic(1076, 1200);
    let limit = big::ten_pow(400);
    let p = big::two_pow(1076);
    big::lemma_ten_pow_adds(d.len(), 400);
    big::lemma_ten_pow_monotonic(d.len() + 400, e);
    big::lemma_two_pow_positive(1076);
    assert(v * p < den) by (nonlinear_arith)
        requires
            v < high,
            p > 0,
            limit >= p,
            high * limit <= den,
    ;
    lemma_tiny(v, den);
}

/// The number that a numeral without its sign stands for.
fn round_numeral(s: &Vec<char>, parts: &numeral::Parts) -> (out: Rounded)
    requires
        parts.describe(s@),
    ensures
        out.is(units(numeral::numeral(s@)->0)),
{
    let ghost n = numeral::numeral(s@)->0;
    let mut digits: Vec<char> = Vec::new();
    for i in parts.whole.0..parts.whole.1
        invariant
            parts.whole.1 <= s@.len(),
            digits@ == s@.subrange(parts.whole.0 as int, i as int),
    {
        digits.push(s[i]);
    }
    let ghost whole = digits@;
    assert(whole + s@.subrange(parts.fraction.0 as int, parts.fraction.0 as int) =~= whole);
    for i in parts.fraction.0..parts.fraction.1
        invariant
            parts.fraction.1 <= s@.len(),
            digits@ == whole + s@.subrange(parts.fraction.0 as int, i as int),
    {
        let ghost before = digits@;
        digits.push(s[i]);
        assert(digits@ =~= whole + s@.subrange(parts.fraction.0 as int, i + 1));
    }
    assert(digits@ == n.digits);
    let d = big::from_digits(&digits);
    let stated: i128 = if parts.exponent.0 < parts.exponent.1 {
        read_exponent(s, parts.exponent.0, parts.exponent.1)
    } else {
        0
    };
    let e: i128 = stated - (parts.fraction.1 - parts.fraction.0) as i128;
    let size: i128 = d.len() as i128;
    let place: i128 = size + e;
    if d.len() == 0 {
        proof {
            big::lemma_ten_pow_positive(if n.exponent >= 0 { 0 } else { (-n.exponent) as nat });
            assert(0 * big::two_pow(1076) == 0) by (nonlinear_arith);
            if n.exponent >= 0 {
                assert(0 * big::ten_pow(n.exponent as nat) == 0) by (nonlinear_arith);
            }
            lemma_tiny(0, denominator(n));
            lemma_not_infinite_zero();
        }
        return Rounded::Finite(0, 0);
    }
    if place > 400 {
        proof {
            lemma_far_above(n, d@);
        }
        return Rounded::Infinite;
    }
    if place < -400 {
        proof {
            lemma_far_below(n, d@);
            lemma_not_infinite_zero();
        }
        return Rounded::Finite(0, 0);
    }
    let mut one: Vec<u8> = Vec::new();
    one.push(1);
    proof {
        reveal_with_fuel(big::low_value, 2);
        reveal_with_fuel(big::ten_pow, 1);
        assert(big::value(one@) == 1);
    }
    if e >= 0 {
        let num = big::shifted(&d, e as u128);
        round(&num, &one)
    } else {
        let den = big::shifted(&one, (-e) as u128);
        proof {
            big::lemma_ten_pow_positive((-e) as nat);
            assert(1 * big::ten_pow((-e) as nat) == big::ten_pow((-e) as nat)) by (nonlinear_arith);
        }
        round(&d, &den)
    }
}

proof fn lemma_not_infinite_zero()
    ensures
        !infinite(0),
        0 * big::two_pow(0) == 0,
{
    big::lemma_two_pow_positive(2098);
}

/// A numeral of at most 15 digits without fraction and exponent, as it is.
fn small_integer(s: &Vec<char>, parts: &numeral::Parts) -> (out: Option<u64>)
    requires
        parts.describe(s@),
    ensures
        out is Some <==> parts.fraction.0 == parts.fraction.1 && parts.exponent.0
            == parts.exponent.1 && parts.whole.1 - parts.whole.0 <= 15,
        out matches Some(v) ==> {
            &&& v == decimal::digits_value(numeral::numeral(s@)->0.digits)
            &&& units(numeral::numeral(s@)->0) == v * big::two_pow(UNIT as nat)
            &&& v < 1_000_000_000_000_000
        },
{
    if parts.fraction.0 != parts.fraction.1 || parts.exponent.0 != parts.exponent.1
        || parts.whole.1 - parts.whole.0 > 15 {
        return None;
    }
    let ghost n = numeral::numeral(s@)->0;
    let ghost digits = s@.subrange(parts.whole.0 as int, parts.whole.1 as int);
    assert(n.digits =~= digits);
    let mut v: u64 = 0;
    let mut i: usize = parts.whole.0;
    assert(digits.take(0) =~= seq![]);
    reveal_with_fuel(big::ten_pow, 16);
    while i < parts.whole.1
        invariant
            parts.whole.0 <= i <= parts.whole.1 <= s@.len(),
            parts.whole.1 - parts.whole.0 <= 15,
            digits == s@.subrange(parts.whole.0 as int, parts.whole.1 as int),
            decimal::all_digits(digits),
            v == decimal::digits_value(digits.take(i - parts.whole.0)),
            v < big::ten_pow((i - parts.whole.0) as nat),
        decreases parts.whole.1 - i,
    {
        let c = s[i];
        let ghost k = i - parts.whole.0;
        assert(digits[k] == c);
        assert(decimal::is_digit(digits[k]));
        assert(digits.take(k + 1).drop_last() =~= digits.take(k));
        proof {
            big::lemma_ten_pow_monotonic(k as nat, 15);
            reveal_with_fuel(big::ten_pow, 16);
        }
        v = v * 10 + (c as u32 - 48) as u64;
        i += 1;
    }
    proof {
        assert(digits.take(digits.len() as int) =~= digits);
        big::lemma_ten_pow_monotonic(digits.len(), 15);
        reveal_with_fuel(big::ten_pow, 16);
        lemma_bits();
        assert(numerator(n) == v * big::ten_pow(0));
        assert(v * big::ten_pow(0) == v) by (nonlinear_arith)
            requires
                big::ten_pow(0) == 1,
        ;
        lemma_small_integer(v as nat);
    }
    Some(v)
}

/// The value of a significand and scale with the fraction cut off, where it fits.
fn whole_part(m: u64, t: usize) -> (out: Option<u64>)
    requires
        t < OVER,
        m <= big::two_pow(BITS as nat),
    ensures
        match out {
            Some(v) => v == (m as nat * big::two_pow(t as nat)) / big::two_pow(UNIT as nat),
            None => (m as nat * big::two_pow(t as nat)) / big::two_pow(UNIT as nat)
                >= 0x8000_0000_0000_0000,
        },
{
    let ghost unit = big::two_pow(UNIT as nat);
    proof {
        lemma_bits();
        big::lemma_two_pow_positive(UNIT as nat);
    }
    if t >= UNIT {
        let k: usize = t - UNIT;
        proof {
            big::lemma_two_pow_adds(k as nat, UNIT as nat);
            let p = big::two_pow(k as nat);
            assert(m * (p * unit) == (m * p) * unit) by (nonlinear_arith);
            lemma_nearest_exact(m as nat * p, unit);
        }
        let mut v: u64 = m;
        let mut i: usize = 0;
        assert(m * big::two_pow(0) == m) by (nonlinear_arith)
            requires
                big::two_pow(0) == 1,
        ;
        while i < k
            invariant
                i <= k,
                v == m * big::two_pow(i as nat),
                v < 0x8000_0000_0000_0000,
                (m as nat * big::two_pow(t as nat)) / big::two_pow(UNIT as nat) == m as nat
                    * big::two_pow(k as nat),
            decreases k - i,
        {
            proof {
                let p = big::two_pow(i as nat);
                assert(2 * (m * p) == m * (2 * p)) by (nonlinear_arith);
            }
            v = 2 * v;
            i += 1;
            if v >= 0x8000_0000_0000_0000 {
                proof {
                    big::lemma_two_pow_monotonic(i as nat, k as nat);
                    let a = big::two_pow(i as nat);
                    let b = big::two_pow(k as nat);
                    assert(m * a <= m * b) by (nonlinear_arith)
                        requires
                            a <= b,
                    ;
                }
                return None;
            }
        }
        Some(v)
    } else {
        let k: usize = UNIT - t;
        proof {
            lemma_shared_power(m as nat, t as nat);
        }
        let mut v: u64 = m;
        let mut i: usize = 0;
        assert(m as nat / 1 == m);
        while i < k
            invariant
                i <= k,
                v == m as nat / big::two_pow(i as nat),
            decreases k - i,
        {
            proof {
                let p = big::two_pow(i as nat);
                big::lemma_two_pow_positive(i as nat);
                vstd::arithmetic::div_mod::lemma_div_denominator(m as int, p as int, 2);
                assert(p * 2 == 2 * p);
            }
            v = v / 2;
            i += 1;
        }
        Some(v)
    }
}

/// A power of two in both parts of a quotient by the unit can be left out.
proof fn lemma_shared_power(m: nat, t: nat)
    requires
        t <= UNIT,
    ensures
        (m * big::two_pow(t)) / big::two_pow(UNIT as nat) == m / big::two_pow((UNIT - t) as nat),
        nearest(m * big::two_pow(t), big::two_pow(UNIT as nat)) == nearest(
            m,
            big::two_pow((UNIT - t) as nat),
        ),
{
    let k = (UNIT - t) as nat;
    let d = big::two_pow(k);
    let c = big::two_pow(t);
    big::lemma_two_pow_adds(k, t);
    big::lemma_two_pow_positive(k);
    big::lemma_two_pow_positive(t);
    lemma_nearest_scaled(m, d, c);
    let q = m / d;
    let r = m % d;
    vstd::arithmetic::div_mod::lemma_fundamental_div_mod(m as int, d as int);
    assert(m * c == q * (d * c) + r * c) by (nonlinear_arith)
        requires
            m == d * q + r,
    ;
    assert(r * c < d * c) by (nonlinear_arith)
        requires
            r < d,
            c > 0,
    ;
    lemma_div_is(m * c, d * c, q, r * c);
}

/// The number that a numeral stands for, as a 64-bit integer; see [`integer_of`].
pub fn as_integer(s: &str) -> (out: i64)
    ensures
        out == integer_of(s@),
{
    let chars = chars_of(s);
    let parts = match parts_of(&chars) {
        Some(p) => p,
        None => {
            return 0;
        },
    };
    let whole: Option<u64> = match small_integer(&chars, &parts) {
        Some(v) => {
            proof {
                big::lemma_two_pow_positive(UNIT as nat);
                lemma_nearest_exact(v as nat, big::two_pow(UNIT as nat));
            }
            Some(v)
        },
        None => match round_numeral(&chars, &parts) {
            Rounded::Infinite => {
                proof {
                    lemma_infinite_whole(units(numeral::numeral(s@)->0));
                }
                None
            },
            Rounded::Finite(m, t) => whole_part(m, t),
        },
    };
    match whole {
        Some(v) => {
            if parts.negative {
                if v >= 0x8000_0000_0000_0000 {
                    i64::MIN
                } else {
                    -(v as i64)
                }
            } else if v >= 0x8000_0000_0000_0000 {
                i64::MAX
            } else {
                v as i64
            }
        },
        None => {
            if parts.negative {
                i64::MIN
            } else {
                i64::MAX
            }
        },
    }
}

/// Infinity is beyond every 64-bit integer.
proof fn lemma_infinite_whole(units: nat)
    requires
        infinite(units),
    ensures
        units / big::two_pow(UNIT as nat) >= 0x8000_0000_0000_0000,
{
    let unit = big::two_pow(UNIT as nat);
    let top = big::two_pow(1024);
    big::lemma_two_pow_positive(UNIT as nat);
    big::lemma_two_pow_adds(1024, UNIT as nat);
    vstd::arithmetic::div_mod::lemma_div_is_ordered((top * unit) as int, units as int, unit as int);
    lemma_nearest_exact(top, unit);
    big::lemma_two_pow_monotonic(63, 1024);
    lemma_top_bit();
}

/// Two to the power of 63, written out.
proof fn lemma_top_bit()
    ensures
        big::two_pow(63) == 0x8000_0000_0000_0000,
{
    reveal_with_fuel(big::two_pow, 64);
}

/// The decimal digits of a number, as a number of any size.
fn from_u64(v: u64) -> (out: Vec<u8>)
    ensures
        big::is_number(out@),
        big::value(out@) == v,
{
    let mut out: Vec<u8> = Vec::new();
    let mut left: u64 = v;
    assert(left * big::ten_pow(0) == v) by (nonlinear_arith)
        requires
            big::ten_pow(0) == 1,
            left == v,
    ;
    while left > 0
        invariant
            forall|j: int| 0 <= j < out@.len() ==> (#[trigger] out@[j]) < 10,
            v == big::value(out@) + left * big::ten_pow(out@.len()),
            left == 0 ==> big::is_number(out@),
        decreases left,
    {
        let ghost before = out@;
        let digit: u8 = (left % 10) as u8;
        out.push(digit);
        proof {
            let p = big::ten_pow(before.len());
            big::lemma_low_value_agrees(before, out@, before.len());
            let high = left / 10;
            assert(left * p == digit * p + high * (10 * p)) by (nonlinear_arith)
                requires
                    left == digit + 10 * high,
            ;
        }
        left = left / 10;
    }
    assert(0 * big::ten_pow(out@.len()) == 0) by (nonlinear_arith);
    out
}

/// The integer closest to a significand and scale, in decimal.
fn nearest_text(m: u64, t: usize) -> (out: String)
    requires
        t < OVER,
        m <= big::two_pow(BITS as nat),
    ensures
        out@ == decimal::decimal(
            nearest(m as nat * big::two_pow(t as nat), big::two_pow(UNIT as nat)),
        ),
{
    let ghost unit = big::two_pow(UNIT as nat);
    proof {
        lemma_bits();
        big::lemma_two_pow_positive(UNIT as nat);
    }
    if t >= UNIT {
        let k: usize = t - UNIT;
        proof {
            big::lemma_two_pow_adds(k as nat, UNIT as nat);
            let p = big::two_pow(k as nat);
            assert(m * (p * unit) == (m * p) * unit) by (nonlinear_arith);
            lemma_nearest_exact(m as nat * p, unit);
        }
        let d = from_u64(m);
        let v = big::doubled(&d, k);
        big::to_text(&v)
    } else {
        let k: usize = UNIT - t;
        proof {
            lemma_shared_power(m as nat, t as nat);
        }
        if k > 60 {
            proof {
                big::lemma_two_pow_monotonic(60, k as nat);
                big::lemma_two_pow_adds(7, 53);
                reveal_with_fuel(big::two_pow, 8);
                lemma_nearest_zero(m as nat, big::two_pow(k as nat));
            }
            return decimal::decimal_text(0);
        }
        let mut den: u64 = 1;
        let mut i: usize = 0;
        proof {
            big::lemma_two_pow_adds(7, 53);
            reveal_with_fuel(big::two_pow, 8);
        }
        while i < k
            invariant
                i <= k <= 60,
                den == big::two_pow(i as nat),
                den <= big::two_pow(60),
                big::two_pow(60) == 0x1000_0000_0000_0000,
            decreases k - i,
        {
            proof {
                big::lemma_two_pow_monotonic((i + 1) as nat, 60);
            }
            den = 2 * den;
            i += 1;
        }
        proof {
            big::lemma_two_pow_positive(k as nat);
        }
        let q = m / den;
        let r = m % den;
        if 2 * r < den || (2 * r == den && q % 2 == 0) {
            decimal::decimal_text(q)
        } else {
            decimal::decimal_text(q + 1)
        }
    }
}

/// The number that a numeral stands for, rounded to an integer, in decimal; see
/// [`rounded_text`].
pub fn as_rounded_text(s: &str) -> (out: String)
    ensures
        out@ == rounded_text(s@),
{
    let chars = chars_of(s);
    let parts = match parts_of(&chars) {
        Some(p) => p,
        None => {
            return String::new();
        },
    };
    let digits: String = match small_integer(&chars, &parts) {
        Some(v) => {
            proof {
                big::lemma_two_pow_positive(UNIT as nat);
                lemma_nearest_exact(v as nat, big::two_pow(UNIT as nat));
                lemma_small_finite(v as nat);
            }
            decimal::decimal_text(v)
        },
        None => match round_numeral(&chars, &parts) {
            Rounded::Infinite => owned("inf"),
            Rounded::Finite(m, t) => nearest_text(m, t),
        },
    };
    if parts.negative {
        let mut out = owned("-");
        out.append(digits.as_str());
        out
    } else {
        assert(Seq::<char>::empty() + digits@ =~= digits@);
        digits
    }
}

/// A small integer is not infinite.
proof fn lemma_small_finite(v: nat)
    requires
        v < 0x20_0000_0000_0000,
    ensures
        !infinite(v * big::two_pow(UNIT as nat)),
{
    let unit = big::two_pow(UNIT as nat);
    let top = big::two_pow(1024);
    big::lemma_two_pow_positive(UNIT as nat);
    big::lemma_two_pow_adds(1024, UNIT as nat);
    big::lemma_two_pow_monotonic(BITS as nat, 1024);
    lemma_bits();
    assert(v * unit < top * unit) by (nonlinear_arith)
        requires
            v < top,
            unit > 0,
    ;
}

// ---------------------------------------------------------------------------
// Laws
// ---------------------------------------------------------------------------

/// An integer below two to the power of 53 that was written in decimal is read as itself.
pub proof fn lemma_integer_read_back(n: int)
    requires
        -9_007_199_254_740_992 < n < 9_007_199_254_740_992,
    ensures
        integer_of(decimal::signed_decimal(n)) == n,
        rounded_text(decimal::signed_decimal(n)) == decimal::signed_decimal(n),
{
    let v: nat = if n < 0 {
        (-n) as nat
    } else {
        n as nat
    };
    let s = decimal::signed_decimal(n);
    let digits = decimal::decimal(v);
    decimal::lemma_decimal_read_back(v);
    assert(decimal::is_digit(digits[0]));
    if n < 0 {
        assert(s.drop_first() =~= digits);
    }
    assert(decimal::unsigned_part(s) == digits);
    numeral::lemma_digit_run_is(digits, digits.len() as int);
    assert(digits.take(digits.len() as int) =~= digits);
    assert(digits.skip(digits.len() as int) =~= seq![]);
    assert(digits + Seq::<char>::empty() =~= digits);
    let unit = big::two_pow(UNIT as nat);
    big::lemma_two_pow_positive(UNIT as nat);
    lemma_bits();
    assert(big::ten_pow(0) == 1);
    assert(v * 1 == v);
    lemma_small_integer(v);
    assert((v * unit) / unit == v) by (nonlinear_arith)
        requires
            unit > 0,
    ;
    lemma_nearest_exact(v, unit);
    lemma_small_finite(v);
    reveal_strlit("-");
    assert("-"@ =~= seq!['-']);
    assert(Seq::<char>::empty() + digits =~= digits);
}

/// Rounding gives the closest integer; where two are as close, it gives the even one.
pub proof fn lemma_nearest(num: nat, den: nat)
    requires
        den > 0,
    ensures
        -(den as int) <= 2 * num - 2 * (den * nearest(num, den)) <= den,
        2 * num - 2 * (den * nearest(num, den)) == den || 2 * (den * nearest(num, den)) - 2 * num
            == den ==> nearest(num, den) % 2 == 0,
{
    let q = num / den;
    let r = num % den;
    assert(num == den * q + r && r < den) by (nonlinear_arith)
        requires
            den > 0,
            q == num / den,
            r == num % den,
    ;
    assert(den * (q + 1) == den * q + den) by (nonlinear_arith);
}

/// Of the 64-bit integers none is closer to a number than the one that it goes to.
pub proof fn lemma_clamp(v: int, w: int)
    requires
        i64::MIN <= w <= i64::MAX,
    ensures
        i64::MIN <= clamp(v) <= i64::MAX,
        v <= w ==> v <= clamp(v) <= w,
        w <= v ==> w <= clamp(v) <= v,
{
}

} // verus!
