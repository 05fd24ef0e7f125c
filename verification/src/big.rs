//! Natural numbers of any size, as decimal digits.

use crate::decimal;
use vstd::prelude::*;

verus! {

/// Ten to the power of `n`.
pub open spec fn ten_pow(n: nat) -> nat
    decreases n,
{
    if n == 0 {
        1
    } else {
        10 * ten_pow((n - 1) as nat)
    }
}

/// Two to the power of `n`.
pub open spec fn two_pow(n: nat) -> nat
    decreases n,
{
    if n == 0 {
        1
    } else {
        2 * two_pow((n - 1) as nat)
    }
}

/// Powers of ten are positive.
pub proof fn lemma_ten_pow_positive(n: nat)
    ensures
        ten_pow(n) > 0,
    decreases n,
{
    if n > 0 {
        lemma_ten_pow_positive((n - 1) as nat);
    }
}

/// Powers of two are positive.
pub proof fn lemma_two_pow_positive(n: nat)
    ensures
        two_pow(n) > 0,
    decreases n,
{
    if n > 0 {
        lemma_two_pow_positive((n - 1) as nat);
    }
}

/// Exponents of ten add up.
pub proof fn lemma_ten_pow_adds(a: nat, b: nat)
    ensures
        ten_pow(a + b) == ten_pow(a) * ten_pow(b),
    decreases a,
{
    if a > 0 {
        lemma_ten_pow_adds((a - 1) as nat, b);
        let x = ten_pow((a - 1) as nat);
        let y = ten_pow(b);
        assert(10 * (x * y) == (10 * x) * y) by (nonlinear_arith);
        assert((a + b - 1) as nat == (a - 1) as nat + b);
        assert(ten_pow(a) == 10 * x);
    } else {
        let y = ten_pow(b);
        assert(ten_pow(0) * y == y) by (nonlinear_arith)
            requires
                ten_pow(0) == 1,
        ;
    }
}

/// Exponents of two add up.
pub proof fn lemma_two_pow_adds(a: nat, b: nat)
    ensures
        two_pow(a + b) == two_pow(a) * two_pow(b),
    decreases a,
{
    if a > 0 {
        lemma_two_pow_adds((a - 1) as nat, b);
        let x = two_pow((a - 1) as nat);
        let y = two_pow(b);
        assert(2 * (x * y) == (2 * x) * y) by (nonlinear_arith);
        assert((a + b - 1) as nat == (a - 1) as nat + b);
        assert(two_pow(a) == 2 * x);
    } else {
        let y = two_pow(b);
        assert(two_pow(0) * y == y) by (nonlinear_arith)
            requires
                two_pow(0) == 1,
        ;
    }
}

/// The digit at index `i`, where missing digits are zero.
pub open spec fn digit_at(d: Seq<u8>, i: int) -> nat {
    if 0 <= i < d.len() {
        d[i] as nat
    } else {
        0
    }
}

/// The number that the `n` lowest digits stand for, the lowest one first.
pub open spec fn low_value(d: Seq<u8>, n: nat) -> nat
    decreases n,
{
    if n == 0 {
        0
    } else {
        low_value(d, (n - 1) as nat) + digit_at(d, n - 1) * ten_pow((n - 1) as nat)
    }
}

/// The number that the digits stand for, the lowest one first.
pub open spec fn value(d: Seq<u8>) -> nat {
    low_value(d, d.len())
}

/// Whether every entry is a digit and the highest one is not zero.
pub open spec fn is_number(d: Seq<u8>) -> bool {
    &&& forall|i: int| 0 <= i < d.len() ==> (#[trigger] d[i]) < 10
    &&& d.len() > 0 ==> d[d.len() - 1] != 0
}

/// Digits above the given count do not matter.
pub proof fn lemma_low_value_agrees(a: Seq<u8>, b: Seq<u8>, n: nat)
    requires
        forall|i: int| 0 <= i < n ==> digit_at(a, i) == digit_at(b, i),
    ensures
        low_value(a, n) == low_value(b, n),
    decreases n,
{
    if n > 0 {
        lemma_low_value_agrees(a, b, (n - 1) as nat);
        assert(digit_at(a, n - 1) == digit_at(b, n - 1));
    }
}

/// Missing digits add nothing.
pub proof fn lemma_low_value_beyond(d: Seq<u8>, n: nat)
    requires
        n >= d.len(),
    ensures
        low_value(d, n) == value(d),
    decreases n,
{
    if n > d.len() {
        lemma_low_value_beyond(d, (n - 1) as nat);
        assert(digit_at(d, n - 1) == 0);
        assert(0 * ten_pow((n - 1) as nat) == 0) by (nonlinear_arith);
    }
}

/// `n` digits stay below ten to the power of `n`.
pub proof fn lemma_low_value_bound(d: Seq<u8>, n: nat)
    requires
        forall|i: int| 0 <= i < d.len() ==> (#[trigger] d[i]) < 10,
    ensures
        low_value(d, n) < ten_pow(n),
    decreases n,
{
    if n > 0 {
        lemma_low_value_bound(d, (n - 1) as nat);
        let p = ten_pow((n - 1) as nat);
        let x = digit_at(d, n - 1);
        assert(x <= 9);
        assert(x * p <= 9 * p) by (nonlinear_arith)
            requires
                x <= 9,
        ;
    }
}

/// A number is at least its highest digit at its place.
pub proof fn lemma_value_at_least(d: Seq<u8>)
    requires
        is_number(d),
        d.len() > 0,
    ensures
        value(d) >= ten_pow((d.len() - 1) as nat),
{
    let p = ten_pow((d.len() - 1) as nat);
    let x = digit_at(d, d.len() - 1);
    assert(x >= 1);
    assert(x * p >= p) by (nonlinear_arith)
        requires
            x >= 1,
    ;
}

/// Powers of ten grow.
pub proof fn lemma_ten_pow_monotonic(a: nat, b: nat)
    requires
        a <= b,
    ensures
        ten_pow(a) <= ten_pow(b),
    decreases b,
{
    if a < b {
        lemma_ten_pow_monotonic(a, (b - 1) as nat);
    }
}

/// Powers of two grow.
pub proof fn lemma_two_pow_monotonic(a: nat, b: nat)
    requires
        a <= b,
    ensures
        two_pow(a) <= two_pow(b),
    decreases b,
{
    if a < b {
        lemma_two_pow_monotonic(a, (b - 1) as nat);
    }
}

/// The first digit from above in which two numbers of equal length differ decides.
proof fn lemma_decided_at(a: Seq<u8>, b: Seq<u8>, i: int, n: nat)
    requires
        forall|j: int| 0 <= j < a.len() ==> (#[trigger] a[j]) < 10,
        0 <= i < n,
        digit_at(a, i) < digit_at(b, i),
        forall|j: int| i < j < n ==> digit_at(a, j) == digit_at(b, j),
    ensures
        low_value(a, n) < low_value(b, n),
    decreases n,
{
    let p = ten_pow((n - 1) as nat);
    if i == n - 1 {
        lemma_low_value_bound(a, (n - 1) as nat);
        let x = digit_at(a, i);
        let y = digit_at(b, i);
        assert(x * p + p <= y * p) by (nonlinear_arith)
            requires
                x < y,
        ;
    } else {
        lemma_decided_at(a, b, i, (n - 1) as nat);
        assert(digit_at(a, n - 1) == digit_at(b, n - 1));
    }
}

/// Cuts off zeros at the high end.
fn trim(d: &mut Vec<u8>)
    requires
        forall|i: int| 0 <= i < old(d)@.len() ==> (#[trigger] old(d)@[i]) < 10,
    ensures
        is_number(final(d)@),
        value(final(d)@) == value(old(d)@),
{
    while d.len() > 0 && d[d.len() - 1] == 0
        invariant
            forall|i: int| 0 <= i < d@.len() ==> (#[trigger] d@[i]) < 10,
            value(d@) == value(old(d)@),
        decreases d.len(),
    {
        let ghost before = d@;
        d.pop();
        proof {
            lemma_low_value_agrees(before, d@, d@.len());
            assert(0 * ten_pow(d@.len()) == 0) by (nonlinear_arith);
        }
    }
}

/// Twice the number.
pub fn double(d: &Vec<u8>) -> (out: Vec<u8>)
    requires
        is_number(d@),
    ensures
        is_number(out@),
        value(out@) == 2 * value(d@),
{
    let mut out: Vec<u8> = Vec::new();
    let mut carry: u8 = 0;
    for i in 0..d.len()
        invariant
            is_number(d@),
            carry <= 1,
            out@.len() == i,
            forall|j: int| 0 <= j < i ==> (#[trigger] out@[j]) < 10,
            2 * low_value(d@, i as nat) == low_value(out@, i as nat) + carry * ten_pow(i as nat),
    {
        let ghost before = out@;
        assert(d@[i as int] < 10);
        let sum: u8 = 2 * d[i] + carry;
        out.push(sum % 10);
        proof {
            let p = ten_pow(i as nat);
            let x = d@[i as int] as nat;
            let low = (sum % 10) as nat;
            let high = (sum / 10) as nat;
            lemma_low_value_agrees(before, out@, i as nat);
            assert(2 * (x * p) + carry * p == low * p + high * (10 * p)) by (nonlinear_arith)
                requires
                    2 * x + carry == low + 10 * high,
            ;
        }
        carry = sum / 10;
    }
    if carry > 0 {
        let ghost before = out@;
        out.push(carry);
        proof {
            lemma_low_value_agrees(before, out@, d@.len());
        }
    }
    trim(&mut out);
    out
}

/// The number doubled `n` times.
pub fn doubled(d: &Vec<u8>, n: usize) -> (out: Vec<u8>)
    requires
        is_number(d@),
    ensures
        is_number(out@),
        value(out@) == value(d@) * two_pow(n as nat),
{
    let mut out: Vec<u8> = d.clone();
    assert(out@ =~= d@);
    assert(value(d@) * two_pow(0) == value(d@)) by (nonlinear_arith)
        requires
            two_pow(0) == 1,
    ;
    for i in 0..n
        invariant
            is_number(out@),
            value(out@) == value(d@) * two_pow(i as nat),
    {
        out = double(&out);
        proof {
            let v = value(d@);
            let p = two_pow(i as nat);
            assert(2 * (v * p) == v * (2 * p)) by (nonlinear_arith);
        }
    }
    out
}

/// Whether the first number is smaller.
pub fn less(a: &Vec<u8>, b: &Vec<u8>) -> (out: bool)
    requires
        is_number(a@),
        is_number(b@),
    ensures
        out == (value(a@) < value(b@)),
{
    if a.len() < b.len() {
        proof {
            lemma_low_value_bound(a@, a@.len());
            lemma_value_at_least(b@);
            lemma_ten_pow_monotonic(a@.len(), (b@.len() - 1) as nat);
        }
        return true;
    }
    if a.len() > b.len() {
        proof {
            lemma_low_value_bound(b@, b@.len());
            lemma_value_at_least(a@);
            lemma_ten_pow_monotonic(b@.len(), (a@.len() - 1) as nat);
        }
        return false;
    }
    let mut i: usize = a.len();
    while i > 0
        invariant
            is_number(a@),
            is_number(b@),
            a@.len() == b@.len(),
            i <= a@.len(),
            forall|j: int| i <= j < a@.len() ==> a@[j] == b@[j],
        decreases i,
    {
        i -= 1;
        if a[i] < b[i] {
            proof {
                lemma_decided_at(a@, b@, i as int, a@.len());
            }
            return true;
        }
        if a[i] > b[i] {
            proof {
                lemma_decided_at(b@, a@, i as int, a@.len());
            }
            return false;
        }
    }
    assert(a@ =~= b@);
    false
}

/// The first number less the second one, which is not larger.
pub fn minus(a: &Vec<u8>, b: &Vec<u8>) -> (out: Vec<u8>)
    requires
        is_number(a@),
        is_number(b@),
        value(b@) <= value(a@),
    ensures
        is_number(out@),
        value(out@) == value(a@) - value(b@),
{
    proof {
        if b@.len() > a@.len() {
            lemma_low_value_bound(a@, a@.len());
            lemma_value_at_least(b@);
            lemma_ten_pow_monotonic(a@.len(), (b@.len() - 1) as nat);
        }
    }
    let mut out: Vec<u8> = Vec::new();
    let mut borrow: u8 = 0;
    for i in 0..a.len()
        invariant
            is_number(a@),
            is_number(b@),
            borrow <= 1,
            out@.len() == i,
            forall|j: int| 0 <= j < i ==> (#[trigger] out@[j]) < 10,
            low_value(a@, i as nat) + borrow * ten_pow(i as nat) == low_value(b@, i as nat)
                + low_value(out@, i as nat),
    {
        let ghost before = out@;
        let y: u8 = if i < b.len() {
            b[i]
        } else {
            0
        };
        assert(a@[i as int] < 10);
        assert(i < b@.len() ==> b@[i as int] < 10);
        let x: u8 = a[i];
        let need: u8 = y + borrow;
        let (digit, next): (u8, u8) = if x >= need {
            (x - need, 0)
        } else {
            (x + 10 - need, 1)
        };
        out.push(digit);
        proof {
            let p = ten_pow(i as nat);
            lemma_low_value_agrees(before, out@, i as nat);
            assert(digit_at(b@, i as int) == y);
            assert(x * p + next * (10 * p) == y * p + borrow * p + digit * p) by (nonlinear_arith)
                requires
                    x + 10 * next == y + borrow + digit,
            ;
        }
        borrow = next;
    }
    proof {
        lemma_low_value_beyond(b@, a@.len());
        lemma_low_value_bound(out@, a@.len());
        lemma_ten_pow_positive(a@.len());
        if borrow == 1 {
            assert(1 * ten_pow(a@.len()) == ten_pow(a@.len())) by (nonlinear_arith);
        } else {
            assert(0 * ten_pow(a@.len()) == 0) by (nonlinear_arith);
        }
    }
    trim(&mut out);
    out
}

/// The number times ten to the power of `n`.
pub fn shifted(d: &Vec<u8>, n: u128) -> (out: Vec<u8>)
    requires
        is_number(d@),
    ensures
        is_number(out@),
        value(out@) == value(d@) * ten_pow(n as nat),
{
    let mut out: Vec<u8> = Vec::new();
    let mut k: u128 = 0;
    while k < n
        invariant
            k <= n,
            out@.len() == k,
            forall|j: int| 0 <= j < k ==> out@[j] == 0,
            low_value(out@, k as nat) == 0,
        decreases n - k,
    {
        let ghost before = out@;
        out.push(0);
        proof {
            lemma_low_value_agrees(before, out@, k as nat);
            assert(0 * ten_pow(k as nat) == 0) by (nonlinear_arith);
        }
        k += 1;
    }
    assert(0 * ten_pow(n as nat) == 0) by (nonlinear_arith);
    for i in 0..d.len()
        invariant
            is_number(d@),
            out@.len() == n + i,
            forall|j: int| 0 <= j < n + i ==> (#[trigger] out@[j]) < 10,
            low_value(out@, (n + i) as nat) == low_value(d@, i as nat) * ten_pow(n as nat),
    {
        let ghost before = out@;
        assert(d@[i as int] < 10);
        out.push(d[i]);
        proof {
            lemma_low_value_agrees(before, out@, (n + i) as nat);
            lemma_ten_pow_adds(i as nat, n as nat);
            let x = d@[i as int] as nat;
            let p = ten_pow(i as nat);
            let q = ten_pow(n as nat);
            let low = low_value(d@, i as nat);
            assert((low + x * p) * q == low * q + x * (p * q)) by (nonlinear_arith);
        }
    }
    trim(&mut out);
    out
}

/// A digit in front is worth its place.
proof fn lemma_digits_value_front(c: char, t: Seq<char>)
    requires
        decimal::all_digits(t),
        decimal::is_digit(c),
    ensures
        decimal::digits_value(seq![c] + t) == decimal::digit_value(c) * ten_pow(t.len())
            + decimal::digits_value(t),
    decreases t.len(),
{
    let s = seq![c] + t;
    if t.len() == 0 {
        assert(s.drop_last() =~= seq![]);
        reveal_with_fuel(decimal::digits_value, 2);
        let v = decimal::digit_value(c);
        assert(v * ten_pow(0) == v) by (nonlinear_arith)
            requires
                ten_pow(0) == 1,
        ;
    } else {
        assert(s.drop_last() =~= seq![c] + t.drop_last());
        assert forall|i: int| 0 <= i < t.drop_last().len() implies decimal::is_digit(
            #[trigger] t.drop_last()[i],
        ) by {
            assert(decimal::is_digit(t[i]));
        }
        lemma_digits_value_front(c, t.drop_last());
        assert(decimal::is_digit(t[t.len() - 1]));
        let v = decimal::digit_value(c);
        let p = ten_pow((t.len() - 1) as nat);
        assert((v * p) * 10 == v * (10 * p)) by (nonlinear_arith);
    }
}

/// The number that decimal digits, the highest one first, stand for.
pub fn from_digits(s: &Vec<char>) -> (out: Vec<u8>)
    requires
        decimal::all_digits(s@),
    ensures
        is_number(out@),
        value(out@) == decimal::digits_value(s@),
{
    let mut out: Vec<u8> = Vec::new();
    let mut i: usize = s.len();
    while i > 0
        invariant
            decimal::all_digits(s@),
            i <= s@.len(),
            out@.len() == s@.len() - i,
            forall|j: int| 0 <= j < out@.len() ==> (#[trigger] out@[j]) < 10,
            value(out@) == decimal::digits_value(s@.skip(i as int)),
        decreases i,
    {
        i -= 1;
        let c = s[i];
        let ghost before = out@;
        let ghost tail = s@.skip(i + 1);
        assert(decimal::is_digit(s@[i as int]));
        out.push(digit_number(c));
        proof {
            lemma_low_value_agrees(before, out@, before.len());
            assert forall|j: int| 0 <= j < tail.len() implies decimal::is_digit(
                #[trigger] tail[j],
            ) by {
                assert(decimal::is_digit(s@[i + 1 + j]));
            }
            lemma_digits_value_front(c, tail);
            assert(s@.skip(i as int) =~= seq![c] + tail);
        }
    }
    assert(s@.skip(0) =~= s@);
    trim(&mut out);
    out
}

fn digit_number(c: char) -> (d: u8)
    requires
        decimal::is_digit(c),
    ensures
        d < 10,
        d == decimal::digit_value(c),
{
    (c as u8) - 48
}

/// The lowest digit, and the others one place lower.
proof fn lemma_low_value_split(d: Seq<u8>, n: nat)
    requires
        n > 0,
        d.len() > 0,
    ensures
        low_value(d, n) == d[0] + 10 * low_value(d.drop_first(), (n - 1) as nat),
    decreases n,
{
    let rest = d.drop_first();
    if n == 1 {
        reveal_with_fuel(low_value, 2);
        reveal_with_fuel(ten_pow, 2);
    } else {
        lemma_low_value_split(d, (n - 1) as nat);
        assert(digit_at(d, n - 1) == digit_at(rest, n - 2));
        let x = digit_at(d, n - 1);
        let p = ten_pow((n - 2) as nat);
        assert(x * (10 * p) == 10 * (x * p)) by (nonlinear_arith);
    }
}

/// The digits read from the highest one down.
pub open spec fn text_of(d: Seq<u8>) -> Seq<char>
    decreases d.len(),
{
    if d.len() == 0 {
        seq![]
    } else {
        text_of(d.drop_first()).push(decimal::digit_char(d[0] as int))
    }
}

/// The digits of a number, read from the highest one down, are its decimal form.
proof fn lemma_text_is_decimal(d: Seq<u8>)
    requires
        is_number(d),
        d.len() > 0,
    ensures
        text_of(d) == decimal::decimal(value(d)),
    decreases d.len(),
{
    let rest = d.drop_first();
    lemma_low_value_split(d, d.len());
    assert(d[0] < 10);
    if d.len() == 1 {
        assert(low_value(rest, 0) == 0);
        assert(text_of(rest) =~= seq![]);
        assert(text_of(d) =~= decimal::decimal(value(d)));
    } else {
        assert forall|i: int| 0 <= i < rest.len() implies (#[trigger] rest[i]) < 10 by {
            assert(d[i + 1] < 10);
        }
        assert(is_number(rest));
        lemma_text_is_decimal(rest);
        lemma_value_at_least(rest);
        lemma_ten_pow_positive((rest.len() - 1) as nat);
    }
}

/// The decimal form of the number.
pub fn to_text(d: &Vec<u8>) -> (out: String)
    requires
        is_number(d@),
    ensures
        out@ == decimal::decimal(value(d@)),
{
    let mut out = String::new();
    if d.len() == 0 {
        out.push('0');
        assert(out@ =~= decimal::decimal(0));
        return out;
    }
    let mut i: usize = d.len();
    assert(text_of(d@.skip(i as int)) =~= out@);
    while i > 0
        invariant
            is_number(d@),
            i <= d@.len(),
            out@ == text_of(d@.skip(i as int)),
        decreases i,
    {
        i -= 1;
        assert(d@.skip(i as int).drop_first() =~= d@.skip(i + 1));
        assert(d@[i as int] < 10);
        out.push((48u8 + d[i]) as char);
    }
    proof {
        assert(d@.skip(0) =~= d@);
        lemma_text_is_decimal(d@);
    }
    out
}

} // verus!
