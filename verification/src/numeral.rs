//! Decimal numerals with an optional fraction and exponent, as JSON writes its numbers.

use crate::decimal;
use crate::decimal::is_decimal_digit;
use vstd::prelude::*;

verus! {

/// A numeral read: the value is the number that `digits` stands for, times ten to the
/// power of `exponent`, negated where `negative` holds.
pub struct Numeral {
    pub negative: bool,
    pub digits: Seq<char>,
    pub exponent: int,
}

/// How many digits the text begins with.
pub open spec fn digit_run(s: Seq<char>) -> nat
    decreases s.len(),
{
    if s.len() > 0 && decimal::is_digit(s[0]) {
        1 + digit_run(s.drop_first())
    } else {
        0
    }
}

/// The digits behind a decimal point, where the text begins with one.
pub open spec fn fraction_digits(s: Seq<char>) -> Seq<char> {
    if s.len() > 0 && s[0] == '.' {
        s.drop_first().take(digit_run(s.drop_first()) as int)
    } else {
        seq![]
    }
}

/// What follows a decimal point and its digits, where the text begins with one.
pub open spec fn behind_fraction(s: Seq<char>) -> Seq<char> {
    if s.len() > 0 && s[0] == '.' {
        s.drop_first().skip(digit_run(s.drop_first()) as int)
    } else {
        s
    }
}

/// The exponent that the text states, nothing standing for zero.
pub open spec fn stated_exponent(s: Seq<char>) -> Option<int> {
    if s.len() == 0 {
        Some(0)
    } else if s[0] == 'e' || s[0] == 'E' {
        decimal::integer_value(s.drop_first())
    } else {
        None
    }
}

/// Reads a numeral: an optional sign, digits with at most one decimal point among them and
/// at least one digit, and an optional exponent.
pub open spec fn numeral(s: Seq<char>) -> Option<Numeral> {
    let unsigned = decimal::unsigned_part(s);
    let whole = unsigned.take(digit_run(unsigned) as int);
    let behind_whole = unsigned.skip(digit_run(unsigned) as int);
    let fraction = fraction_digits(behind_whole);
    let digits = whole + fraction;
    match stated_exponent(behind_fraction(behind_whole)) {
        Some(e) if digits.len() > 0 => Some(
            Numeral {
                negative: s[0] == '-',
                digits,
                exponent: e - fraction.len(),
            },
        ),
        _ => None,
    }
}

/// The run of digits is made of digits and is not followed by one.
pub proof fn lemma_digit_run(s: Seq<char>)
    ensures
        digit_run(s) <= s.len(),
        decimal::all_digits(s.take(digit_run(s) as int)),
        digit_run(s) < s.len() ==> !decimal::is_digit(s[digit_run(s) as int]),
    decreases s.len(),
{
    if s.len() > 0 && decimal::is_digit(s[0]) {
        let rest = s.drop_first();
        lemma_digit_run(rest);
        let n = digit_run(s) as int;
        assert forall|i: int| 0 <= i < n implies decimal::is_digit(#[trigger] s.take(n)[i]) by {
            if i > 0 {
                assert(rest.take(n - 1)[i - 1] == s[i]);
            }
        }
    }
}

/// Digits that no digit follows are the run of digits.
pub proof fn lemma_digit_run_is(s: Seq<char>, n: int)
    requires
        0 <= n <= s.len(),
        forall|i: int| 0 <= i < n ==> decimal::is_digit(#[trigger] s[i]),
        n < s.len() ==> !decimal::is_digit(s[n]),
    ensures
        digit_run(s) == n,
    decreases s.len(),
{
    if n > 0 {
        assert(decimal::is_digit(s[0]));
        assert forall|i: int| 0 <= i < n - 1 implies decimal::is_digit(
            #[trigger] s.drop_first()[i],
        ) by {
            assert(decimal::is_digit(s[i + 1]));
        }
        lemma_digit_run_is(s.drop_first(), n - 1);
    }
}

/// Where the parts of a numeral lie in its text.
pub struct Parts {
    /// Whether a minus sign stands in front.
    pub negative: bool,
    /// The digits before the decimal point.
    pub whole: (usize, usize),
    /// The digits behind the decimal point.
    pub fraction: (usize, usize),
    /// The exponent with its sign; empty where none is stated.
    pub exponent: (usize, usize),
}

impl Parts {
    /// Whether the parts are those of the numeral that the text holds.
    pub open spec fn describe(self, s: Seq<char>) -> bool {
        &&& self.whole.0 <= self.whole.1 <= s.len()
        &&& self.fraction.0 <= self.fraction.1 <= s.len()
        &&& self.exponent.0 <= self.exponent.1 <= s.len()
        &&& numeral(s) matches Some(n)
        &&& n.negative == self.negative
        &&& n.digits == s.subrange(self.whole.0 as int, self.whole.1 as int) + s.subrange(
            self.fraction.0 as int,
            self.fraction.1 as int,
        )
        &&& decimal::all_digits(n.digits)
        &&& n.exponent == (if self.exponent.0 == self.exponent.1 {
            0
        } else {
            decimal::integer_value(s.subrange(self.exponent.0 as int, self.exponent.1 as int))->0
        }) - (self.fraction.1 - self.fraction.0)
        &&& self.exponent.0 < self.exponent.1 ==> decimal::integer_value(
            s.subrange(self.exponent.0 as int, self.exponent.1 as int),
        ) is Some
    }
}

/// Where the run of digits from `from` on ends.
fn digits_end(s: &[char], from: usize) -> (end: usize)
    requires
        from <= s@.len(),
    ensures
        from <= end <= s@.len(),
        end - from == digit_run(s@.skip(from as int)),
        decimal::all_digits(s@.subrange(from as int, end as int)),
{
    let mut i: usize = from;
    while i < s.len() && is_decimal_digit(s[i])
        invariant
            from <= i <= s@.len(),
            forall|j: int| from <= j < i ==> decimal::is_digit(#[trigger] s@[j]),
        decreases s.len() - i,
    {
        i += 1;
    }
    proof {
        let rest = s@.skip(from as int);
        assert forall|j: int| 0 <= j < i - from implies decimal::is_digit(#[trigger] rest[j]) by {
            assert(decimal::is_digit(s@[from + j]));
        }
        lemma_digit_run_is(rest, i - from);
    }
    i
}

/// Finds the parts of a numeral; none where the text is no numeral.
pub fn parts_of(s: &[char]) -> (parts: Option<Parts>)
    ensures
        match parts {
            Some(p) => p.describe(s@),
            None => numeral(s@) is None,
        },
{
    let mut start: usize = 0;
    let mut negative = false;
    if s.len() > 0 && (s[0] == '+' || s[0] == '-') {
        negative = s[0] == '-';
        start = 1;
    }
    let ghost unsigned = decimal::unsigned_part(s@);
    assert(unsigned =~= s@.skip(start as int));
    let whole_end = digits_end(s, start);
    let ghost behind_whole = unsigned.skip(digit_run(unsigned) as int);
    assert(behind_whole =~= s@.skip(whole_end as int));
    assert(unsigned.take(digit_run(unsigned) as int) =~= s@.subrange(
        start as int,
        whole_end as int,
    ));
    let (fraction_start, fraction_end) = fraction_span(s, whole_end);
    let ghost whole = s@.subrange(start as int, whole_end as int);
    let ghost fraction = s@.subrange(fraction_start as int, fraction_end as int);
    proof {
        assert forall|i: int| 0 <= i < (whole + fraction).len() implies decimal::is_digit(
            #[trigger] (whole + fraction)[i],
        ) by {
            if i < whole.len() {
                assert(decimal::is_digit(whole[i]));
            } else {
                assert(decimal::is_digit(fraction[i - whole.len()]));
            }
        }
    }
    if start == whole_end && fraction_start == fraction_end {
        return None;
    }
    match exponent_span(s, fraction_end) {
        None => None,
        Some(exponent) => Some(
            Parts {
                negative,
                whole: (start, whole_end),
                fraction: (fraction_start, fraction_end),
                exponent,
            },
        ),
    }
}

/// Where the digits lie behind a decimal point that the text from `from` on begins with.
fn fraction_span(s: &[char], from: usize) -> (span: (usize, usize))
    requires
        from <= s@.len(),
    ensures
        span.0 <= span.1 <= s@.len(),
        fraction_digits(s@.skip(from as int)) == s@.subrange(span.0 as int, span.1 as int),
        behind_fraction(s@.skip(from as int)) == s@.skip(span.1 as int),
        decimal::all_digits(s@.subrange(span.0 as int, span.1 as int)),
{
    let ghost text = s@.skip(from as int);
    if from < s.len() && s[from] == '.' {
        let begin: usize = from + 1;
        let end = digits_end(s, begin);
        assert(text.drop_first() =~= s@.skip(begin as int));
        assert(fraction_digits(text) =~= s@.subrange(begin as int, end as int));
        assert(behind_fraction(text) =~= s@.skip(end as int));
        (begin, end)
    } else {
        assert(fraction_digits(text) =~= s@.subrange(from as int, from as int));
        (from, from)
    }
}

/// Where the exponent lies that the text from `from` on states; none where it states none
/// and is not empty either.
fn exponent_span(s: &[char], from: usize) -> (span: Option<(usize, usize)>)
    requires
        from <= s@.len(),
    ensures
        match span {
            Some(x) => {
                &&& x.0 <= x.1 <= s@.len()
                &&& x.0 == x.1 ==> stated_exponent(s@.skip(from as int)) == Some(0int)
                &&& x.0 < x.1 ==> stated_exponent(s@.skip(from as int))
                    == decimal::integer_value(s@.subrange(x.0 as int, x.1 as int))
                &&& stated_exponent(s@.skip(from as int)) is Some
            },
            None => stated_exponent(s@.skip(from as int)) is None,
        },
{
    if from == s.len() {
        return Some((from, from));
    }
    if s[from] != 'e' && s[from] != 'E' {
        return None;
    }
    let begin: usize = from + 1;
    let mut first: usize = begin;
    if first < s.len() && (s[first] == '+' || s[first] == '-') {
        first += 1;
    }
    let ghost stated = s@.subrange(begin as int, s@.len() as int);
    assert(s@.skip(from as int).drop_first() =~= stated);
    assert(decimal::unsigned_part(stated) =~= s@.skip(first as int));
    let end = digits_end(s, first);
    if first == s.len() {
        return None;
    }
    if end < s.len() {
        proof {
            lemma_digit_run(s@.skip(first as int));
            assert(!decimal::is_digit(s@.skip(first as int)[end - first]));
        }
        return None;
    }
    assert(s@.skip(first as int) =~= s@.subrange(first as int, end as int));
    Some((begin, s.len()))
}

} // verus!
