//! Text as sequences of characters: comparison, searching, trimming and splitting.

use vstd::prelude::*;

verus! {

/// `String::push`: appends one character to the end of the string.
pub assume_specification[ std::string::String::push ](s: &mut std::string::String, ch: char)
    ensures
        final(s)@ == old(s)@.push(ch),
;

/// The characters of a string, in order.
pub fn chars_of(s: &str) -> (out: Vec<char>)
    ensures
        out@ == s@,
{
    let mut out: Vec<char> = Vec::new();
    for c in it: s.chars()
        invariant
            out@ == s@.take(it.index()),
            it.seq() == s@,
    {
        out.push(c);
    }
    assert(s@.take(s@.len() as int) == s@);
    out
}

/// The string that holds the characters from `lo` up to, and without, `hi`.
pub fn string_of_range(chars: &[char], lo: usize, hi: usize) -> (out: String)
    requires
        lo <= hi <= chars@.len(),
    ensures
        out@ == chars@.subrange(lo as int, hi as int),
{
    let mut out = String::new();
    for i in lo..hi
        invariant
            hi <= chars@.len(),
            out@ == chars@.subrange(lo as int, i as int),
    {
        out.push(chars[i]);
    }
    out
}

/// A copy of a string slice.
pub fn owned(s: &str) -> (out: String)
    ensures
        out@ == s@,
{
    s.to_owned()
}

// ---------------------------------------------------------------------------
// Equality and order
// ---------------------------------------------------------------------------

/// Whether two strings hold the same characters.
pub fn same_text(a: &str, b: &str) -> (same: bool)
    ensures
        same == (a@ == b@),
{
    let x = chars_of(a);
    let y = chars_of(b);
    same_chars(&x, &y)
}

/// Whether two character slices hold the same characters.
pub fn same_chars(x: &[char], y: &[char]) -> (same: bool)
    ensures
        same == (x@ == y@),
{
    if x.len() != y.len() {
        return false;
    }
    for i in 0..x.len()
        invariant
            x.len() == y.len(),
            forall|j: int| 0 <= j < i ==> x@[j] == y@[j],
    {
        if x[i] != y[i] {
            return false;
        }
    }
    assert(x@ =~= y@);
    true
}

/// Lexicographic order by code point, which is also the order of the UTF-8 bytes.
pub open spec fn text_lt(a: Seq<char>, b: Seq<char>) -> bool
    decreases a.len(),
{
    if b.len() == 0 {
        false
    } else if a.len() == 0 {
        true
    } else if a[0] != b[0] {
        a[0] < b[0]
    } else {
        text_lt(a.drop_first(), b.drop_first())
    }
}

/// Whether `a` comes strictly before `b` in the order of [`text_lt`].
pub fn text_less(a: &str, b: &str) -> (less: bool)
    ensures
        less == text_lt(a@, b@),
{
    let x = chars_of(a);
    let y = chars_of(b);
    let mut i: usize = 0;
    assert(x@.skip(0) =~= x@);
    assert(y@.skip(0) =~= y@);
    while i < x.len() && i < y.len()
        invariant
            x@ == a@,
            y@ == b@,
            i <= x.len(),
            i <= y.len(),
            text_lt(x@.skip(i as int), y@.skip(i as int)) == text_lt(x@, y@),
        decreases x.len() - i,
    {
        if x[i] != y[i] {
            return x[i] < y[i];
        }
        assert(x@.skip(i as int).drop_first() =~= x@.skip(i + 1));
        assert(y@.skip(i as int).drop_first() =~= y@.skip(i + 1));
        i += 1;
    }
    i < y.len()
}

/// No text comes before itself.
pub proof fn lemma_text_lt_irreflexive(a: Seq<char>)
    ensures
        !text_lt(a, a),
    decreases a.len(),
{
    if a.len() > 0 {
        lemma_text_lt_irreflexive(a.drop_first());
    }
}

/// The order of texts is transitive.
pub proof fn lemma_text_lt_transitive(a: Seq<char>, b: Seq<char>, c: Seq<char>)
    requires
        text_lt(a, b),
        text_lt(b, c),
    ensures
        text_lt(a, c),
    decreases a.len(),
{
    if a.len() > 0 && a[0] == b[0] && b[0] == c[0] {
        lemma_text_lt_transitive(a.drop_first(), b.drop_first(), c.drop_first());
    }
}

/// Of two different texts one comes before the other.
pub proof fn lemma_text_lt_total(a: Seq<char>, b: Seq<char>)
    ensures
        a == b || text_lt(a, b) || text_lt(b, a),
    decreases a.len(),
{
    if a.len() > 0 && b.len() > 0 && a[0] == b[0] {
        lemma_text_lt_total(a.drop_first(), b.drop_first());
        if a.drop_first() == b.drop_first() {
            assert(a =~= seq![a[0]] + a.drop_first());
            assert(b =~= seq![b[0]] + b.drop_first());
        }
    } else if a.len() == 0 && b.len() == 0 {
        assert(a =~= b);
    }
}

/// Two texts never come before each other.
pub proof fn lemma_text_lt_asymmetric(a: Seq<char>, b: Seq<char>)
    requires
        text_lt(a, b),
    ensures
        !text_lt(b, a),
        a != b,
{
    if text_lt(b, a) {
        lemma_text_lt_transitive(a, b, a);
    }
    lemma_text_lt_irreflexive(a);
}

/// Texts of equal length decide the order of what begins with them.
pub proof fn lemma_text_lt_front(p: Seq<char>, q: Seq<char>, x: Seq<char>, y: Seq<char>)
    requires
        p.len() == q.len(),
        text_lt(p, q),
    ensures
        text_lt(p + x, q + y),
    decreases p.len(),
{
    assert((p + x)[0] == p[0] && (q + y)[0] == q[0]);
    if p[0] == q[0] {
        assert((p + x).drop_first() =~= p.drop_first() + x);
        assert((q + y).drop_first() =~= q.drop_first() + y);
        lemma_text_lt_front(p.drop_first(), q.drop_first(), x, y);
    }
}

/// Behind a common beginning the rest decides.
pub proof fn lemma_text_lt_common(p: Seq<char>, x: Seq<char>, y: Seq<char>)
    ensures
        text_lt(p + x, p + y) == text_lt(x, y),
    decreases p.len(),
{
    if p.len() == 0 {
        assert(p + x =~= x);
        assert(p + y =~= y);
    } else {
        assert((p + x)[0] == p[0] && (p + y)[0] == p[0]);
        assert((p + x).drop_first() =~= p.drop_first() + x);
        assert((p + y).drop_first() =~= p.drop_first() + y);
        lemma_text_lt_common(p.drop_first(), x, y);
    }
}

/// The lower case of an ASCII letter, and any other character itself.
pub open spec fn ascii_lower(c: char) -> char {
    if 'A' <= c <= 'Z' {
        (c as u32 + 32) as char
    } else {
        c
    }
}

/// Whether a text has only ASCII characters.
pub open spec fn all_ascii(s: Seq<char>) -> bool {
    forall|i: int| 0 <= i < s.len() ==> #[trigger] s[i] <= '\u{7f}'
}

/// The text with its ASCII letters in lower case.
pub open spec fn ascii_lowered(s: Seq<char>) -> Seq<char> {
    s.map_values(|c: char| ascii_lower(c))
}

/// Whether two texts differ at most in the case of ASCII letters.
pub open spec fn same_ignoring_ascii_case(a: Seq<char>, b: Seq<char>) -> bool {
    ascii_lowered(a) == ascii_lowered(b)
}

fn lower_ascii(c: char) -> (out: char)
    ensures
        out == ascii_lower(c),
{
    if 'A' <= c && c <= 'Z' {
        ((c as u8) + 32u8) as char
    } else {
        c
    }
}

/// Whether two strings are equal up to the case of ASCII letters.
pub fn eq_ignore_ascii_case(a: &str, b: &str) -> (same: bool)
    ensures
        same == same_ignoring_ascii_case(a@, b@),
{
    let x = chars_of(a);
    let y = chars_of(b);
    let ghost lx = ascii_lowered(a@);
    let ghost ly = ascii_lowered(b@);
    if x.len() != y.len() {
        assert(lx.len() != ly.len());
        return false;
    }
    for i in 0..x.len()
        invariant
            x@ == a@,
            y@ == b@,
            x.len() == y.len(),
            lx == ascii_lowered(a@),
            ly == ascii_lowered(b@),
            forall|j: int| 0 <= j < i ==> lx[j] == ly[j],
    {
        if lower_ascii(x[i]) != lower_ascii(y[i]) {
            assert(lx[i as int] != ly[i as int]);
            return false;
        }
    }
    assert(lx =~= ly);
    true
}

// ---------------------------------------------------------------------------
// Searching
// ---------------------------------------------------------------------------

/// The index of the first `c` in `s`, or the length of `s` where there is none.
pub open spec fn first_index(s: Seq<char>, c: char) -> int
    decreases s.len(),
{
    if s.len() == 0 || s[0] == c {
        0
    } else {
        1 + first_index(s.drop_first(), c)
    }
}

/// An index at which `c` stands, with no `c` before it, is the first index.
pub proof fn lemma_first_index(s: Seq<char>, c: char, i: int)
    requires
        0 <= i <= s.len(),
        forall|j: int| 0 <= j < i ==> s[j] != c,
        i < s.len() ==> s[i] == c,
    ensures
        first_index(s, c) == i,
    decreases s.len(),
{
    if i > 0 {
        assert forall|j: int| 0 <= j < i - 1 implies s.drop_first()[j] != c by {
            assert(s[j + 1] != c);
        }
        lemma_first_index(s.drop_first(), c, i - 1);
    }
}

/// What stands at and before the first index.
pub proof fn lemma_first_index_is_first(s: Seq<char>, c: char)
    ensures
        0 <= first_index(s, c) <= s.len(),
        forall|j: int| 0 <= j < first_index(s, c) ==> s[j] != c,
        first_index(s, c) < s.len() ==> s[first_index(s, c)] == c,
    decreases s.len(),
{
    if s.len() > 0 && s[0] != c {
        let rest = s.drop_first();
        lemma_first_index_is_first(rest, c);
        assert forall|j: int| 0 <= j < first_index(s, c) implies s[j] != c by {
            if j > 0 {
                assert(rest[j - 1] != c);
            }
        }
    }
}

/// The first index of `c` at or after `from`, counted from the start, or the length.
pub fn find_char(chars: &[char], from: usize, c: char) -> (at: usize)
    requires
        from <= chars@.len(),
    ensures
        from <= at <= chars@.len(),
        at - from == first_index(chars@.skip(from as int), c),
{
    let mut i: usize = from;
    let ghost rest = chars@.skip(from as int);
    while i < chars.len() && chars[i] != c
        invariant
            from <= i <= chars@.len(),
            rest == chars@.skip(from as int),
            forall|j: int| 0 <= j < i - from ==> rest[j] != c,
        decreases chars.len() - i,
    {
        i += 1;
    }
    proof {
        lemma_first_index(rest, c, i - from);
    }
    i
}

/// Whether the string holds the character.
pub fn contains_char(s: &str, c: char) -> (found: bool)
    ensures
        found == s@.contains(c),
{
    let chars = chars_of(s);
    for i in 0..chars.len()
        invariant
            chars@ == s@,
            forall|j: int| 0 <= j < i ==> s@[j] != c,
    {
        if chars[i] == c {
            assert(s@[i as int] == c);
            return true;
        }
    }
    false
}

/// Whether `needle` stands in `hay` from index `at` on.
pub open spec fn stands_at(hay: Seq<char>, needle: Seq<char>, at: int) -> bool {
    &&& 0 <= at
    &&& at + needle.len() <= hay.len()
    &&& hay.subrange(at, at + needle.len()) == needle
}

/// Whether `needle` occurs in `hay`.
pub open spec fn has_text(hay: Seq<char>, needle: Seq<char>) -> bool {
    exists|at: int| stands_at(hay, needle, at)
}

/// Whether `needle` stands in `hay` from index `at` on.
pub fn matches_at(hay: &[char], needle: &[char], at: usize) -> (found: bool)
    ensures
        found == stands_at(hay@, needle@, at as int),
{
    if at > hay.len() || needle.len() > hay.len() - at {
        return false;
    }
    for i in 0..needle.len()
        invariant
            at + needle.len() <= hay.len(),
            forall|j: int| 0 <= j < i ==> hay@[at + j] == needle@[j],
    {
        if hay[at + i] != needle[i] {
            assert(hay@.subrange(at as int, at + needle@.len())[i as int] != needle@[i as int]);
            return false;
        }
    }
    assert(hay@.subrange(at as int, at + needle@.len()) =~= needle@);
    true
}

/// Whether `needle` occurs in `hay`.
pub fn contains_text(hay: &str, needle: &str) -> (found: bool)
    ensures
        found == has_text(hay@, needle@),
{
    let h = chars_of(hay);
    let n = chars_of(needle);
    if n.len() > h.len() {
        return false;
    }
    let last: usize = h.len() - n.len();
    let mut at: usize = 0;
    loop
        invariant
            h@ == hay@,
            n@ == needle@,
            last == h.len() - n.len(),
            at <= last,
            forall|j: int| 0 <= j < at ==> !stands_at(hay@, needle@, j),
        decreases last - at,
    {
        if matches_at(&h, &n, at) {
            return true;
        }
        if at == last {
            return false;
        }
        at += 1;
    }
}

/// Whether `s` begins with `prefix`.
pub fn starts_with(s: &str, prefix: &str) -> (found: bool)
    ensures
        found == prefix@.is_prefix_of(s@),
{
    let x = chars_of(s);
    let p = chars_of(prefix);
    matches_at(&x, &p, 0)
}

/// What follows `prefix`, where `s` begins with it.
pub fn strip_prefix(s: &str, prefix: &str) -> (rest: Option<String>)
    ensures
        match rest {
            Some(r) => prefix@.is_prefix_of(s@) && s@ == prefix@ + r@,
            None => !prefix@.is_prefix_of(s@),
        },
{
    let x = chars_of(s);
    let p = chars_of(prefix);
    if matches_at(&x, &p, 0) {
        assert(s@ =~= prefix@ + s@.subrange(prefix@.len() as int, s@.len() as int));
        Some(string_of_range(&x, p.len(), x.len()))
    } else {
        None
    }
}

// ---------------------------------------------------------------------------
// Trimming and splitting
// ---------------------------------------------------------------------------

/// The characters with the Unicode property White_Space.
pub open spec fn is_space(c: char) -> bool {
    let n = c as u32;
    ||| 0x09 <= n <= 0x0d
    ||| n == 0x20
    ||| n == 0x85
    ||| n == 0xa0
    ||| n == 0x1680
    ||| 0x2000 <= n <= 0x200a
    ||| n == 0x2028
    ||| n == 0x2029
    ||| n == 0x202f
    ||| n == 0x205f
    ||| n == 0x3000
}

/// A class of characters that can be trimmed off a text.
#[derive(Clone, Copy)]
pub enum Class {
    /// White space.
    Space,
    /// One character.
    Only(char),
}

impl Class {
    /// Whether the class holds the character.
    pub open spec fn holds(self, c: char) -> bool {
        match self {
            Class::Space => is_space(c),
            Class::Only(x) => c == x,
        }
    }

    /// Whether the class holds the character.
    pub fn has(self, c: char) -> (found: bool)
        ensures
            found == self.holds(c),
    {
        match self {
            Class::Space => {
                let n: u32 = c as u32;
                (0x09 <= n && n <= 0x0d) || n == 0x20 || n == 0x85 || n == 0xa0 || n == 0x1680 || (
                0x2000 <= n && n <= 0x200a) || n == 0x2028 || n == 0x2029 || n == 0x202f || n
                    == 0x205f || n == 0x3000
            },
            Class::Only(x) => c == x,
        }
    }
}

/// The text without the leading characters of the class.
pub open spec fn trim_front(s: Seq<char>, class: Class) -> Seq<char>
    decreases s.len(),
{
    if s.len() > 0 && class.holds(s[0]) {
        trim_front(s.drop_first(), class)
    } else {
        s
    }
}

/// The text without the trailing characters of the class.
pub open spec fn trim_back(s: Seq<char>, class: Class) -> Seq<char>
    decreases s.len(),
{
    if s.len() > 0 && class.holds(s.last()) {
        trim_back(s.drop_last(), class)
    } else {
        s
    }
}

/// The text without the leading and trailing characters of the class.
pub open spec fn trim_both(s: Seq<char>, class: Class) -> Seq<char> {
    trim_back(trim_front(s, class), class)
}

/// The text without white space at its ends.
pub open spec fn trimmed(s: Seq<char>) -> Seq<char> {
    trim_both(s, Class::Space)
}

/// The text without the trailing characters of the class.
pub fn trim_end_matches(s: &str, class: Class) -> (out: String)
    ensures
        out@ == trim_back(s@, class),
{
    let chars = chars_of(s);
    let hi = back_bound(&chars, 0, class);
    proof {
        assert(chars@.skip(0) =~= chars@);
        assert(chars@.subrange(0, hi as int) =~= chars@.take(hi as int));
    }
    string_of_range(&chars, 0, hi)
}

/// The text without the leading and trailing characters of the class.
pub fn trim_matches(s: &str, class: Class) -> (out: String)
    ensures
        out@ == trim_both(s@, class),
{
    let chars = chars_of(s);
    let mut lo: usize = 0;
    assert(chars@.skip(0) =~= chars@);
    while lo < chars.len() && class.has(chars[lo])
        invariant
            chars@ == s@,
            lo <= chars@.len(),
            trim_front(chars@.skip(lo as int), class) == trim_front(s@, class),
        decreases chars.len() - lo,
    {
        assert(chars@.skip(lo as int).drop_first() =~= chars@.skip(lo + 1));
        lo += 1;
    }
    let hi = back_bound(&chars, lo, class);
    assert(chars@.skip(lo as int).take(hi - lo) =~= chars@.subrange(lo as int, hi as int));
    string_of_range(&chars, lo, hi)
}

/// Where the text from `lo` on ends once its trailing characters of the class are cut off.
fn back_bound(chars: &[char], lo: usize, class: Class) -> (hi: usize)
    requires
        lo <= chars@.len(),
    ensures
        lo <= hi <= chars@.len(),
        trim_back(chars@.skip(lo as int), class) == chars@.skip(lo as int).take(hi - lo),
{
    let mut hi: usize = chars.len();
    let ghost rest = chars@.skip(lo as int);
    assert(rest.take(hi - lo) =~= rest);
    while hi > lo && class.has(chars[hi - 1])
        invariant
            lo <= hi <= chars@.len(),
            rest == chars@.skip(lo as int),
            trim_back(rest.take(hi - lo), class) == trim_back(rest, class),
        decreases hi,
    {
        assert(rest.take(hi - lo).drop_last() =~= rest.take(hi - 1 - lo));
        hi -= 1;
    }
    hi
}

/// The text without white space at its ends.
pub fn trim(s: &str) -> (out: String)
    ensures
        out@ == trimmed(s@),
{
    trim_matches(s, Class::Space)
}

/// The lines of a text. A line ends at a line feed, which may follow a carriage return;
/// neither belongs to the line, and the last line need not be ended.
pub open spec fn lines_of(s: Seq<char>) -> Seq<Seq<char>>
    decreases s.len(),
{
    if s.len() == 0 {
        seq![]
    } else {
        let at = first_index(s, '\n');
        if at >= s.len() {
            seq![s]
        } else {
            proof {
                lemma_first_index_is_first(s, '\n');
            }
            seq![without_return(s.take(at))] + lines_of(s.skip(at + 1))
        }
    }
}

/// The text without one carriage return at its end.
pub open spec fn without_return(s: Seq<char>) -> Seq<char> {
    if s.len() > 0 && s.last() == '\r' {
        s.drop_last()
    } else {
        s
    }
}

/// The parts before and after the first `c`, where there is one.
pub open spec fn split_at_first(s: Seq<char>, c: char) -> Option<(Seq<char>, Seq<char>)> {
    let at = first_index(s, c);
    if at < s.len() {
        Some((s.take(at), s.skip(at + 1)))
    } else {
        None
    }
}

/// The parts before and after the first `c`, where there is one.
pub fn split_once(s: &str, c: char) -> (parts: Option<(String, String)>)
    ensures
        match parts {
            Some(p) => split_at_first(s@, c) == Some((p.0@, p.1@)),
            None => split_at_first(s@, c) is None,
        },
{
    let chars = chars_of(s);
    assert(chars@.skip(0) =~= chars@);
    let at = find_char(&chars, 0, c);
    if at < chars.len() {
        assert(chars@.subrange(0, at as int) =~= s@.take(at as int));
        assert(chars@.subrange(at + 1, chars@.len() as int) =~= s@.skip(at + 1));
        Some((string_of_range(&chars, 0, at), string_of_range(&chars, at + 1, chars.len())))
    } else {
        None
    }
}

/// The part before the first `c`, or the whole text where there is none.
pub fn before_first(s: &str, c: char) -> (out: String)
    ensures
        out@ == s@.take(first_index(s@, c)),
{
    let chars = chars_of(s);
    assert(chars@.skip(0) =~= chars@);
    let at = find_char(&chars, 0, c);
    assert(chars@.subrange(0, at as int) =~= s@.take(at as int));
    string_of_range(&chars, 0, at)
}

/// The views of a sequence of strings.
pub open spec fn texts(v: Seq<String>) -> Seq<Seq<char>> {
    v.map_values(|s: String| s@)
}

/// The lines of a text; see [`lines_of`].
pub fn lines(s: &str) -> (out: Vec<String>)
    ensures
        texts(out@) == lines_of(s@),
{
    let chars = chars_of(s);
    let mut out: Vec<String> = Vec::new();
    let mut from: usize = 0;
    assert(chars@.skip(0) =~= chars@);
    assert(texts(out@) + lines_of(s@) =~= lines_of(s@));
    while from < chars.len()
        invariant
            chars@ == s@,
            from <= chars@.len(),
            texts(out@) + lines_of(chars@.skip(from as int)) == lines_of(s@),
        decreases chars.len() - from,
    {
        let ghost rest = chars@.skip(from as int);
        let ghost before = texts(out@);
        let at = find_char(&chars, from, '\n');
        let mut end: usize = at;
        if at < chars.len() && at > from && chars[at - 1] == '\r' {
            end = at - 1;
        }
        let line = string_of_range(&chars, from, end);
        assert(line@ =~= if at < chars@.len() {
            without_return(rest.take(at - from))
        } else {
            rest
        });
        out.push(line);
        assert(texts(out@) =~= before.push(line@));
        let next: usize = if at < chars.len() {
            at + 1
        } else {
            at
        };
        assert(at < chars@.len() ==> rest.skip(at - from + 1) =~= chars@.skip(next as int));
        assert(at == chars@.len() ==> lines_of(chars@.skip(next as int)) =~= seq![]);
        assert(before.push(line@) + lines_of(chars@.skip(next as int)) =~= before + (seq![line@]
            + lines_of(chars@.skip(next as int))));
        assert(at == chars@.len() ==> seq![line@] + lines_of(chars@.skip(next as int)) =~= seq![
            line@,
        ]);
        from = next;
    }
    assert(lines_of(chars@.skip(from as int)) =~= seq![]);
    assert(texts(out@) + lines_of(chars@.skip(from as int)) =~= texts(out@));
    out
}

/// The text without white space.
pub open spec fn unspaced(s: Seq<char>) -> Seq<char> {
    s.filter(|c: char| !is_space(c))
}

/// Texts, one directly behind the other.
pub open spec fn run_together(parts: Seq<Seq<char>>) -> Seq<char>
    decreases parts.len(),
{
    if parts.len() == 0 {
        seq![]
    } else {
        parts[0] + run_together(parts.skip(1))
    }
}

/// A text that stands alone is not changed.
pub proof fn lemma_run_alone(s: Seq<char>)
    ensures
        run_together(seq![s]) == s,
{
    reveal_with_fuel(run_together, 2);
    assert(seq![s].skip(1) =~= seq![]);
    assert(s + Seq::<char>::empty() =~= s);
}

/// White space is dropped from the parts of a text on their own.
pub proof fn lemma_unspaced_add(a: Seq<char>, b: Seq<char>)
    ensures
        unspaced(a + b) == unspaced(a) + unspaced(b),
{
    Seq::filter_distributes_over_add(a, b, |c: char| !is_space(c));
}

/// A character is dropped where it is white space.
pub proof fn lemma_unspaced_char(c: char)
    ensures
        unspaced(seq![c]) == if is_space(c) {
            seq![]
        } else {
            seq![c]
        },
{
    reveal(Seq::filter);
    reveal_with_fuel(Seq::filter, 2);
    assert(seq![c].drop_last() =~= seq![]);
    assert(Seq::<char>::empty().push(c) =~= seq![c]);
}

/// Of nothing nothing is left.
pub proof fn lemma_unspaced_nothing()
    ensures
        unspaced(seq![]) == Seq::<char>::empty(),
{
    reveal(Seq::filter);
}

/// Trimming drops only white space.
pub proof fn lemma_unspaced_trimmed(s: Seq<char>)
    ensures
        unspaced(trimmed(s)) == unspaced(s),
{
    lemma_unspaced_front(s);
    lemma_unspaced_back(trim_front(s, Class::Space));
}

proof fn lemma_unspaced_front(s: Seq<char>)
    ensures
        unspaced(trim_front(s, Class::Space)) == unspaced(s),
    decreases s.len(),
{
    if s.len() > 0 && is_space(s[0]) {
        lemma_unspaced_front(s.drop_first());
        assert(s =~= seq![s[0]] + s.drop_first());
        lemma_unspaced_add(seq![s[0]], s.drop_first());
        lemma_unspaced_char(s[0]);
        assert(unspaced(s) =~= unspaced(s.drop_first()));
    }
}

proof fn lemma_unspaced_back(s: Seq<char>)
    ensures
        unspaced(trim_back(s, Class::Space)) == unspaced(s),
    decreases s.len(),
{
    if s.len() > 0 && is_space(s.last()) {
        lemma_unspaced_back(s.drop_last());
        assert(s =~= s.drop_last() + seq![s.last()]);
        lemma_unspaced_add(s.drop_last(), seq![s.last()]);
        lemma_unspaced_char(s.last());
        assert(unspaced(s) =~= unspaced(s.drop_last()));
    }
}

/// The lines of a text hold all of it but white space.
pub proof fn lemma_unspaced_lines(s: Seq<char>)
    ensures
        unspaced(run_together(lines_of(s))) == unspaced(s),
    decreases s.len(),
{
    if s.len() > 0 {
        let at = first_index(s, '\n');
        lemma_first_index_is_first(s, '\n');
        if at >= s.len() {
            lemma_run_alone(s);
        } else {
            let line = s.take(at);
            let rest = s.skip(at + 1);
            let kept = without_return(line);
            let later = lines_of(rest);
            lemma_unspaced_lines(rest);
            assert((seq![kept] + later).skip(1) =~= later);
            lemma_unspaced_add(kept, run_together(later));
            if line.len() > 0 && line.last() == '\r' {
                assert(line =~= kept + seq!['\r']);
                lemma_unspaced_add(kept, seq!['\r']);
                lemma_unspaced_char('\r');
                assert(unspaced(line) =~= unspaced(kept));
            }
            assert(s =~= line + (seq!['\n'] + rest));
            lemma_unspaced_add(line, seq!['\n'] + rest);
            lemma_unspaced_add(seq!['\n'], rest);
            lemma_unspaced_char('\n');
            assert(unspaced(seq!['\n'] + rest) =~= unspaced(rest));
        }
    }
}

// ---------------------------------------------------------------------------
// Replacing
// ---------------------------------------------------------------------------

/// The text with every character replaced by a text of its own.
pub open spec fn substitute(s: Seq<char>, f: spec_fn(char) -> Seq<char>) -> Seq<char>
    decreases s.len(),
{
    if s.len() == 0 {
        seq![]
    } else {
        substitute(s.drop_last(), f) + f(s.last())
    }
}

/// Substitution works on the two parts of a text on their own.
pub proof fn lemma_substitute_concat(a: Seq<char>, b: Seq<char>, f: spec_fn(char) -> Seq<char>)
    ensures
        substitute(a + b, f) == substitute(a, f) + substitute(b, f),
    decreases b.len(),
{
    if b.len() == 0 {
        assert(a + b =~= a);
        assert(substitute(a, f) + substitute(b, f) =~= substitute(a, f));
    } else {
        lemma_substitute_concat(a, b.drop_last(), f);
        assert((a + b).drop_last() =~= a + b.drop_last());
        assert((a + b).last() == b.last());
        assert(substitute(a, f) + substitute(b.drop_last(), f) + f(b.last()) =~= substitute(a, f)
            + (substitute(b.drop_last(), f) + f(b.last())));
    }
}

/// Substitution begins with that of the first character.
pub proof fn lemma_substitute_first(s: Seq<char>, f: spec_fn(char) -> Seq<char>)
    requires
        s.len() > 0,
    ensures
        substitute(s, f) == f(s[0]) + substitute(s.drop_first(), f),
{
    let first = seq![s[0]];
    assert(s =~= first + s.drop_first());
    lemma_substitute_concat(first, s.drop_first(), f);
    reveal_with_fuel(substitute, 2);
    assert(first.drop_last() =~= seq![]);
    assert(substitute(first, f) =~= f(s[0]));
}

/// The text with every `from` turned into `to`.
pub open spec fn with_char_replaced(s: Seq<char>, from: char, to: char) -> Seq<char> {
    s.map_values(|c: char| if c == from { to } else { c })
}

/// The text with every `from` turned into `to`.
pub fn replace_char(s: &str, from: char, to: char) -> (out: String)
    ensures
        out@ == with_char_replaced(s@, from, to),
{
    let chars = chars_of(s);
    let mut out = String::new();
    for i in 0..chars.len()
        invariant
            chars@ == s@,
            out@ == with_char_replaced(s@, from, to).take(i as int),
    {
        let c = chars[i];
        out.push(if c == from { to } else { c });
    }
    assert(out@ =~= with_char_replaced(s@, from, to));
    out
}

/// The text with every occurrence of the two characters `a` `b`, found from left to right
/// without overlap, turned into `to`.
pub open spec fn with_pair_replaced(s: Seq<char>, a: char, b: char, to: char) -> Seq<char>
    decreases s.len(),
{
    if s.len() == 0 {
        seq![]
    } else if s.len() >= 2 && s[0] == a && s[1] == b {
        seq![to] + with_pair_replaced(s.skip(2), a, b, to)
    } else {
        seq![s[0]] + with_pair_replaced(s.drop_first(), a, b, to)
    }
}

/// The text with every occurrence of two adjacent characters replaced by one.
pub fn replace_pair(s: &str, a: char, b: char, to: char) -> (out: String)
    ensures
        out@ == with_pair_replaced(s@, a, b, to),
{
    let chars = chars_of(s);
    let mut out = String::new();
    let mut i: usize = 0;
    assert(chars@.skip(0) =~= chars@);
    assert(out@ + with_pair_replaced(s@, a, b, to) =~= with_pair_replaced(s@, a, b, to));
    while i < chars.len()
        invariant
            chars@ == s@,
            i <= chars@.len(),
            out@ + with_pair_replaced(s@.skip(i as int), a, b, to) == with_pair_replaced(
                s@,
                a,
                b,
                to,
            ),
        decreases chars.len() - i,
    {
        let ghost rest = s@.skip(i as int);
        let ghost before = out@;
        if chars[i] == a && i + 1 < chars.len() && chars[i + 1] == b {
            out.push(to);
            assert(rest.skip(2) =~= s@.skip(i + 2));
            assert(before + (seq![to] + with_pair_replaced(rest.skip(2), a, b, to)) =~= out@
                + with_pair_replaced(rest.skip(2), a, b, to));
            i += 2;
        } else {
            out.push(chars[i]);
            assert(rest.drop_first() =~= s@.skip(i + 1));
            assert(before + (seq![rest[0]] + with_pair_replaced(rest.drop_first(), a, b, to))
                =~= out@ + with_pair_replaced(rest.drop_first(), a, b, to));
            i += 1;
        }
    }
    assert(with_pair_replaced(s@.skip(i as int), a, b, to) =~= seq![]);
    assert(out@ + with_pair_replaced(s@.skip(i as int), a, b, to) =~= out@);
    out
}

// ---------------------------------------------------------------------------
// UTF-8
// ---------------------------------------------------------------------------

/// How many bytes a character takes in UTF-8.
pub open spec fn utf8_width(c: char) -> nat {
    if c as u32 <= 0x7f {
        1
    } else if c as u32 <= 0x7ff {
        2
    } else if c as u32 <= 0xffff {
        3
    } else {
        4
    }
}

/// How many bytes a text takes in UTF-8.
pub open spec fn utf8_len(s: Seq<char>) -> nat
    decreases s.len(),
{
    if s.len() == 0 {
        0
    } else {
        utf8_width(s[0]) + utf8_len(s.drop_first())
    }
}

/// The beginning of the text that takes exactly `n` bytes in UTF-8; none where the text is
/// shorter or where the `n`th byte does not end a character.
pub open spec fn byte_prefix(s: Seq<char>, n: nat) -> Option<Seq<char>>
    decreases s.len(),
{
    if n == 0 {
        Some(seq![])
    } else if s.len() == 0 || utf8_width(s[0]) > n {
        None
    } else {
        match byte_prefix(s.drop_first(), (n - utf8_width(s[0])) as nat) {
            Some(rest) => Some(seq![s[0]] + rest),
            None => None,
        }
    }
}

/// A byte prefix is a prefix of the text, with that many bytes.
pub proof fn lemma_byte_prefix(s: Seq<char>, n: nat)
    ensures
        match byte_prefix(s, n) {
            Some(p) => p.is_prefix_of(s) && utf8_len(p) == n && p.len() <= n,
            None => forall|k: int| 0 <= k <= s.len() ==> utf8_len(#[trigger] s.take(k)) != n,
        },
    decreases s.len(),
{
    if n == 0 {
    } else if s.len() == 0 || utf8_width(s[0]) > n {
        assert forall|k: int| 0 <= k <= s.len() implies utf8_len(#[trigger] s.take(k)) != n by {
            if k > 0 {
                assert(s.take(k)[0] == s[0]);
            }
        }
    } else {
        let rest = s.drop_first();
        let m = (n - utf8_width(s[0])) as nat;
        lemma_byte_prefix(rest, m);
        match byte_prefix(rest, m) {
            Some(q) => {
                let p = seq![s[0]] + q;
                assert(p.drop_first() =~= q);
                assert(p =~= s.subrange(0, p.len() as int)) by {
                    assert(q =~= rest.subrange(0, q.len() as int));
                }
            },
            None => {
                assert forall|k: int| 0 <= k <= s.len() implies utf8_len(#[trigger] s.take(k))
                    != n by {
                    if k > 0 {
                        assert(s.take(k).drop_first() =~= rest.take(k - 1));
                        assert(utf8_len(rest.take(k - 1)) != m);
                    }
                }
            },
        }
    }
}

fn width_of(c: char) -> (n: usize)
    ensures
        n == utf8_width(c),
{
    let code: u32 = c as u32;
    if code <= 0x7f {
        1
    } else if code <= 0x7ff {
        2
    } else if code <= 0xffff {
        3
    } else {
        4
    }
}

/// The beginning of the string that takes `n` bytes; see [`byte_prefix`].
pub fn prefix_of_bytes(s: &str, n: usize) -> (out: Option<String>)
    ensures
        match out {
            Some(p) => byte_prefix(s@, n as nat) == Some(p@),
            None => byte_prefix(s@, n as nat) is None,
        },
{
    let chars = chars_of(s);
    let mut out = String::new();
    let mut left: usize = n;
    let mut i: usize = 0;
    assert(chars@.skip(0) =~= chars@);
    proof {
        if let Some(p) = byte_prefix(s@, n as nat) {
            assert(out@ + p =~= p);
        }
    }
    while left > 0
        invariant
            chars@ == s@,
            i <= chars@.len(),
            match byte_prefix(s@.skip(i as int), left as nat) {
                Some(p) => byte_prefix(s@, n as nat) == Some(out@ + p),
                None => byte_prefix(s@, n as nat) is None,
            },
        decreases left,
    {
        if i == chars.len() {
            return None;
        }
        let w = width_of(chars[i]);
        let ghost rest = s@.skip(i as int);
        let ghost before = out@;
        assert(rest.drop_first() =~= s@.skip(i + 1));
        if w > left {
            return None;
        }
        out.push(chars[i]);
        proof {
            if let Some(p) = byte_prefix(rest.drop_first(), (left - w) as nat) {
                assert(before + (seq![rest[0]] + p) =~= out@ + p);
            }
        }
        left -= w;
        i += 1;
    }
    assert(out@ + Seq::<char>::empty() =~= out@);
    Some(out)
}

// ---------------------------------------------------------------------------
// Laws
// ---------------------------------------------------------------------------

/// A text holds another if and only if it is that text with something before and behind it.
pub proof fn lemma_has_text(hay: Seq<char>, needle: Seq<char>)
    ensures
        has_text(hay, needle) <==> exists|a: Seq<char>, b: Seq<char>| hay == #[trigger] (a
            + needle + b),
{
    if has_text(hay, needle) {
        let at = choose|at: int| stands_at(hay, needle, at);
        let a = hay.take(at);
        let b = hay.skip(at + needle.len());
        assert(hay =~= a + needle + b);
    }
    if exists|a: Seq<char>, b: Seq<char>| hay == #[trigger] (a + needle + b) {
        let (a, b) = choose|a: Seq<char>, b: Seq<char>| hay == #[trigger] (a + needle + b);
        assert(hay.subrange(a.len() as int, (a.len() + needle.len()) as int) =~= needle);
        assert(stands_at(hay, needle, a.len() as int));
    }
}

/// What a text holds is held where the text stands among others.
pub proof fn lemma_has_text_in(a: Seq<char>, s: Seq<char>, b: Seq<char>, needle: Seq<char>)
    requires
        has_text(s, needle),
    ensures
        has_text(a + s + b, needle),
        has_text(a + s, needle),
        has_text(s + b, needle),
{
    lemma_has_text(s, needle);
    let (x, y) = choose|x: Seq<char>, y: Seq<char>| s == #[trigger] (x + needle + y);
    assert(a + s + b =~= (a + x) + needle + (y + b));
    assert(a + s =~= (a + x) + needle + y);
    assert(s + b =~= x + needle + (y + b));
    lemma_has_text(a + s + b, needle);
    lemma_has_text(a + s, needle);
    lemma_has_text(s + b, needle);
}

/// A text holds itself.
pub proof fn lemma_has_itself(s: Seq<char>)
    ensures
        has_text(s, s),
{
    assert(s =~= Seq::<char>::empty() + s + Seq::<char>::empty());
    lemma_has_text(s, s);
}

/// At the first character in which two texts differ the lower one comes first, and a text
/// comes before its continuations.
pub proof fn lemma_text_lt_at(p: Seq<char>, a: char, b: char, x: Seq<char>, y: Seq<char>)
    requires
        a != b,
    ensures
        text_lt(p + (seq![a] + x), p + (seq![b] + y)) == (a < b),
        text_lt(p, p + (seq![b] + y)),
        !text_lt(p + (seq![b] + y), p),
{
    lemma_text_lt_common(p, seq![a] + x, seq![b] + y);
    lemma_text_lt_common(p, seq![], seq![b] + y);
    lemma_text_lt_common(p, seq![b] + y, seq![]);
    assert(p + Seq::<char>::empty() =~= p);
    assert((seq![a] + x)[0] == a && (seq![b] + y)[0] == b);
}

/// Splitting a text at a character gives back the parts that were put around it, where the
/// first part does not hold it. A text without the character is not split.
pub proof fn lemma_split(a: Seq<char>, c: char, b: Seq<char>)
    requires
        !a.contains(c),
    ensures
        split_at_first(a + (seq![c] + b), c) == Some((a, b)),
        split_at_first(a, c) is None,
        first_index(a + (seq![c] + b), c) == a.len(),
        first_index(a, c) == a.len(),
{
    let s = a + (seq![c] + b);
    assert forall|j: int| 0 <= j < a.len() implies s[j] != c by {
        assert(a.contains(a[j]));
    }
    lemma_first_index(s, c, a.len() as int);
    assert forall|j: int| 0 <= j < a.len() implies a[j] != c by {
        assert(a.contains(a[j]));
    }
    lemma_first_index(a, c, a.len() as int);
    assert(s.take(a.len() as int) =~= a);
    assert(s.skip(a.len() as int + 1) =~= b);
}

/// The first line of a text is what stands before its first line break, without a carriage
/// return at its end, and the others are those of the rest.
pub proof fn lemma_first_line(a: Seq<char>, b: Seq<char>)
    requires
        !a.contains('\n'),
    ensures
        lines_of(a + (seq!['\n'] + b)) == seq![without_return(a)] + lines_of(b),
        a.len() > 0 ==> lines_of(a) == seq![a],
        lines_of(seq![]).len() == 0,
        without_return(a + seq!['\r']) == a,
        a.len() > 0 && a.last() != '\r' ==> without_return(a) == a,
{
    let s = a + (seq!['\n'] + b);
    lemma_split(a, '\n', b);
    assert(s.take(a.len() as int) =~= a);
    assert(s.skip(a.len() as int + 1) =~= b);
    assert((a + seq!['\r']).drop_last() =~= a);
}

/// Trimming takes the white space off both ends, and nothing of what stands between them.
pub proof fn lemma_trimmed(before: Seq<char>, s: Seq<char>, after: Seq<char>)
    requires
        forall|i: int| 0 <= i < before.len() ==> is_space(#[trigger] before[i]),
        forall|i: int| 0 <= i < after.len() ==> is_space(#[trigger] after[i]),
        s.len() > 0 ==> !is_space(s[0]) && !is_space(s.last()),
    ensures
        trimmed(before + s + after) == s,
{
    lemma_trim_both(before, s, after, Class::Space);
}

/// The same for any class of characters.
pub proof fn lemma_trim_both(before: Seq<char>, s: Seq<char>, after: Seq<char>, class: Class)
    requires
        forall|i: int| 0 <= i < before.len() ==> class.holds(#[trigger] before[i]),
        forall|i: int| 0 <= i < after.len() ==> class.holds(#[trigger] after[i]),
        s.len() > 0 ==> !class.holds(s[0]) && !class.holds(s.last()),
    ensures
        trim_both(before + s + after, class) == s,
        trim_back(s + after, class) == s,
{
    lemma_trim_back(s, after, class);
    if s.len() > 0 {
        lemma_trim_front(before, s + after, class);
        assert(before + s + after =~= before + (s + after));
    } else {
        let all = before + s + after;
        assert forall|i: int| 0 <= i < all.len() implies class.holds(#[trigger] all[i]) by {
            if i < before.len() {
                assert(class.holds(before[i]));
            } else {
                assert(class.holds(after[i - before.len()]));
            }
        }
        lemma_trim_front(all, seq![], class);
        assert(all + Seq::<char>::empty() =~= all);
        assert(s =~= seq![]);
    }
}

proof fn lemma_trim_front(before: Seq<char>, s: Seq<char>, class: Class)
    requires
        forall|i: int| 0 <= i < before.len() ==> class.holds(#[trigger] before[i]),
        s.len() > 0 ==> !class.holds(s[0]),
    ensures
        trim_front(before + s, class) == s,
    decreases before.len(),
{
    if before.len() == 0 {
        assert(before + s =~= s);
    } else {
        let rest = before.drop_first();
        assert forall|i: int| 0 <= i < rest.len() implies class.holds(#[trigger] rest[i]) by {
            assert(class.holds(before[i + 1]));
        }
        lemma_trim_front(rest, s, class);
        assert(class.holds(before[0]));
        assert((before + s).drop_first() =~= rest + s);
    }
}

proof fn lemma_trim_back(s: Seq<char>, after: Seq<char>, class: Class)
    requires
        forall|i: int| 0 <= i < after.len() ==> class.holds(#[trigger] after[i]),
        s.len() > 0 ==> !class.holds(s.last()),
    ensures
        trim_back(s + after, class) == s,
    decreases after.len(),
{
    if after.len() == 0 {
        assert(s + after =~= s);
    } else {
        let rest = after.drop_last();
        assert forall|i: int| 0 <= i < rest.len() implies class.holds(#[trigger] rest[i]) by {
            assert(class.holds(after[i]));
        }
        lemma_trim_back(s, rest, class);
        assert(class.holds(after[after.len() - 1]));
        assert((s + after).drop_last() =~= s + rest);
    }
}

/// Whether two characters are the same letter of ASCII in different cases.
pub open spec fn other_case(a: char, b: char) -> bool {
    ('A' <= a <= 'Z' && b as u32 == a as u32 + 32) || ('A' <= b <= 'Z' && a as u32 == b as u32
        + 32)
}

/// Two texts differ at most in the case of ASCII letters if and only if they are of the same
/// length and at each place have the same character or the same letter in different cases.
pub proof fn lemma_same_ignoring_ascii_case(a: Seq<char>, b: Seq<char>)
    ensures
        same_ignoring_ascii_case(a, b) <==> a.len() == b.len() && forall|i: int|
            0 <= i < a.len() ==> #[trigger] a[i] == b[i] || other_case(a[i], b[i]),
{
    let x = ascii_lowered(a);
    let y = ascii_lowered(b);
    if same_ignoring_ascii_case(a, b) {
        assert(x.len() == y.len());
        assert forall|i: int| 0 <= i < a.len() implies #[trigger] a[i] == b[i] || other_case(
            a[i],
            b[i],
        ) by {
            assert(x[i] == y[i]);
            lemma_lower_char(a[i], b[i]);
        }
    }
    if a.len() == b.len() && forall|i: int|
        0 <= i < a.len() ==> #[trigger] a[i] == b[i] || other_case(a[i], b[i]) {
        assert forall|i: int| 0 <= i < a.len() implies x[i] == y[i] by {
            assert(a[i] == b[i] || other_case(a[i], b[i]));
            lemma_lower_char(a[i], b[i]);
        }
        assert(x =~= y);
    }
}

proof fn lemma_lower_char(a: char, b: char)
    ensures
        ascii_lower(a) == ascii_lower(b) <==> a == b || other_case(a, b),
{
}

proof fn lemma_ascii_width(c: char)
    requires
        c <= '\u{7f}',
    ensures
        utf8_width(c) == 1,
{
}

/// A beginning of ASCII characters takes as many bytes as it has characters.
pub proof fn lemma_ascii_prefix(s: Seq<char>, rest: Seq<char>)
    requires
        all_ascii(s),
    ensures
        byte_prefix(s + rest, s.len()) == Some(s),
    decreases s.len(),
{
    if s.len() == 0 {
        assert(s =~= seq![]);
    } else {
        let later = s.drop_first();
        assert(s[0] <= '\u{7f}');
        assert forall|i: int| 0 <= i < later.len() implies #[trigger] later[i] <= '\u{7f}' by {
            assert(s[i + 1] <= '\u{7f}');
        }
        lemma_ascii_prefix(later, rest);
        assert((s + rest).drop_first() =~= later + rest);
        assert((s + rest)[0] == s[0]);
        lemma_ascii_width(s[0]);
        assert(seq![s[0]] + later =~= s);
    }
}

/// White space is the blank, the characters from the tab to the carriage return, the next-line
/// character, and the blanks and separators of Unicode.
pub proof fn lemma_spaces(c: char)
    ensures
        is_space(c) <==> c == ' ' || '\t' <= c <= '\r' || c == '\u{85}' || c == '\u{a0}' || c
            == '\u{1680}' || '\u{2000}' <= c <= '\u{200a}' || c == '\u{2028}' || c == '\u{2029}'
            || c == '\u{202f}' || c == '\u{205f}' || c == '\u{3000}',
{
}

} // verus!
