//! The JSON grammar: what each text parses to, what is left over, and what is refused.
//!
//! Every parsing function takes the text that is still to be read. It gives the outcome,
//! which is a value or the message of an error, and the text that remains behind it.

use crate::numeral;
use vstd::prelude::*;

verus! {

/// The mathematical value of a JSON text.
pub enum JsonModel {
    Null,
    Bool,
    /// A number, as the numeral that it was written with.
    Number(Seq<char>),
    String(Seq<char>),
    Array(Seq<JsonModel>),
    Object(Map<Seq<char>, JsonModel>),
}

/// White space between JSON tokens.
pub open spec fn is_ws(c: char) -> bool {
    c == ' ' || c == '\n' || c == '\r' || c == '\t'
}

/// The text without leading white space.
pub open spec fn skip_ws(s: Seq<char>) -> Seq<char>
    decreases s.len(),
{
    if s.len() > 0 && is_ws(s[0]) {
        skip_ws(s.drop_first())
    } else {
        s
    }
}

/// Skipping white space leaves a suffix that does not begin with white space.
pub proof fn lemma_skip_ws(s: Seq<char>)
    ensures
        skip_ws(s).len() <= s.len(),
        skip_ws(s).len() > 0 ==> !is_ws(skip_ws(s)[0]),
        skip_ws(s) == s.skip(s.len() - skip_ws(s).len()),
    decreases s.len(),
{
    if s.len() > 0 && is_ws(s[0]) {
        lemma_skip_ws(s.drop_first());
        let rest = skip_ws(s);
        assert(s.drop_first().skip(s.drop_first().len() - rest.len()) =~= s.skip(
            s.len() - rest.len(),
        ));
    } else {
        assert(s.skip(0) =~= s);
    }
}

/// Takes one expected character off the text.
pub open spec fn parse_char(s: Seq<char>, c: char) -> (Result<(), Seq<char>>, Seq<char>) {
    if s.len() == 0 {
        (Err("expected "@.push(c)), s)
    } else if s[0] == c {
        (Ok(()), s.drop_first())
    } else {
        (Err("expected "@.push(c)), s.drop_first())
    }
}

/// Whether the text begins with the word, and what is left where the two part.
pub open spec fn match_word(s: Seq<char>, word: Seq<char>) -> (bool, Seq<char>)
    decreases word.len(),
{
    if word.len() == 0 {
        (true, s)
    } else if s.len() == 0 {
        (false, s)
    } else if s[0] != word[0] {
        (false, s.drop_first())
    } else {
        match_word(s.drop_first(), word.drop_first())
    }
}

/// Reads a word that stands for a value.
pub open spec fn parse_literal(s: Seq<char>, word: Seq<char>, value: JsonModel) -> (
    Result<JsonModel, Seq<char>>,
    Seq<char>,
) {
    let (found, rest) = match_word(s, word);
    if found {
        (Ok(value), rest)
    } else {
        (Err("expected "@ + word), rest)
    }
}

/// Whether the character is a hexadecimal digit.
pub open spec fn is_hex(c: char) -> bool {
    '0' <= c <= '9' || 'a' <= c <= 'f' || 'A' <= c <= 'F'
}

/// The value of a hexadecimal digit.
pub open spec fn hex_value(c: char) -> int {
    if '0' <= c <= '9' {
        c as int - '0' as int
    } else if 'a' <= c <= 'f' {
        c as int - 'a' as int + 10
    } else {
        c as int - 'A' as int + 10
    }
}

/// Reads `n` hexadecimal digits behind those that make up `code`.
pub open spec fn parse_hex(s: Seq<char>, n: nat, code: int) -> (
    Result<int, Seq<char>>,
    Seq<char>,
)
    decreases n,
{
    if n == 0 {
        (Ok(code), s)
    } else if s.len() == 0 {
        (Err("invalid unicode escape"@), s)
    } else if !is_hex(s[0]) {
        (Err("invalid unicode escape"@), s.drop_first())
    } else {
        parse_hex(s.drop_first(), (n - 1) as nat, code * 16 + hex_value(s[0]))
    }
}

/// Reading digits never lengthens the text.
pub proof fn lemma_parse_hex_shrinks(s: Seq<char>, n: nat, code: int)
    ensures
        parse_hex(s, n, code).1.len() <= s.len(),
    decreases n,
{
    if n > 0 && s.len() > 0 && is_hex(s[0]) {
        lemma_parse_hex_shrinks(s.drop_first(), (n - 1) as nat, code * 16 + hex_value(s[0]));
    }
}

/// Whether a number is that of a character.
pub open spec fn is_scalar(code: int) -> bool {
    0 <= code <= 0xd7ff || 0xe000 <= code <= 0x10ffff
}

/// Reads what follows a backslash. A code of four digits that is no character stands for
/// nothing at all.
pub open spec fn parse_escape(s: Seq<char>) -> (Result<Seq<char>, Seq<char>>, Seq<char>) {
    if s.len() == 0 {
        (Err("unterminated escape"@), s)
    } else {
        let rest = s.drop_first();
        let c = s[0];
        if c == '"' || c == '\\' || c == '/' {
            (Ok(seq![c]), rest)
        } else if c == 'b' {
            (Ok(seq!['\u{8}']), rest)
        } else if c == 'f' {
            (Ok(seq!['\u{c}']), rest)
        } else if c == 'n' {
            (Ok(seq!['\n']), rest)
        } else if c == 'r' {
            (Ok(seq!['\r']), rest)
        } else if c == 't' {
            (Ok(seq!['\t']), rest)
        } else if c == 'u' {
            match parse_hex(rest, 4, 0) {
                (Ok(code), r) => if is_scalar(code) {
                    (Ok(seq![code as char]), r)
                } else {
                    (Ok(seq![]), r)
                },
                (Err(e), r) => (Err(e), r),
            }
        } else {
            (Err("invalid escape "@.push(c)), rest)
        }
    }
}

/// Reading an escape never lengthens the text.
pub proof fn lemma_parse_escape_shrinks(s: Seq<char>)
    ensures
        parse_escape(s).1.len() <= s.len(),
        parse_escape(s).0 is Ok ==> parse_escape(s).1.len() < s.len(),
{
    if s.len() > 0 {
        lemma_parse_hex_shrinks(s.drop_first(), 4, 0);
    }
}

/// The outcome of reading on, with text in front of what was read.
pub open spec fn with_front(
    front: Seq<char>,
    outcome: (Result<Seq<char>, Seq<char>>, Seq<char>),
) -> (Result<Seq<char>, Seq<char>>, Seq<char>) {
    match outcome {
        (Ok(t), r) => (Ok(front + t), r),
        (Err(e), r) => (Err(e), r),
    }
}

/// Reads the inside of a string up to and with its closing quote.
pub open spec fn parse_string_body(s: Seq<char>) -> (Result<Seq<char>, Seq<char>>, Seq<char>)
    decreases s.len(),
{
    if s.len() == 0 {
        (Err("unterminated string"@), s)
    } else if s[0] == '"' {
        (Ok(seq![]), s.drop_first())
    } else if s[0] == '\\' {
        proof {
            lemma_parse_escape_shrinks(s.drop_first());
        }
        match parse_escape(s.drop_first()) {
            (Ok(t), r) => with_front(t, parse_string_body(r)),
            (Err(e), r) => (Err(e), r),
        }
    } else {
        with_front(seq![s[0]], parse_string_body(s.drop_first()))
    }
}

/// Reads a string with its quotes.
pub open spec fn parse_string(s: Seq<char>) -> (Result<Seq<char>, Seq<char>>, Seq<char>) {
    match parse_char(s, '"') {
        (Ok(_), r) => parse_string_body(r),
        (Err(e), r) => (Err(e), r),
    }
}

/// Reading a string shortens the text, unless nothing is there to read.
pub proof fn lemma_parse_string_body_shrinks(s: Seq<char>)
    ensures
        parse_string_body(s).1.len() <= s.len(),
        parse_string_body(s).0 is Ok ==> parse_string_body(s).1.len() < s.len(),
    decreases s.len(),
{
    if s.len() == 0 || s[0] == '"' {
    } else if s[0] == '\\' {
        lemma_parse_escape_shrinks(s.drop_first());
        match parse_escape(s.drop_first()) {
            (Ok(t), r) => {
                lemma_parse_string_body_shrinks(r);
            },
            (Err(e), r) => {},
        }
    } else {
        lemma_parse_string_body_shrinks(s.drop_first());
    }
}

/// The characters that a number is made of.
pub open spec fn is_number_char(c: char) -> bool {
    c == '-' || c == '+' || c == '.' || c == 'e' || c == 'E' || '0' <= c <= '9'
}

/// How many characters of a number the text begins with.
pub open spec fn number_run(s: Seq<char>) -> nat
    decreases s.len(),
{
    if s.len() > 0 && is_number_char(s[0]) {
        1 + number_run(s.drop_first())
    } else {
        0
    }
}

/// The run is not longer than the text, and has characters of a number only.
pub proof fn lemma_number_run(s: Seq<char>)
    ensures
        number_run(s) <= s.len(),
        forall|i: int| 0 <= i < number_run(s) ==> is_number_char(#[trigger] s[i]),
    decreases s.len(),
{
    if s.len() > 0 && is_number_char(s[0]) {
        let later = s.drop_first();
        lemma_number_run(later);
        assert forall|i: int| 0 <= i < number_run(s) implies is_number_char(#[trigger] s[i]) by {
            if i > 0 {
                assert(is_number_char(later[i - 1]));
            }
        }
    }
}

/// Reads a number.
pub open spec fn parse_number(s: Seq<char>) -> (Result<JsonModel, Seq<char>>, Seq<char>) {
    let raw = s.take(number_run(s) as int);
    let rest = s.skip(number_run(s) as int);
    if numeral::numeral(raw) is Some {
        (Ok(JsonModel::Number(raw)), rest)
    } else {
        (Err("invalid number "@ + raw), rest)
    }
}

/// Reads a value, with white space before it.
pub open spec fn parse_value(text: Seq<char>) -> (Result<JsonModel, Seq<char>>, Seq<char>)
    decreases text.len(), 0nat,
{
    proof {
        lemma_skip_ws(text);
    }
    let s = skip_ws(text);
    if s.len() == 0 {
        (Err("invalid JSON value"@), s)
    } else if s[0] == 'n' {
        parse_literal(s, "null"@, JsonModel::Null)
    } else if s[0] == 't' {
        parse_literal(s, "true"@, JsonModel::Bool)
    } else if s[0] == 'f' {
        parse_literal(s, "false"@, JsonModel::Bool)
    } else if s[0] == '"' {
        match parse_string(s) {
            (Ok(t), r) => (Ok(JsonModel::String(t)), r),
            (Err(e), r) => (Err(e), r),
        }
    } else if s[0] == '[' {
        parse_items(s.drop_first(), seq![])
    } else if s[0] == '{' {
        parse_fields(s.drop_first(), Map::empty())
    } else if s[0] == '-' || '0' <= s[0] <= '9' {
        parse_number(s)
    } else {
        (Err("invalid JSON value"@), s)
    }
}

/// Reads the items of an array behind those already read, up to and with its closing
/// bracket. A comma may stand before the bracket.
pub open spec fn parse_items(text: Seq<char>, items: Seq<JsonModel>) -> (
    Result<JsonModel, Seq<char>>,
    Seq<char>,
)
    decreases text.len(), 1nat,
{
    proof {
        lemma_skip_ws(text);
    }
    let s = skip_ws(text);
    if s.len() > 0 && s[0] == ']' {
        (Ok(JsonModel::Array(items)), s.drop_first())
    } else {
        match parse_value(s) {
            (Err(e), r) => (Err(e), r),
            (Ok(v), r0) => {
                let r = skip_ws(r0);
                if r.len() == 0 {
                    (Err("expected ',' or ']'"@), r)
                } else if r[0] == ']' {
                    (Ok(JsonModel::Array(items.push(v))), r.drop_first())
                } else if r[0] == ',' && r.len() <= s.len() {
                    parse_items(r.drop_first(), items.push(v))
                } else {
                    (Err("expected ',' or ']'"@), r.drop_first())
                }
            },
        }
    }
}

/// Reads the fields of an object behind those already read, up to and with its closing
/// brace. A comma may stand before the brace, and of equal keys the last one counts.
pub open spec fn parse_fields(text: Seq<char>, fields: Map<Seq<char>, JsonModel>) -> (
    Result<JsonModel, Seq<char>>,
    Seq<char>,
)
    decreases text.len(), 1nat,
{
    proof {
        lemma_skip_ws(text);
    }
    let s = skip_ws(text);
    if s.len() > 0 && s[0] == '}' {
        (Ok(JsonModel::Object(fields)), s.drop_first())
    } else {
        match parse_string(s) {
            (Err(e), r) => (Err(e), r),
            (Ok(key), r1) => {
                proof {
                    if s.len() > 0 {
                        lemma_parse_string_body_shrinks(s.drop_first());
                    }
                    lemma_skip_ws(r1);
                }
                match parse_char(skip_ws(r1), ':') {
                    (Err(e), r) => (Err(e), r),
                    (Ok(_), r2) => match parse_value(r2) {
                        (Err(e), r) => (Err(e), r),
                        (Ok(v), r3) => {
                            let r = skip_ws(r3);
                            if r.len() == 0 {
                                (Err("expected ',' or '}'"@), r)
                            } else if r[0] == '}' {
                                (Ok(JsonModel::Object(fields.insert(key, v))), r.drop_first())
                            } else if r[0] == ',' && r.len() <= s.len() {
                                parse_fields(r.drop_first(), fields.insert(key, v))
                            } else {
                                (Err("expected ',' or '}'"@), r.drop_first())
                            }
                        },
                    },
                }
            },
        }
    }
}

/// Reads an array with its brackets.
pub open spec fn parse_array(s: Seq<char>) -> (Result<JsonModel, Seq<char>>, Seq<char>) {
    match parse_char(s, '[') {
        (Ok(_), r) => parse_items(r, seq![]),
        (Err(e), r) => (Err(e), r),
    }
}

/// Reads an object with its braces.
pub open spec fn parse_object(s: Seq<char>) -> (Result<JsonModel, Seq<char>>, Seq<char>) {
    match parse_char(s, '{') {
        (Ok(_), r) => parse_fields(r, Map::empty()),
        (Err(e), r) => (Err(e), r),
    }
}

/// What a whole JSON text stands for.
pub open spec fn json_value(text: Seq<char>) -> Result<JsonModel, Seq<char>> {
    match parse_value(text) {
        (Err(e), _) => Err(e),
        (Ok(v), r) => if skip_ws(r).len() == 0 {
            Ok(v)
        } else {
            Err("trailing JSON input"@)
        },
    }
}

/// Matching a word never lengthens the text.
pub proof fn lemma_match_word_shrinks(s: Seq<char>, word: Seq<char>)
    ensures
        match_word(s, word).1.len() <= s.len(),
    decreases word.len(),
{
    if word.len() > 0 && s.len() > 0 && s[0] == word[0] {
        lemma_match_word_shrinks(s.drop_first(), word.drop_first());
    }
}

/// Reading a value never lengthens the text.
pub proof fn lemma_parse_value_shrinks(text: Seq<char>)
    ensures
        parse_value(text).1.len() <= text.len(),
    decreases text.len(), 0nat,
{
    lemma_skip_ws(text);
    let s = skip_ws(text);
    if s.len() > 0 {
        lemma_match_word_shrinks(s, "null"@);
        lemma_match_word_shrinks(s, "true"@);
        lemma_match_word_shrinks(s, "false"@);
        lemma_parse_string_body_shrinks(s.drop_first());
        lemma_number_run(s);
        if s[0] == '[' {
            lemma_parse_items_shrinks(s.drop_first(), seq![]);
        } else if s[0] == '{' {
            lemma_parse_fields_shrinks(s.drop_first(), Map::empty());
        }
    }
}

/// Reading the items of an array never lengthens the text.
pub proof fn lemma_parse_items_shrinks(text: Seq<char>, items: Seq<JsonModel>)
    ensures
        parse_items(text, items).1.len() <= text.len(),
    decreases text.len(), 1nat,
{
    lemma_skip_ws(text);
    let s = skip_ws(text);
    if s.len() > 0 && s[0] == ']' {
    } else {
        lemma_parse_value_shrinks(s);
        if let (Ok(v), r0) = parse_value(s) {
            lemma_skip_ws(r0);
            let r = skip_ws(r0);
            if r.len() > 0 && r[0] == ',' {
                lemma_parse_items_shrinks(r.drop_first(), items.push(v));
            }
        }
    }
}

/// Reading the fields of an object never lengthens the text.
pub proof fn lemma_parse_fields_shrinks(text: Seq<char>, fields: Map<Seq<char>, JsonModel>)
    ensures
        parse_fields(text, fields).1.len() <= text.len(),
    decreases text.len(), 1nat,
{
    lemma_skip_ws(text);
    let s = skip_ws(text);
    if s.len() > 0 && s[0] == '}' {
    } else {
        if s.len() > 0 {
            lemma_parse_string_body_shrinks(s.drop_first());
        }
        if let (Ok(key), r1) = parse_string(s) {
            lemma_skip_ws(r1);
            if let (Ok(_), r2) = parse_char(skip_ws(r1), ':') {
                lemma_parse_value_shrinks(r2);
                if let (Ok(v), r3) = parse_value(r2) {
                    lemma_skip_ws(r3);
                    let r = skip_ws(r3);
                    if r.len() > 0 && r[0] == ',' {
                        lemma_parse_fields_shrinks(r.drop_first(), fields.insert(key, v));
                    }
                }
            }
        }
    }
}

// ---------------------------------------------------------------------------
// Laws
// ---------------------------------------------------------------------------

/// Whether a text is white space only.
pub open spec fn all_ws(s: Seq<char>) -> bool {
    forall|i: int| 0 <= i < s.len() ==> is_ws(#[trigger] s[i])
}

/// White space in front of a text is skipped as a whole.
pub proof fn lemma_skip_front(w: Seq<char>, s: Seq<char>)
    requires
        all_ws(w),
    ensures
        skip_ws(w + s) == skip_ws(s),
    decreases w.len(),
{
    if w.len() == 0 {
        assert(w + s =~= s);
    } else {
        assert(is_ws(w[0]));
        let later = w.drop_first();
        assert forall|i: int| 0 <= i < later.len() implies is_ws(#[trigger] later[i]) by {
            assert(is_ws(w[i + 1]));
        }
        lemma_skip_front(later, s);
        assert((w + s).drop_first() =~= later + s);
    }
}

/// Only white space is skipped to the end.
pub proof fn lemma_skip_all(s: Seq<char>)
    requires
        skip_ws(s).len() == 0,
    ensures
        all_ws(s),
    decreases s.len(),
{
    if s.len() > 0 {
        let later = s.drop_first();
        lemma_skip_all(later);
        assert forall|i: int| 0 <= i < s.len() implies is_ws(#[trigger] s[i]) by {
            if i > 0 {
                assert(is_ws(later[i - 1]));
            }
        }
    }
}

/// What stands behind a text does not matter where the white space before it ends.
pub proof fn lemma_skip_before(s: Seq<char>, t: Seq<char>)
    requires
        skip_ws(s).len() > 0,
    ensures
        skip_ws(s + t) == skip_ws(s) + t,
    decreases s.len(),
{
    if is_ws(s[0]) {
        lemma_skip_before(s.drop_first(), t);
        assert((s + t).drop_first() =~= s.drop_first() + t);
    }
}

/// A word is found whatever stands behind it.
proof fn lemma_match_word_before(s: Seq<char>, word: Seq<char>, t: Seq<char>)
    requires
        match_word(s, word).0,
    ensures
        match_word(s + t, word) == (true, match_word(s, word).1 + t),
    decreases word.len(),
{
    if word.len() > 0 {
        lemma_match_word_before(s.drop_first(), word.drop_first(), t);
        assert((s + t).drop_first() =~= s.drop_first() + t);
    }
}

/// Hexadecimal digits are read whatever stands behind them.
proof fn lemma_parse_hex_before(s: Seq<char>, n: nat, code: int, t: Seq<char>)
    requires
        parse_hex(s, n, code).0 is Ok,
    ensures
        parse_hex(s + t, n, code) == (parse_hex(s, n, code).0, parse_hex(s, n, code).1 + t),
    decreases n,
{
    if n > 0 {
        lemma_parse_hex_before(s.drop_first(), (n - 1) as nat, code * 16 + hex_value(s[0]), t);
        assert((s + t).drop_first() =~= s.drop_first() + t);
    }
}

/// An escape is read whatever stands behind it.
proof fn lemma_parse_escape_before(s: Seq<char>, t: Seq<char>)
    requires
        parse_escape(s).0 is Ok,
    ensures
        parse_escape(s + t) == (parse_escape(s).0, parse_escape(s).1 + t),
{
    assert((s + t).drop_first() =~= s.drop_first() + t);
    if s[0] == 'u' {
        lemma_parse_hex_before(s.drop_first(), 4, 0, t);
    }
}

/// The inside of a string is read whatever stands behind it.
proof fn lemma_parse_string_body_before(s: Seq<char>, t: Seq<char>)
    requires
        parse_string_body(s).0 is Ok,
    ensures
        parse_string_body(s + t) == (parse_string_body(s).0, parse_string_body(s).1 + t),
    decreases s.len(),
{
    assert((s + t).drop_first() =~= s.drop_first() + t);
    if s[0] == '"' {
    } else if s[0] == '\\' {
        let rest = s.drop_first();
        lemma_parse_escape_shrinks(rest);
        lemma_parse_escape_before(rest, t);
        lemma_parse_string_body_before(parse_escape(rest).1, t);
    } else {
        lemma_parse_string_body_before(s.drop_first(), t);
    }
}

/// A number ends where no character of a number follows.
proof fn lemma_number_run_before(s: Seq<char>, t: Seq<char>)
    requires
        number_run(s) == s.len() && t.len() > 0 ==> !is_number_char(t[0]),
    ensures
        number_run(s + t) == number_run(s),
    decreases s.len(),
{
    if s.len() == 0 {
        assert(s + t =~= t);
    } else if is_number_char(s[0]) {
        lemma_number_run_before(s.drop_first(), t);
        assert((s + t).drop_first() =~= s.drop_first() + t);
    }
}

/// A value is read whatever stands behind it, unless a number would go on.
pub proof fn lemma_parse_value_before(text: Seq<char>, t: Seq<char>)
    requires
        parse_value(text).0 is Ok,
        parse_value(text).0->Ok_0 is Number && parse_value(text).1.len() == 0 && t.len() > 0
            ==> !is_number_char(t[0]),
    ensures
        parse_value(text + t) == (parse_value(text).0, parse_value(text).1 + t),
    decreases text.len(), 0nat,
{
    lemma_skip_ws(text);
    lemma_skip_before(text, t);
    let s = skip_ws(text);
    let longer = s + t;
    assert(longer[0] == s[0]);
    assert(longer.drop_first() =~= s.drop_first() + t);
    if s[0] == 'n' {
        lemma_match_word_before(s, "null"@, t);
    } else if s[0] == 't' {
        lemma_match_word_before(s, "true"@, t);
    } else if s[0] == 'f' {
        lemma_match_word_before(s, "false"@, t);
    } else if s[0] == '"' {
        lemma_parse_string_body_before(s.drop_first(), t);
    } else if s[0] == '[' {
        lemma_parse_items_before(s.drop_first(), seq![], t);
    } else if s[0] == '{' {
        lemma_parse_fields_before(s.drop_first(), Map::empty(), t);
    } else {
        lemma_number_run(s);
        lemma_number_run_before(s, t);
        let n = number_run(s) as int;
        assert(longer.take(n) =~= s.take(n));
        assert(longer.skip(n) =~= s.skip(n) + t);
    }
}

/// The items of an array are read whatever stands behind it.
proof fn lemma_parse_items_before(text: Seq<char>, items: Seq<JsonModel>, t: Seq<char>)
    requires
        parse_items(text, items).0 is Ok,
    ensures
        parse_items(text + t, items) == (parse_items(text, items).0, parse_items(text, items).1
            + t),
    decreases text.len(), 1nat,
{
    lemma_skip_ws(text);
    let s = skip_ws(text);
    if s.len() > 0 {
        lemma_skip_before(text, t);
        let longer = s + t;
        assert(longer[0] == s[0]);
        if s[0] == ']' {
            assert(longer.drop_first() =~= s.drop_first() + t);
        } else {
            lemma_parse_value_shrinks(s);
            let r0 = parse_value(s).1;
            lemma_skip_ws(r0);
            let r = skip_ws(r0);
            lemma_parse_value_before(s, t);
            lemma_skip_before(r0, t);
            assert((r + t)[0] == r[0]);
            assert((r + t).drop_first() =~= r.drop_first() + t);
            if r[0] == ',' {
                lemma_parse_items_before(r.drop_first(), items.push(parse_value(s).0->Ok_0), t);
            }
        }
    }
}

/// The fields of an object are read whatever stands behind it.
proof fn lemma_parse_fields_before(
    text: Seq<char>,
    fields: Map<Seq<char>, JsonModel>,
    t: Seq<char>,
)
    requires
        parse_fields(text, fields).0 is Ok,
    ensures
        parse_fields(text + t, fields) == (parse_fields(text, fields).0, parse_fields(
            text,
            fields,
        ).1 + t),
    decreases text.len(), 1nat,
{
    lemma_skip_ws(text);
    let s = skip_ws(text);
    if s.len() > 0 {
        lemma_skip_before(text, t);
        let longer = s + t;
        assert(longer[0] == s[0]);
        assert(longer.drop_first() =~= s.drop_first() + t);
        if s[0] != '}' {
            lemma_parse_string_body_shrinks(s.drop_first());
            lemma_parse_string_body_before(s.drop_first(), t);
            let key = parse_string(s).0->Ok_0;
            let r1 = parse_string(s).1;
            lemma_skip_ws(r1);
            lemma_skip_before(r1, t);
            let colon = skip_ws(r1);
            assert((colon + t)[0] == colon[0]);
            assert((colon + t).drop_first() =~= colon.drop_first() + t);
            let r2 = colon.drop_first();
            lemma_parse_value_shrinks(r2);
            let r3 = parse_value(r2).1;
            lemma_skip_ws(r3);
            let r = skip_ws(r3);
            lemma_parse_value_before(r2, t);
            lemma_skip_before(r3, t);
            assert((r + t)[0] == r[0]);
            assert((r + t).drop_first() =~= r.drop_first() + t);
            if r[0] == ',' {
                lemma_parse_fields_before(
                    r.drop_first(),
                    fields.insert(key, parse_value(r2).0->Ok_0),
                    t,
                );
            }
        }
    }
}

/// The items of an array make up an array.
proof fn lemma_items_value(text: Seq<char>, items: Seq<JsonModel>)
    requires
        parse_items(text, items).0 is Ok,
    ensures
        parse_items(text, items).0->Ok_0 is Array,
    decreases text.len(),
{
    lemma_skip_ws(text);
    let s = skip_ws(text);
    if s.len() > 0 && s[0] == ']' {
    } else {
        lemma_parse_value_shrinks(s);
        let r = skip_ws(parse_value(s).1);
        lemma_skip_ws(parse_value(s).1);
        if r[0] == ',' {
            lemma_items_value(r.drop_first(), items.push(parse_value(s).0->Ok_0));
        }
    }
}

/// The fields of an object make up an object.
proof fn lemma_fields_value(text: Seq<char>, fields: Map<Seq<char>, JsonModel>)
    requires
        parse_fields(text, fields).0 is Ok,
    ensures
        parse_fields(text, fields).0->Ok_0 is Object,
    decreases text.len(),
{
    lemma_skip_ws(text);
    let s = skip_ws(text);
    if s.len() > 0 && s[0] == '}' {
    } else {
        lemma_parse_string_body_shrinks(s.drop_first());
        let key = parse_string(s).0->Ok_0;
        let r1 = parse_string(s).1;
        lemma_skip_ws(r1);
        let r2 = skip_ws(r1).drop_first();
        lemma_parse_value_shrinks(r2);
        let r3 = parse_value(r2).1;
        lemma_skip_ws(r3);
        let r = skip_ws(r3);
        if r[0] == ',' {
            lemma_fields_value(r.drop_first(), fields.insert(key, parse_value(r2).0->Ok_0));
        }
    }
}

/// A number is read by its run of characters.
proof fn lemma_number_value(text: Seq<char>)
    requires
        parse_value(text).0 is Ok,
        parse_value(text).0->Ok_0 is Number,
    ensures
        skip_ws(text).len() > 0,
        parse_value(text) == parse_number(skip_ws(text)),
{
    let s = skip_ws(text);
    if s[0] == '[' {
        lemma_items_value(s.drop_first(), seq![]);
    } else if s[0] == '{' {
        lemma_fields_value(s.drop_first(), Map::empty());
    }
}

/// White space around a text does not change what it stands for.
pub proof fn lemma_surrounding_ws(before: Seq<char>, text: Seq<char>, after: Seq<char>)
    requires
        json_value(text) is Ok,
        all_ws(before),
        all_ws(after),
    ensures
        json_value(before + text + after) == json_value(text),
{
    let r = parse_value(text).1;
    if after.len() > 0 {
        assert(is_ws(after[0]));
    }
    lemma_parse_value_before(text, after);
    lemma_skip_front(before, text + after);
    assert(before + text + after =~= before + (text + after));
    lemma_skip_all(r);
    lemma_skip_front(r, after);
    lemma_skip_front(after, seq![]);
    assert(after + Seq::<char>::empty() =~= after);
}

/// Whether a text is a number that characters behind it could go on with.
pub open spec fn open_number(text: Seq<char>) -> bool {
    json_value(text) is Ok && json_value(text)->Ok_0 is Number && is_number_char(text.last())
}

/// Whatever stands behind a text, white space apart, is refused, unless it goes on with a
/// number.
pub proof fn lemma_trailing_input(text: Seq<char>, ws: Seq<char>, more: Seq<char>)
    requires
        json_value(text) is Ok,
        all_ws(ws),
        more.len() > 0,
        !is_ws(more[0]),
        open_number(text) && ws.len() == 0 ==> !is_number_char(more[0]),
    ensures
        json_value(text + ws + more) == Err::<JsonModel, Seq<char>>("trailing JSON input"@),
{
    let s = skip_ws(text);
    let (value, r) = parse_value(text);
    lemma_skip_ws(text);
    if value->Ok_0 is Number && r.len() == 0 {
        lemma_number_value(text);
        lemma_number_run(s);
        assert(text.last() == s.last());
        assert(is_number_char(s[s.len() - 1]));
    }
    if ws.len() > 0 {
        assert(is_ws(ws[0]));
        assert((ws + more)[0] == ws[0]);
    } else {
        assert((ws + more)[0] == more[0]);
    }
    lemma_parse_value_before(text, ws + more);
    assert(text + ws + more =~= text + (ws + more));
    lemma_skip_all(r);
    lemma_skip_front(r, ws + more);
    lemma_skip_front(ws, more);
}

/// A backslash and a letter stand for one character of a string; a backslash and a character
/// that means nothing behind it are refused.
pub proof fn lemma_escape_letters(c: char, rest: Seq<char>)
    ensures
        ({
            let out = parse_string_body(seq!['\\', c] + rest);
            let plain = parse_string_body(rest);
            &&& c == '"' || c == '\\' || c == '/' ==> out == with_front(seq![c], plain)
            &&& c == 'b' ==> out == with_front(seq!['\u{8}'], plain)
            &&& c == 'f' ==> out == with_front(seq!['\u{c}'], plain)
            &&& c == 'n' ==> out == with_front(seq!['\n'], plain)
            &&& c == 'r' ==> out == with_front(seq!['\r'], plain)
            &&& c == 't' ==> out == with_front(seq!['\t'], plain)
            &&& !(c == '"' || c == '\\' || c == '/' || c == 'b' || c == 'f' || c == 'n' || c == 'r'
                || c == 't' || c == 'u') ==> out.0 == Err::<Seq<char>, Seq<char>>(
                "invalid escape "@.push(c),
            )
        }),
{
    let s = seq!['\\', c] + rest;
    assert(s.drop_first().drop_first() =~= rest);
}

/// A character as a hexadecimal digit of a value, in either case.
pub open spec fn hex_digit(c: char, n: int) -> bool {
    (0 <= n <= 9 && c as int == '0' as int + n) || (10 <= n <= 15 && (c as int == 'a' as int + n
        - 10 || c as int == 'A' as int + n - 10))
}

/// A backslash, `u` and four hexadecimal digits stand for the character with that code, where
/// there is one, and for nothing otherwise.
pub proof fn lemma_escape_code(
    d: Seq<char>,
    n: (int, int, int, int),
    rest: Seq<char>,
)
    requires
        d.len() == 4,
        hex_digit(d[0], n.0),
        hex_digit(d[1], n.1),
        hex_digit(d[2], n.2),
        hex_digit(d[3], n.3),
    ensures
        ({
            let code = 4096 * n.0 + 256 * n.1 + 16 * n.2 + n.3;
            let out = parse_string_body(seq!['\\', 'u'] + d + rest);
            let plain = parse_string_body(rest);
            &&& code <= 0xd7ff || 0xe000 <= code ==> out == with_front(seq![code as char], plain)
            &&& 0xd800 <= code <= 0xdfff ==> out == with_front(seq![], plain)
        }),
{
    let s = seq!['\\', 'u'] + d + rest;
    let t = s.drop_first().drop_first();
    assert(t =~= d + rest);
    assert(t.drop_first().drop_first().drop_first().drop_first() =~= rest);
    reveal_with_fuel(parse_hex, 5);
}

/// What is no value is refused: a text of white space only, and one that begins with a
/// character that begins no value.
pub proof fn lemma_no_value(text: Seq<char>)
    ensures
        all_ws(text) ==> json_value(text) == Err::<JsonModel, Seq<char>>("invalid JSON value"@),
        text.len() > 0 && !is_ws(text[0]) && !(text[0] == 'n' || text[0] == 't' || text[0] == 'f'
            || text[0] == '"' || text[0] == '[' || text[0] == '{' || text[0] == '-' || '0'
            <= text[0] <= '9') ==> json_value(text) == Err::<JsonModel, Seq<char>>(
            "invalid JSON value"@,
        ),
{
    if all_ws(text) {
        lemma_skip_front(text, seq![]);
        assert(text + Seq::<char>::empty() =~= text);
    }
}

} // verus!
