//! The part of TOML that the site configuration is written in.

use crate::outcome;
use crate::text;
use crate::text::{
    chars_of, contains_char, lines, owned, replace_pair, string_of_range, trim,
};
use vstd::prelude::*;

verus! {

// ---------------------------------------------------------------------------
// Lines
// ---------------------------------------------------------------------------

/// Whether a line opens an array that it does not close.
pub open spec fn opens_array(line: Seq<char>) -> bool {
    line.contains('=') && line.contains('[') && !line.contains(']')
}

/// The lines with every array on one line, trimmed and without the empty ones.
pub open spec fn logical(lines: Seq<Seq<char>>) -> Seq<Seq<char>>
    decreases lines.len(),
{
    if lines.len() == 0 {
        seq![]
    } else {
        let line = text::trimmed(lines[0]);
        if line.len() == 0 {
            logical(lines.skip(1))
        } else if opens_array(line) {
            logical_open(line, lines.skip(1))
        } else {
            seq![line] + logical(lines.skip(1))
        }
    }
}

/// The same where an array is open, with its text so far. One that no line closes is a line
/// of its own.
pub open spec fn logical_open(sofar: Seq<char>, lines: Seq<Seq<char>>) -> Seq<Seq<char>>
    decreases lines.len(),
{
    if lines.len() == 0 {
        seq![sofar]
    } else {
        let line = text::trimmed(lines[0]);
        let joined = sofar + seq![' '] + line;
        if line.contains(']') {
            seq![text::trimmed(joined)] + logical(lines.skip(1))
        } else {
            logical_open(joined, lines.skip(1))
        }
    }
}

/// The lines of a text, with every array on one line.
pub fn logical_toml_lines(raw: &str) -> (out: Vec<String>)
    ensures
        text::texts(out@) == logical(text::lines_of(raw@)),
{
    let all = lines(raw);
    let ghost model = text::lines_of(raw@);
    let mut out: Vec<String> = Vec::new();
    let mut current = owned("");
    let mut in_array = false;
    let ghost total = logical(model);
    proof {
        assert(model.skip(0) =~= model);
        assert(text::texts(out@) + logical(model.skip(0)) =~= total);
    }
    for i in 0..all.len()
        invariant
            text::texts(all@) == model,
            total == logical(model),
            in_array ==> text::texts(out@) + logical_open(current@, model.skip(i as int)) == total,
            !in_array ==> text::texts(out@) + logical(model.skip(i as int)) == total,
    {
        let ghost before = text::texts(out@);
        let line = trim(all[i].as_str());
        assert(model[i as int] == all@[i as int]@);
        assert(model.skip(i as int)[0] == model[i as int]);
        assert(model.skip(i as int).skip(1) =~= model.skip(i + 1));
        if in_array {
            let mut joined = current;
            joined.push(' ');
            joined.append(line.as_str());
            assert(joined@ == current@ + seq![' '] + line@);
            if contains_char(line.as_str(), ']') {
                let whole = trim(joined.as_str());
                out.push(whole);
                current = owned("");
                in_array = false;
                assert(text::texts(out@) =~= before.push(whole@));
                assert(before + (seq![whole@] + logical(model.skip(i + 1))) =~= text::texts(out@)
                    + logical(model.skip(i + 1)));
            } else {
                current = joined;
            }
        } else if line.as_str().is_empty() {
        } else if contains_char(line.as_str(), '=') && contains_char(line.as_str(), '[')
            && !contains_char(line.as_str(), ']') {
            current = line;
            in_array = true;
        } else {
            let ghost text = line@;
            out.push(line);
            assert(text::texts(out@) =~= before.push(text));
            assert(before + (seq![text] + logical(model.skip(i + 1))) =~= text::texts(out@)
                + logical(model.skip(i + 1)));
        }
    }
    let ghost before = text::texts(out@);
    if in_array {
        let ghost text = current@;
        out.push(current);
        assert(text::texts(out@) =~= before + seq![text]);
    } else {
        assert(before + Seq::<Seq<char>>::empty() =~= before);
    }
    out
}

// ---------------------------------------------------------------------------
// Strings
// ---------------------------------------------------------------------------

/// A text with its escapes replaced: first those of quotes, then those of line breaks, then
/// those of backslashes.
pub open spec fn unescaped(s: Seq<char>) -> Seq<char> {
    text::with_pair_replaced(
        text::with_pair_replaced(text::with_pair_replaced(s, '\\', '"', '"'), '\\', 'n', '\n'),
        '\\',
        '\\',
        '\\',
    )
}

/// Replaces the escapes of quotes, line breaks and backslashes, each in its turn.
pub fn unescape_json_string(s: &str) -> (out: String)
    ensures
        out@ == unescaped(s@),
{
    let quotes = replace_pair(s, '\\', '"', '"');
    let breaks = replace_pair(quotes.as_str(), '\\', 'n', '\n');
    replace_pair(breaks.as_str(), '\\', '\\', '\\')
}

/// Whether a text starts and ends with the given characters, which do not overlap.
pub open spec fn enclosed(s: Seq<char>, open: char, close: char) -> bool {
    s.len() >= 2 && s[0] == open && s.last() == close
}

/// What stands between the first character and the last one.
pub open spec fn inner(s: Seq<char>) -> Seq<char> {
    s.subrange(1, s.len() - 1)
}

/// The value of a string in quotes.
pub open spec fn toml_string(value: Seq<char>) -> Result<Seq<char>, Seq<char>> {
    let v = text::trimmed(value);
    if enclosed(v, '"', '"') {
        Ok(unescaped(inner(v)))
    } else {
        Err("expected TOML string, got "@ + v)
    }
}

/// Reads a string in quotes.
pub fn parse_toml_string(value: &str) -> (out: Result<String, String>)
    ensures
        outcome::text_outcome(out) == toml_string(value@),
{
    let v = trim(value);
    let chars = chars_of(v.as_str());
    if chars.len() >= 2 && chars[0] == '"' && chars[chars.len() - 1] == '"' {
        let between = string_of_range(chars.as_slice(), 1, chars.len() - 1);
        Ok(unescape_json_string(between.as_str()))
    } else {
        let mut message = owned("expected TOML string, got ");
        message.append(v.as_str());
        Err(message)
    }
}

// ---------------------------------------------------------------------------
// Arrays
// ---------------------------------------------------------------------------

/// The strings in quotes that a text holds, outside of any.
pub open spec fn quoted(s: Seq<char>) -> Seq<Seq<char>>
    decreases s.len(),
{
    if s.len() == 0 {
        seq![]
    } else if s[0] == '"' {
        quoted_open(seq![], s.skip(1))
    } else {
        quoted(s.skip(1))
    }
}

/// The same inside of one, with its text so far. A backslash takes the next character as it
/// is; a string that no quote closes is dropped.
pub open spec fn quoted_open(sofar: Seq<char>, s: Seq<char>) -> Seq<Seq<char>>
    decreases s.len(),
{
    if s.len() == 0 {
        seq![]
    } else if s[0] == '\\' {
        if s.len() == 1 {
            seq![]
        } else {
            quoted_open(sofar.push(s[1]), s.skip(2))
        }
    } else if s[0] == '"' {
        seq![sofar] + quoted(s.skip(1))
    } else {
        quoted_open(sofar.push(s[0]), s.skip(1))
    }
}

/// The value of an array of strings.
pub open spec fn toml_array(value: Seq<char>) -> Result<Seq<Seq<char>>, Seq<char>> {
    let v = text::trimmed(value);
    if enclosed(v, '[', ']') {
        Ok(quoted(inner(v)))
    } else {
        Err("expected TOML string array, got "@ + v)
    }
}

/// The strings in quotes among characters.
fn quoted_strings(chars: &[char]) -> (out: Vec<String>)
    ensures
        text::texts(out@) == quoted(chars@),
{
    let mut out: Vec<String> = Vec::new();
    let mut cur = owned("");
    let mut in_str = false;
    let mut i: usize = 0;
    let ghost total = quoted(chars@);
    proof {
        reveal_strlit("");
        assert(chars@.skip(0) =~= chars@);
        assert(text::texts(out@) + quoted(chars@.skip(0)) =~= total);
    }
    while i < chars.len()
        invariant
            i <= chars@.len(),
            total == quoted(chars@),
            !in_str ==> cur@.len() == 0,
            in_str ==> text::texts(out@) + quoted_open(cur@, chars@.skip(i as int)) == total,
            !in_str ==> text::texts(out@) + quoted(chars@.skip(i as int)) == total,
        decreases chars.len() - i,
    {
        let ghost before = text::texts(out@);
        let ghost rest = chars@.skip(i as int);
        let c = chars[i];
        assert(rest[0] == c);
        assert(rest.skip(1) =~= chars@.skip(i + 1));
        i += 1;
        if in_str && c == '\\' {
            if i < chars.len() {
                assert(rest[1] == chars@[i as int]);
                assert(rest.skip(2) =~= chars@.skip(i + 1));
                cur.push(chars[i]);
                i += 1;
            } else {
                assert(quoted_open(cur@, chars@.skip(i as int)) =~= seq![]);
            }
        } else if c == '"' {
            if in_str {
                let ghost text = cur@;
                out.push(cur);
                cur = owned("");
                proof {
                    reveal_strlit("");
                }
                assert(text::texts(out@) =~= before.push(text));
                assert(before + (seq![text] + quoted(chars@.skip(i as int))) =~= text::texts(out@)
                    + quoted(chars@.skip(i as int)));
            } else {
                assert(cur@ =~= seq![]);
            }
            in_str = !in_str;
        } else if in_str {
            cur.push(c);
        }
    }
    assert(text::texts(out@) + Seq::<Seq<char>>::empty() =~= text::texts(out@));
    out
}

/// Reads an array of strings.
pub fn parse_toml_array(value: &str) -> (out: Result<Vec<String>, String>)
    ensures
        outcome::texts_outcome(out) == toml_array(value@),
{
    let v = trim(value);
    let chars = chars_of(v.as_str());
    if chars.len() >= 2 && chars[0] == '[' && chars[chars.len() - 1] == ']' {
        let between = string_of_range(chars.as_slice(), 1, chars.len() - 1);
        let inner_chars = chars_of(between.as_str());
        Ok(quoted_strings(inner_chars.as_slice()))
    } else {
        let mut message = owned("expected TOML string array, got ");
        message.append(v.as_str());
        Err(message)
    }
}

// ---------------------------------------------------------------------------
// Laws
// ---------------------------------------------------------------------------

/// Joining the lines of arrays drops only white space, and no line is empty.
proof fn lemma_logical(lines: Seq<Seq<char>>)
    ensures
        text::unspaced(text::run_together(logical(lines))) == text::unspaced(
            text::run_together(lines),
        ),
        forall|i: int| 0 <= i < logical(lines).len() ==> (#[trigger] logical(lines)[i]).len() > 0,
    decreases lines.len(),
{
    if lines.len() > 0 {
        let line = text::trimmed(lines[0]);
        let rest = lines.skip(1);
        text::lemma_unspaced_trimmed(lines[0]);
        text::lemma_unspaced_add(lines[0], text::run_together(rest));
        if line.len() == 0 {
            lemma_logical(rest);
            text::lemma_unspaced_nothing();
            assert(line =~= seq![]);
            assert(text::unspaced(lines[0]) + text::unspaced(text::run_together(rest))
                =~= text::unspaced(text::run_together(rest)));
        } else if opens_array(line) {
            lemma_kept(line, '=');
            lemma_logical_open(line, rest);
        } else {
            let later = logical(rest);
            lemma_logical(rest);
            assert((seq![line] + later).skip(1) =~= later);
            text::lemma_unspaced_add(line, text::run_together(later));
        }
    }
}

/// A text that holds a character other than white space is not empty without white space.
proof fn lemma_kept(s: Seq<char>, c: char)
    requires
        s.contains(c),
        !text::is_space(c),
    ensures
        text::unspaced(s).len() > 0,
{
    let i = choose|i: int| 0 <= i < s.len() && s[i] == c;
    s.lemma_filter_contains(|c: char| !text::is_space(c), i);
}

/// The same where an array is open.
proof fn lemma_logical_open(sofar: Seq<char>, lines: Seq<Seq<char>>)
    requires
        text::unspaced(sofar).len() > 0,
    ensures
        text::unspaced(text::run_together(logical_open(sofar, lines))) == text::unspaced(sofar)
            + text::unspaced(text::run_together(lines)),
        forall|i: int|
            0 <= i < logical_open(sofar, lines).len() ==> (#[trigger] logical_open(
                sofar,
                lines,
            )[i]).len() > 0,
    decreases lines.len(),
{
    text::lemma_unspaced_nothing();
    if lines.len() == 0 {
        if sofar.len() == 0 {
            assert(sofar =~= seq![]);
        }
        text::lemma_run_alone(sofar);
        assert(text::unspaced(sofar) + Seq::<char>::empty() =~= text::unspaced(sofar));
    } else {
        let line = text::trimmed(lines[0]);
        let rest = lines.skip(1);
        let joined = sofar + seq![' '] + line;
        text::lemma_unspaced_trimmed(lines[0]);
        text::lemma_unspaced_add(lines[0], text::run_together(rest));
        text::lemma_unspaced_add(sofar + seq![' '], line);
        text::lemma_unspaced_add(sofar, seq![' ']);
        text::lemma_unspaced_char(' ');
        assert(text::unspaced(joined) =~= text::unspaced(sofar) + text::unspaced(lines[0]));
        if line.contains(']') {
            let whole = text::trimmed(joined);
            let later = logical(rest);
            text::lemma_unspaced_trimmed(joined);
            if whole.len() == 0 {
                assert(whole =~= seq![]);
            }
            lemma_logical(rest);
            assert((seq![whole] + later).skip(1) =~= later);
            text::lemma_unspaced_add(whole, text::run_together(later));
            assert(text::unspaced(joined) + text::unspaced(text::run_together(rest))
                =~= text::unspaced(sofar) + (text::unspaced(lines[0]) + text::unspaced(
                text::run_together(rest),
            )));
        } else {
            lemma_logical_open(joined, rest);
            assert(text::unspaced(joined) + text::unspaced(text::run_together(rest))
                =~= text::unspaced(sofar) + (text::unspaced(lines[0]) + text::unspaced(
                text::run_together(rest),
            )));
        }
    }
}

/// The lines with every array on one line hold all of the text but white space, and none of
/// them is empty.
pub proof fn lemma_logical_lines(raw: Seq<char>)
    ensures
        text::unspaced(text::run_together(logical(text::lines_of(raw)))) == text::unspaced(raw),
        forall|i: int|
            0 <= i < logical(text::lines_of(raw)).len() ==> (#[trigger] logical(
                text::lines_of(raw),
            )[i]).len() > 0,
{
    text::lemma_unspaced_lines(raw);
    lemma_logical(text::lines_of(raw));
}

/// A text that neither starts nor ends with white space is not trimmed.
proof fn lemma_not_trimmed(s: Seq<char>)
    requires
        s.len() > 0,
        !text::is_space(s[0]),
        !text::is_space(s.last()),
    ensures
        text::trimmed(s) == s,
{
}

/// Where there is no backslash, nothing is replaced.
proof fn lemma_no_escapes(s: Seq<char>, b: char, to: char)
    requires
        !s.contains('\\'),
    ensures
        text::with_pair_replaced(s, '\\', b, to) == s,
    decreases s.len(),
{
    if s.len() > 0 {
        assert(s.contains(s[0]));
        let rest = s.drop_first();
        assert forall|c: char| rest.contains(c) implies s.contains(c) by {
            let i = choose|i: int| 0 <= i < rest.len() && rest[i] == c;
            assert(s[i + 1] == c);
        }
        lemma_no_escapes(rest, b, to);
        assert(seq![s[0]] + rest =~= s);
    }
}

/// A string in quotes without backslashes stands for itself.
pub proof fn lemma_plain_string(s: Seq<char>)
    requires
        !s.contains('\\'),
    ensures
        toml_string(seq!['"'] + s + seq!['"']) == Ok::<Seq<char>, Seq<char>>(s),
{
    let v = seq!['"'] + s + seq!['"'];
    lemma_not_trimmed(v);
    assert(inner(v) =~= s);
    lemma_no_escapes(s, '"', '"');
    lemma_no_escapes(s, 'n', '\n');
    lemma_no_escapes(s, '\\', '\\');
}

/// A text with a backslash before every quote and every backslash.
pub open spec fn escaped(s: Seq<char>) -> Seq<char>
    decreases s.len(),
{
    if s.len() == 0 {
        seq![]
    } else if s[0] == '"' || s[0] == '\\' {
        seq!['\\', s[0]] + escaped(s.skip(1))
    } else {
        seq![s[0]] + escaped(s.skip(1))
    }
}

/// A text without quotes and backslashes needs no escapes.
pub proof fn lemma_escaped_plain(s: Seq<char>)
    requires
        forall|i: int| 0 <= i < s.len() ==> #[trigger] s[i] != '"' && s[i] != '\\',
    ensures
        escaped(s) == s,
    decreases s.len(),
{
    if s.len() > 0 {
        let later = s.skip(1);
        assert forall|i: int| 0 <= i < later.len() implies #[trigger] later[i] != '"' && later[i]
            != '\\' by {
            assert(s[i + 1] != '"');
        }
        lemma_escaped_plain(later);
        assert(s[0] != '"');
        assert(seq![s[0]] + later =~= s);
    }
}

/// A text with every backslash doubled.
spec fn doubled(s: Seq<char>) -> Seq<char>
    decreases s.len(),
{
    if s.len() == 0 {
        seq![]
    } else if s[0] == '\\' {
        seq!['\\', '\\'] + doubled(s.skip(1))
    } else {
        seq![s[0]] + doubled(s.skip(1))
    }
}

/// Nothing is replaced at a character that does not start the pair.
proof fn lemma_pair_passed(c: char, s: Seq<char>, a: char, b: char, to: char)
    requires
        c == a && s.len() > 0 ==> s[0] != b,
    ensures
        text::with_pair_replaced(seq![c] + s, a, b, to) == seq![c] + text::with_pair_replaced(
            s,
            a,
            b,
            to,
        ),
{
    assert((seq![c] + s).drop_first() =~= s);
}

/// A pair at the start is replaced.
proof fn lemma_pair_taken(s: Seq<char>, a: char, b: char, to: char)
    ensures
        text::with_pair_replaced(seq![a, b] + s, a, b, to) == seq![to] + text::with_pair_replaced(
            s,
            a,
            b,
            to,
        ),
{
    assert((seq![a, b] + s).skip(2) =~= s);
}

/// The quotes of an escaped text are restored first.
proof fn lemma_quotes_restored(s: Seq<char>)
    ensures
        text::with_pair_replaced(escaped(s), '\\', '"', '"') == doubled(s),
    decreases s.len(),
{
    if s.len() > 0 {
        let later = escaped(s.skip(1));
        lemma_quotes_restored(s.skip(1));
        assert(later.len() > 0 ==> later[0] != '"');
        if s[0] == '"' {
            lemma_pair_taken(later, '\\', '"', '"');
        } else if s[0] == '\\' {
            assert(escaped(s) =~= seq!['\\'] + (seq!['\\'] + later));
            lemma_pair_passed('\\', later, '\\', '"', '"');
            lemma_pair_passed('\\', seq!['\\'] + later, '\\', '"', '"');
            assert(doubled(s) =~= seq!['\\'] + (seq!['\\'] + doubled(s.skip(1))));
        } else {
            lemma_pair_passed(s[0], later, '\\', '"', '"');
        }
    }
}

/// Whether no backslash stands right before an `n`.
pub open spec fn names_no_break(s: Seq<char>) -> bool {
    forall|i: int| 0 <= i < s.len() - 1 && #[trigger] s[i] == '\\' ==> s[i + 1] != 'n'
}

/// No line break is read from doubled backslashes.
proof fn lemma_no_breaks(s: Seq<char>)
    requires
        names_no_break(s),
    ensures
        text::with_pair_replaced(doubled(s), '\\', 'n', '\n') == doubled(s),
    decreases s.len(),
{
    if s.len() > 0 {
        let rest = s.skip(1);
        let later = doubled(rest);
        assert forall|i: int| 0 <= i < rest.len() - 1 && #[trigger] rest[i] == '\\' implies rest[i
            + 1] != 'n' by {
            assert(s[i + 1] == '\\');
        }
        lemma_no_breaks(rest);
        assert(later.len() > 0 ==> rest.len() > 0 && later[0] == rest[0]);
        if s[0] == '\\' {
            assert(later.len() > 0 ==> later[0] != 'n');
            assert(doubled(s) =~= seq!['\\'] + (seq!['\\'] + later));
            lemma_pair_passed('\\', later, '\\', 'n', '\n');
            lemma_pair_passed('\\', seq!['\\'] + later, '\\', 'n', '\n');
        } else {
            lemma_pair_passed(s[0], later, '\\', 'n', '\n');
        }
    }
}

/// The backslashes are restored last.
proof fn lemma_backslashes_restored(s: Seq<char>)
    ensures
        text::with_pair_replaced(doubled(s), '\\', '\\', '\\') == s,
    decreases s.len(),
{
    if s.len() > 0 {
        let later = doubled(s.skip(1));
        lemma_backslashes_restored(s.skip(1));
        if s[0] == '\\' {
            lemma_pair_taken(later, '\\', '\\', '\\');
        } else {
            lemma_pair_passed(s[0], later, '\\', '\\', '\\');
        }
        assert(seq![s[0]] + s.skip(1) =~= s);
    }
}

/// A string that was escaped and put in quotes is read back, unless a backslash of it stands
/// right before an `n`: that one is taken for a line break.
pub proof fn lemma_string_read_back(s: Seq<char>)
    requires
        names_no_break(s),
    ensures
        toml_string(seq!['"'] + escaped(s) + seq!['"']) == Ok::<Seq<char>, Seq<char>>(s),
{
    let v = seq!['"'] + escaped(s) + seq!['"'];
    lemma_not_trimmed(v);
    assert(inner(v) =~= escaped(s));
    lemma_quotes_restored(s);
    lemma_no_breaks(s);
    lemma_backslashes_restored(s);
}

/// Escaped texts in quotes with commas between them.
pub open spec fn comma_list(items: Seq<Seq<char>>) -> Seq<char>
    decreases items.len(),
{
    if items.len() == 0 {
        seq![]
    } else if items.len() == 1 {
        seq!['"'] + escaped(items[0]) + seq!['"']
    } else {
        seq!['"'] + escaped(items[0]) + seq!['"'] + seq![',', ' '] + comma_list(items.skip(1))
    }
}

/// An escaped text in quotes is read up to its closing quote.
proof fn lemma_quoted_open(sofar: Seq<char>, item: Seq<char>, rest: Seq<char>)
    ensures
        quoted_open(sofar, escaped(item) + (seq!['"'] + rest)) == seq![sofar + item] + quoted(rest),
    decreases item.len(),
{
    let s = escaped(item) + (seq!['"'] + rest);
    if item.len() == 0 {
        assert(s.skip(1) =~= rest);
        assert(sofar + item =~= sofar);
    } else {
        let later = escaped(item.skip(1)) + (seq!['"'] + rest);
        lemma_quoted_open(sofar.push(item[0]), item.skip(1), rest);
        assert(sofar.push(item[0]) + item.skip(1) =~= sofar + item);
        if item[0] == '"' || item[0] == '\\' {
            assert(s.skip(2) =~= later);
        } else {
            assert(s.skip(1) =~= later);
        }
    }
}

/// The items of a list are read one after another.
proof fn lemma_comma_list(items: Seq<Seq<char>>)
    ensures
        quoted(comma_list(items)) == items,
    decreases items.len(),
{
    if items.len() == 0 {
        assert(items =~= seq![]);
    } else {
        let item = items[0];
        let rest = if items.len() == 1 {
            seq![]
        } else {
            seq![',', ' '] + comma_list(items.skip(1))
        };
        let s = comma_list(items);
        assert(s =~= seq!['"'] + (escaped(item) + (seq!['"'] + rest)));
        assert(s.skip(1) =~= escaped(item) + (seq!['"'] + rest));
        lemma_quoted_open(seq![], item, rest);
        assert(Seq::<char>::empty() + item =~= item);
        if items.len() == 1 {
            assert(seq![item] + Seq::<Seq<char>>::empty() =~= items);
        } else {
            let later = items.skip(1);
            lemma_comma_list(later);
            let blank = rest.skip(1);
            assert(blank.skip(1) =~= comma_list(later));
            assert(quoted(rest) == quoted(blank));
            assert(quoted(blank) == quoted(comma_list(later)));
            assert(seq![item] + later =~= items);
        }
    }
}

/// An array of any strings, escaped and put in quotes, is read back.
pub proof fn lemma_array_read_back(items: Seq<Seq<char>>)
    ensures
        toml_array(seq!['['] + comma_list(items) + seq![']']) == Ok::<Seq<Seq<char>>, Seq<char>>(
            items,
        ),
{
    let v = seq!['['] + comma_list(items) + seq![']'];
    lemma_not_trimmed(v);
    assert(inner(v) =~= comma_list(items));
    lemma_comma_list(items);
}

/// A line that is no array over several lines stands for itself without the white space
/// around it, and a line of white space for nothing.
pub proof fn lemma_plain_line(line: Seq<char>, rest: Seq<Seq<char>>)
    requires
        !(line.contains('[') && line.contains('=')) || line.contains(']'),
    ensures
        text::trimmed(line).len() > 0 ==> logical(seq![line] + rest) == seq![text::trimmed(line)]
            + logical(rest),
        text::trimmed(line).len() == 0 ==> logical(seq![line] + rest) == logical(rest),
        logical(seq![]).len() == 0,
{
    let t = text::trimmed(line);
    assert((seq![line] + rest).skip(1) =~= rest);
    lemma_trimmed_contains(line, '[');
    lemma_trimmed_contains(line, ']');
    lemma_trimmed_contains(line, '=');
}

/// Trimming drops no character but white space.
proof fn lemma_trimmed_contains(s: Seq<char>, c: char)
    requires
        !text::is_space(c),
    ensures
        text::trimmed(s).contains(c) == s.contains(c),
{
    let keep = |x: char| !text::is_space(x);
    text::lemma_unspaced_trimmed(s);
    let t = text::trimmed(s);
    if s.contains(c) {
        let i = choose|i: int| 0 <= i < s.len() && s[i] == c;
        s.lemma_filter_contains(keep, i);
        t.lemma_filter_contains_rev(keep, c);
    }
    if t.contains(c) {
        let i = choose|i: int| 0 <= i < t.len() && t[i] == c;
        t.lemma_filter_contains(keep, i);
        s.lemma_filter_contains_rev(keep, c);
    }
}

/// Lines without the white space around them, each with a blank before it.
pub open spec fn spaced(lines: Seq<Seq<char>>) -> Seq<char>
    decreases lines.len(),
{
    if lines.len() == 0 {
        seq![]
    } else {
        seq![' '] + text::trimmed(lines[0]) + spaced(lines.skip(1))
    }
}

/// An array over several lines stands for one line, up to and with the one that closes it.
pub proof fn lemma_array_lines(
    open: Seq<char>,
    middle: Seq<Seq<char>>,
    close: Seq<char>,
    rest: Seq<Seq<char>>,
)
    requires
        open.contains('[') && open.contains('=') && !open.contains(']'),
        forall|i: int| 0 <= i < middle.len() ==> !(#[trigger] middle[i]).contains(']'),
        close.contains(']'),
    ensures
        logical(seq![open] + (middle + (seq![close] + rest))) == seq![
            text::trimmed(text::trimmed(open) + spaced(middle + seq![close])),
        ] + logical(rest),
{
    let later = middle + (seq![close] + rest);
    assert((seq![open] + later).skip(1) =~= later);
    lemma_trimmed_contains(open, '[');
    lemma_trimmed_contains(open, ']');
    lemma_trimmed_contains(open, '=');
    assert(text::trimmed(open).len() > 0);
    lemma_open_lines(text::trimmed(open), middle, close, rest);
}

proof fn lemma_open_lines(
    sofar: Seq<char>,
    middle: Seq<Seq<char>>,
    close: Seq<char>,
    rest: Seq<Seq<char>>,
)
    requires
        forall|i: int| 0 <= i < middle.len() ==> !(#[trigger] middle[i]).contains(']'),
        close.contains(']'),
    ensures
        logical_open(sofar, middle + (seq![close] + rest)) == seq![
            text::trimmed(sofar + spaced(middle + seq![close])),
        ] + logical(rest),
    decreases middle.len(),
{
    let later = middle + (seq![close] + rest);
    let parts = middle + seq![close];
    if middle.len() == 0 {
        assert(later =~= seq![close] + rest);
        assert(later.skip(1) =~= rest);
        lemma_trimmed_contains(close, ']');
        assert(parts =~= seq![close]);
        assert(parts.skip(1) =~= seq![]);
        reveal_with_fuel(spaced, 2);
        assert(sofar + spaced(parts) =~= sofar + seq![' '] + text::trimmed(close));
    } else {
        let line = middle[0];
        let more = middle.skip(1);
        assert(!middle[0].contains(']'));
        lemma_trimmed_contains(line, ']');
        assert forall|i: int| 0 <= i < more.len() implies !(#[trigger] more[i]).contains(']') by {
            assert(!middle[i + 1].contains(']'));
        }
        let joined = sofar + seq![' '] + text::trimmed(line);
        assert(later[0] == line);
        assert(later.skip(1) =~= more + (seq![close] + rest));
        lemma_open_lines(joined, more, close, rest);
        assert(parts[0] == line);
        assert(parts.skip(1) =~= more + seq![close]);
        assert(sofar + spaced(parts) =~= joined + spaced(more + seq![close]));
    }
}

/// What does not stand in quotes is no string, and what does not stand in brackets no array.
pub proof fn lemma_not_enclosed(value: Seq<char>)
    ensures
        toml_string(value) is Ok <==> ({
            let v = text::trimmed(value);
            v.len() >= 2 && v[0] == '"' && v.last() == '"'
        }),
        toml_string(value) is Err ==> toml_string(value)->Err_0 == "expected TOML string, got "@
            + text::trimmed(value),
        toml_array(value) is Ok <==> ({
            let v = text::trimmed(value);
            v.len() >= 2 && v[0] == '[' && v.last() == ']'
        }),
        toml_array(value) is Err ==> toml_array(value)->Err_0
            == "expected TOML string array, got "@ + text::trimmed(value),
{
}

} // verus!
