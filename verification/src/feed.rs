//! The feed file: the events of one user as JSON.

use crate::event;
use crate::event::{Event, EventModel};
use crate::fields;
use crate::fields::{list_of, text_of};
use crate::grammar;
use crate::grammar::JsonModel;
use crate::json;
use crate::json::{parse_json, Json};
use crate::text;
use crate::text::{chars_of, owned};
use vstd::prelude::*;

verus! {

/// The events of one user.
#[derive(Debug)]
pub struct Feed {
    pub generated_at: String,
    pub username: String,
    pub events: Vec<Event>,
}

/// The mathematical value of a feed.
#[verifier::ext_equal]
pub struct FeedModel {
    pub generated_at: Seq<char>,
    pub username: Seq<char>,
    pub events: Seq<EventModel>,
}

impl View for Feed {
    type V = FeedModel;

    open spec fn view(&self) -> FeedModel {
        FeedModel {
            generated_at: self.generated_at@,
            username: self.username@,
            events: event::models(self.events@),
        }
    }
}

impl Default for Feed {
    fn default() -> (out: Feed)
        ensures
            out.generated_at@ == ""@,
            out.username@ == ""@,
            out.events@.len() == 0,
    {
        Feed { generated_at: owned(""), username: owned(""), events: Vec::new() }
    }
}

// ---------------------------------------------------------------------------
// Escaping
// ---------------------------------------------------------------------------

/// The control characters of Unicode (general category Cc).
pub open spec fn is_control(c: char) -> bool {
    c <= '\u{1f}' || '\u{7f}' <= c <= '\u{9f}'
}

/// A hexadecimal digit in lower case.
pub open spec fn hex_char(d: int) -> char {
    if d < 10 {
        (48 + d) as char
    } else {
        (87 + d) as char
    }
}

/// What stands for a character inside a JSON string.
pub open spec fn escaped(c: char) -> Seq<char> {
    if c == '"' {
        seq!['\\', '"']
    } else if c == '\\' {
        seq!['\\', '\\']
    } else if c == '\n' {
        seq!['\\', 'n']
    } else if c == '\r' {
        seq!['\\', 'r']
    } else if c == '\t' {
        seq!['\\', 't']
    } else if is_control(c) {
        seq!['\\', 'u', '0', '0', hex_char(c as int / 16), hex_char(c as int % 16)]
    } else {
        seq![c]
    }
}

/// The text as it stands inside a JSON string.
pub open spec fn json_escaped(s: Seq<char>) -> Seq<char> {
    text::substitute(s, |c: char| escaped(c))
}

fn hex_digit(d: u8) -> (c: char)
    requires
        d < 16,
    ensures
        c == hex_char(d as int),
{
    if d < 10 {
        (48u8 + d) as char
    } else {
        (87u8 + d) as char
    }
}

fn control_code(c: char) -> (n: u8)
    requires
        is_control(c),
    ensures
        n == c as int,
{
    c as u8
}

/// The text as it stands inside a JSON string.
pub fn json_escape(s: &str) -> (out: String)
    ensures
        out@ == json_escaped(s@),
{
    let chars = chars_of(s);
    let mut out = String::new();
    let ghost f = |c: char| escaped(c);
    for i in 0..chars.len()
        invariant
            chars@ == s@,
            f == |c: char| escaped(c),
            out@ == text::substitute(s@.take(i as int), f),
    {
        let c = chars[i];
        let ghost before = out@;
        if c == '"' {
            out.push('\\');
            out.push('"');
        } else if c == '\\' {
            out.push('\\');
            out.push('\\');
        } else if c == '\n' {
            out.push('\\');
            out.push('n');
        } else if c == '\r' {
            out.push('\\');
            out.push('r');
        } else if c == '\t' {
            out.push('\\');
            out.push('t');
        } else if c <= '\u{1f}' || ('\u{7f}' <= c && c <= '\u{9f}') {
            let code: u8 = control_code(c);
            out.push('\\');
            out.push('u');
            out.push('0');
            out.push('0');
            out.push(hex_digit(code / 16));
            out.push(hex_digit(code % 16));
        } else {
            out.push(c);
        }
        assert(out@ =~= before + escaped(c));
        assert(s@.take(i + 1).drop_last() =~= s@.take(i as int));
    }
    assert(s@.take(s@.len() as int) =~= s@);
    out
}

// ---------------------------------------------------------------------------
// Writing
// ---------------------------------------------------------------------------

/// A line with a key and a string.
pub open spec fn field_line(indent: Seq<char>, key: Seq<char>, value: Seq<char>) -> Seq<char> {
    indent + "\""@ + key + "\": \""@ + json_escaped(value) + "\""@
}

/// Lines with keys and strings, with commas between them.
pub open spec fn field_lines(indent: Seq<char>, fields: Seq<(Seq<char>, Seq<char>)>) -> Seq<char>
    decreases fields.len(),
{
    if fields.len() == 0 {
        seq![]
    } else if fields.len() == 1 {
        field_line(indent, fields[0].0, fields[0].1)
    } else {
        field_lines(indent, fields.drop_last()) + ",\n"@ + field_line(
            indent,
            fields.last().0,
            fields.last().1,
        )
    }
}

/// The fields of an event in the order in which they are written.
pub open spec fn event_fields(e: EventModel) -> Seq<(Seq<char>, Seq<char>)> {
    seq![
        ("id"@, e.id),
        ("event_type"@, e.event_type),
        ("repo"@, e.repo),
        ("title"@, e.title),
        ("url"@, e.url),
        ("occurred_at"@, e.occurred_at),
        ("thread_id"@, e.thread_id),
        ("thread_title"@, e.thread_title),
        ("thread_url"@, e.thread_url),
        ("status"@, e.status),
    ]
}

/// An event as a JSON object.
pub open spec fn event_text(e: EventModel) -> Seq<char> {
    "    {\n"@ + field_lines("      "@, event_fields(e)) + "\n    }"@
}

/// Events as JSON objects, with commas between them.
pub open spec fn events_text(events: Seq<EventModel>) -> Seq<char>
    decreases events.len(),
{
    if events.len() == 0 {
        seq![]
    } else if events.len() == 1 {
        event_text(events[0])
    } else {
        events_text(events.drop_last()) + ",\n"@ + event_text(events.last())
    }
}

/// The fields of a feed before its events.
pub open spec fn head_fields(f: FeedModel) -> Seq<(Seq<char>, Seq<char>)> {
    seq![("generated_at"@, f.generated_at), ("username"@, f.username)]
}

/// A feed as a JSON text.
pub open spec fn feed_text(f: FeedModel) -> Seq<char> {
    "{\n"@ + field_lines("  "@, head_fields(f)) + ",\n  \"events\": [\n"@ + events_text(f.events)
        + "\n  ]\n}\n"@
}

/// The keys and values of two slices of equal length, paired.
pub open spec fn pairs(keys: Seq<&str>, values: Seq<&str>) -> Seq<(Seq<char>, Seq<char>)> {
    Seq::new(keys.len(), |i: int| (keys[i]@, values[i]@))
}

fn write_fields(indent: &str, keys: &[&str], values: &[&str]) -> (out: String)
    requires
        keys@.len() == values@.len(),
    ensures
        out@ == field_lines(indent@, pairs(keys@, values@)),
{
    let mut out = String::new();
    let ghost all = pairs(keys@, values@);
    for i in 0..keys.len()
        invariant
            keys@.len() == values@.len(),
            all == pairs(keys@, values@),
            out@ == field_lines(indent@, all.take(i as int)),
    {
        let mut line = owned(indent);
        line.append("\"");
        line.append(keys[i]);
        line.append("\": \"");
        line.append(json_escape(values[i]).as_str());
        line.append("\"");
        assert(line@ == field_line(indent@, all[i as int].0, all[i as int].1));
        assert(all.take(i + 1).drop_last() =~= all.take(i as int));
        if i > 0 {
            out.append(",\n");
            out.append(line.as_str());
        } else {
            out = line;
        }
    }
    assert(all.take(all.len() as int) =~= all);
    out
}

fn write_event(e: &Event) -> (out: String)
    ensures
        out@ == event_text(e@),
{
    let keys: [&str; 10] = [
        "id",
        "event_type",
        "repo",
        "title",
        "url",
        "occurred_at",
        "thread_id",
        "thread_title",
        "thread_url",
        "status",
    ];
    let values: [&str; 10] = [
        e.id.as_str(),
        e.event_type.as_str(),
        e.repo.as_str(),
        e.title.as_str(),
        e.url.as_str(),
        e.occurred_at.as_str(),
        e.thread_id.as_str(),
        e.thread_title.as_str(),
        e.thread_url.as_str(),
        e.status.as_str(),
    ];
    let mut out = owned("    {\n");
    out.append(write_fields("      ", &keys, &values).as_str());
    assert(pairs(keys@, values@) =~= event_fields(e@));
    out.append("\n    }");
    out
}

impl Feed {
    /// The feed as a JSON text.
    pub fn to_json(&self) -> (out: String)
        ensures
            out@ == feed_text(self@),
    {
        let mut out = owned("{\n");
        let keys: [&str; 2] = ["generated_at", "username"];
        let values: [&str; 2] = [self.generated_at.as_str(), self.username.as_str()];
        out.append(write_fields("  ", &keys, &values).as_str());
        assert(pairs(keys@, values@) =~= head_fields(self@));
        out.append(",\n  \"events\": [\n");
        let mut events = String::new();
        let ghost all = event::models(self.events@);
        for i in 0..self.events.len()
            invariant
                all == event::models(self.events@),
                events@ == events_text(all.take(i as int)),
        {
            let one = write_event(&self.events[i]);
            assert(all.take(i + 1).drop_last() =~= all.take(i as int));
            if i > 0 {
                events.append(",\n");
                events.append(one.as_str());
            } else {
                events = one;
            }
        }
        assert(all.take(all.len() as int) =~= all);
        out.append(events.as_str());
        out.append("\n  ]\n}\n");
        out
    }
}

// ---------------------------------------------------------------------------
// Reading
// ---------------------------------------------------------------------------

/// The event that a JSON object stands for.
pub open spec fn event_of(item: JsonModel) -> EventModel {
    EventModel {
        id: fields::text_field(item, "id"@),
        event_type: fields::text_field(item, "event_type"@),
        repo: fields::text_field(item, "repo"@),
        title: fields::text_field(item, "title"@),
        url: fields::text_field(item, "url"@),
        occurred_at: fields::text_field(item, "occurred_at"@),
        thread_id: fields::text_field(item, "thread_id"@),
        thread_title: fields::text_field(item, "thread_title"@),
        thread_url: fields::text_field(item, "thread_url"@),
        status: fields::text_field(item, "status"@),
    }
}

/// The feed that a JSON object stands for.
pub open spec fn feed_of(value: JsonModel) -> FeedModel {
    FeedModel {
        generated_at: fields::text_field(value, "generated_at"@),
        username: fields::text_field(value, "username"@),
        events: fields::list_field(value, "events"@).map_values(|item: JsonModel| event_of(item)),
    }
}

/// What reading a feed file gives.
pub open spec fn feed_outcome(out: Result<Feed, String>) -> Result<FeedModel, Seq<char>> {
    match out {
        Ok(f) => Ok(f@),
        Err(e) => Err(e@),
    }
}

/// What a feed file holds.
pub open spec fn read_feed(raw: Seq<char>) -> Result<FeedModel, Seq<char>> {
    match grammar::json_value(raw) {
        Ok(v) => Ok(feed_of(v)),
        Err(e) => Err(e),
    }
}

fn event_from(item: &Json) -> (e: Event)
    ensures
        e@ == event_of(item@),
{
    Event {
        id: text_of(item, "id"),
        event_type: text_of(item, "event_type"),
        repo: text_of(item, "repo"),
        title: text_of(item, "title"),
        url: text_of(item, "url"),
        occurred_at: text_of(item, "occurred_at"),
        thread_id: text_of(item, "thread_id"),
        thread_title: text_of(item, "thread_title"),
        thread_url: text_of(item, "thread_url"),
        status: text_of(item, "status"),
    }
}

impl Feed {
    /// Reads the text of a feed file.
    pub fn from_json(raw: &str) -> (out: Result<Feed, String>)
        ensures
            feed_outcome(out) == read_feed(raw@),
    {
        let value = match parse_json(raw) {
            Ok(v) => v,
            Err(e) => {
                return Err(e);
            },
        };
        let items = list_of(&value, "events");
        let mut events: Vec<Event> = Vec::new();
        let ghost wanted = fields::list_field(value@, "events"@).map_values(
            |item: JsonModel| event_of(item),
        );
        proof {
            json::lemma_item_models(items@);
        }
        for i in 0..items.len()
            invariant
                json::item_models(items@).len() == items@.len(),
                forall|j: int|
                    0 <= j < items@.len() ==> json::item_models(items@)[j] == json::json_model(
                        #[trigger] items@[j],
                    ),
                wanted == json::item_models(items@).map_values(|item: JsonModel| event_of(item)),
                event::models(events@) == wanted.take(i as int),
        {
            let ghost before = events@;
            let one = event_from(&items[i]);
            assert(wanted[i as int] == one@);
            events.push(one);
            assert(event::models(events@) =~= event::models(before).push(one@));
        }
        assert(wanted.take(items@.len() as int) =~= wanted);
        Ok(
            Feed {
                generated_at: text_of(&value, "generated_at"),
                username: text_of(&value, "username"),
                events,
            },
        )
    }
}

/// An escaped text holds no control character.
pub proof fn lemma_no_control(s: Seq<char>, i: int)
    requires
        0 <= i < json_escaped(s).len(),
    ensures
        json_escaped(s)[i] >= ' ',
        !('\u{7f}' <= json_escaped(s)[i] <= '\u{9f}'),
    decreases s.len(),
{
    if s.len() > 0 {
        let front = json_escaped(s.drop_last());
        if i < front.len() {
            lemma_no_control(s.drop_last(), i);
        } else {
            lemma_no_control_in_char(s.last(), i - front.len());
        }
    }
}

proof fn lemma_no_control_in_char(c: char, i: int)
    requires
        0 <= i < escaped(c).len(),
    ensures
        escaped(c)[i] >= ' ',
        !('\u{7f}' <= escaped(c)[i] <= '\u{9f}'),
{
}

} // verus!
