//! A feed that was written is read back as it was.

use crate::event::EventModel;
use crate::feed;
use crate::feed::FeedModel;
use crate::fields;
use crate::grammar;
use crate::grammar::JsonModel;
use crate::json;
use crate::numeral;
use crate::text;
use vstd::prelude::*;

verus! {

/// Whether the text is made of JSON white space only.
pub open spec fn all_ws(s: Seq<char>) -> bool {
    forall|i: int| 0 <= i < s.len() ==> grammar::is_ws(#[trigger] s[i])
}

/// White space in front is skipped.
pub proof fn lemma_skip_front(w: Seq<char>, x: Seq<char>)
    requires
        all_ws(w),
        x.len() > 0 ==> !grammar::is_ws(x[0]),
    ensures
        grammar::skip_ws(w + x) == x,
    decreases w.len(),
{
    if w.len() == 0 {
        assert(w + x =~= x);
    } else {
        assert(grammar::is_ws(w[0]));
        assert((w + x).drop_first() =~= w.drop_first() + x);
        assert forall|i: int| 0 <= i < w.drop_first().len() implies grammar::is_ws(
            #[trigger] w.drop_first()[i],
        ) by {
            assert(grammar::is_ws(w[i + 1]));
        }
        lemma_skip_front(w.drop_first(), x);
    }
}

/// An escaped character is read back as the character.
proof fn lemma_escaped_char(c: char, rest: Seq<char>)
    ensures
        grammar::parse_string_body(feed::escaped(c) + rest) == grammar::with_front(
            seq![c],
            grammar::parse_string_body(rest),
        ),
{
    let e = feed::escaped(c);
    let s = e + rest;
    if c == '"' || c == '\\' || c == '\n' || c == '\r' || c == '\t' {
        assert(s.drop_first().drop_first() =~= rest);
        assert(s[0] == e[0] && s.drop_first()[0] == e[1]);
    } else if feed::is_control(c) {
        let t = s.drop_first();
        let h = t.drop_first();
        let hi = c as int / 16;
        let lo = c as int % 16;
        assert(0 <= c as int <= 0x9f);
        assert(s[0] == '\\' && t[0] == 'u');
        assert(h[0] == '0' && h[1] == '0' && h[2] == feed::hex_char(hi) && h[3] == feed::hex_char(
            lo,
        ));
        assert(grammar::is_hex(feed::hex_char(hi)) && grammar::hex_value(feed::hex_char(hi)) == hi);
        assert(grammar::is_hex(feed::hex_char(lo)) && grammar::hex_value(feed::hex_char(lo)) == lo);
        reveal_with_fuel(grammar::parse_hex, 5);
        let h1 = h.drop_first();
        let h2 = h1.drop_first();
        let h3 = h2.drop_first();
        assert(h1[0] == h[1] && h2[0] == h[2] && h3[0] == h[3]);
        assert(h3.drop_first() =~= rest);
        assert(grammar::parse_hex(h, 4, 0) == (Ok::<int, Seq<char>>(c as int), rest));
        assert(grammar::is_scalar(c as int));
        assert(grammar::parse_escape(t) == (Ok::<Seq<char>, Seq<char>>(seq![c]), rest));
    } else {
        assert(s.drop_first() =~= rest);
    }
}

/// The escape of a text, character by character from the front.
proof fn lemma_escaped_front(t: Seq<char>)
    requires
        t.len() > 0,
    ensures
        feed::json_escaped(t) == feed::escaped(t[0]) + feed::json_escaped(t.drop_first()),
{
    text::lemma_substitute_first(t, |c: char| feed::escaped(c));
}

/// An escaped text with its closing quote is read back as the text.
pub proof fn lemma_escape_round_trip(t: Seq<char>, rest: Seq<char>)
    ensures
        grammar::parse_string_body(feed::json_escaped(t) + (seq!['"'] + rest)) == (
            Ok::<Seq<char>, Seq<char>>(t),
            rest,
        ),
    decreases t.len(),
{
    let tail = seq!['"'] + rest;
    if t.len() == 0 {
        assert(feed::json_escaped(t) + tail =~= tail);
        assert(tail.drop_first() =~= rest);
        assert(t =~= seq![]);
    } else {
        lemma_escaped_front(t);
        let later = feed::json_escaped(t.drop_first()) + tail;
        assert(feed::json_escaped(t) + tail =~= feed::escaped(t[0]) + later);
        lemma_escaped_char(t[0], later);
        lemma_escape_round_trip(t.drop_first(), rest);
        assert(seq![t[0]] + t.drop_first() =~= t);
    }
}

/// Whether a text stands for itself inside a JSON string.
pub open spec fn plain(s: Seq<char>) -> bool {
    forall|i: int| 0 <= i < s.len() ==> #[trigger] s[i] != '"' && s[i] != '\\'
}

/// A plain text with its closing quote is read as it stands.
pub proof fn lemma_plain_text(p: Seq<char>, rest: Seq<char>)
    requires
        plain(p),
    ensures
        grammar::parse_string_body(p + (seq!['"'] + rest)) == (
            Ok::<Seq<char>, Seq<char>>(p),
            rest,
        ),
    decreases p.len(),
{
    let tail = seq!['"'] + rest;
    if p.len() == 0 {
        assert(p + tail =~= tail);
        assert(tail.drop_first() =~= rest);
        assert(p =~= seq![]);
    } else {
        assert(p[0] != '"');
        assert((p + tail).drop_first() =~= p.drop_first() + tail);
        assert forall|i: int| 0 <= i < p.drop_first().len() implies #[trigger] p.drop_first()[i]
            != '"' && p.drop_first()[i] != '\\' by {
            assert(p[i + 1] != '"');
        }
        lemma_plain_text(p.drop_first(), rest);
        assert(seq![p[0]] + p.drop_first() =~= p);
    }
}

/// What reading a line with a key and a string comes to: the key, the string, and what
/// follows the line.
proof fn lemma_field_line(
    w: Seq<char>,
    indent: Seq<char>,
    key: Seq<char>,
    v: Seq<char>,
    tail: Seq<char>,
)
    requires
        all_ws(w),
        all_ws(indent),
        plain(key),
    ensures
        ({
            let text = w + (feed::field_line(indent, key, v) + tail);
            let s = grammar::skip_ws(text);
            let (k, r1) = grammar::parse_string(s);
            let (colon, r2) = grammar::parse_char(grammar::skip_ws(r1), ':');
            &&& s.len() > tail.len()
            &&& s.len() > 0 && s[0] == '"'
            &&& k == Ok::<Seq<char>, Seq<char>>(key)
            &&& colon is Ok
            &&& grammar::parse_value(r2) == (
                Ok::<JsonModel, Seq<char>>(JsonModel::String(v)),
                tail,
            )
        }),
{
    reveal_strlit("\"");
    reveal_strlit("\": \"");
    let q = seq!['"'];
    let value = feed::json_escaped(v) + (q + tail);
    let r2 = seq![' ', '"'] + value;
    let r1 = seq![':'] + r2;
    let named = key + (q + r1);
    let s = q + named;
    let text = w + (feed::field_line(indent, key, v) + tail);
    assert("\""@ =~= q);
    assert("\": \""@ =~= seq!['"', ':', ' ', '"']);
    assert(feed::field_line(indent, key, v) + tail =~= indent + s) by {
        let esc = feed::json_escaped(v);
        let line = feed::field_line(indent, key, v);
        assert(line =~= indent + (q + (key + (seq!['"', ':', ' ', '"'] + (esc + q)))));
        assert(esc + q + tail =~= value);
        assert(seq!['"', ':', ' ', '"'] + (esc + q) + tail =~= q + r1);
    }
    assert(text =~= (w + indent) + s);
    assert forall|i: int| 0 <= i < (w + indent).len() implies grammar::is_ws(
        #[trigger] (w + indent)[i],
    ) by {
        if i < w.len() {
            assert(grammar::is_ws(w[i]));
        } else {
            assert(grammar::is_ws(indent[i - w.len()]));
        }
    }
    lemma_skip_front(w + indent, s);
    assert(s.drop_first() =~= named);
    lemma_plain_text(key, r1);
    lemma_skip_front(seq![], r1);
    assert(Seq::<char>::empty() + r1 =~= r1);
    assert(r1.drop_first() =~= r2);
    assert(r2 =~= seq![' '] + (q + value));
    assert(all_ws(seq![' ']));
    lemma_skip_front(seq![' '], q + value);
    assert((q + value).drop_first() =~= value);
    lemma_escape_round_trip(v, tail);
}

/// The fields, put into an object one after another.
pub open spec fn insert_all(
    fields: Map<Seq<char>, JsonModel>,
    more: Seq<(Seq<char>, Seq<char>)>,
) -> Map<Seq<char>, JsonModel>
    decreases more.len(),
{
    if more.len() == 0 {
        fields
    } else {
        insert_all(fields, more.drop_last()).insert(
            more.last().0,
            JsonModel::String(more.last().1),
        )
    }
}

/// Whether all keys stand for themselves.
pub open spec fn plain_keys(fields: Seq<(Seq<char>, Seq<char>)>) -> bool {
    forall|i: int| 0 <= i < fields.len() ==> plain(#[trigger] fields[i].0)
}

/// Lines of fields before a comma are read into the object.
proof fn lemma_lines_before_comma(
    w: Seq<char>,
    indent: Seq<char>,
    fields: Seq<(Seq<char>, Seq<char>)>,
    rest: Seq<char>,
    acc: Map<Seq<char>, JsonModel>,
)
    requires
        all_ws(w),
        all_ws(indent),
        plain_keys(fields),
        fields.len() > 0,
    ensures
        grammar::parse_fields(
            w + (feed::field_lines(indent, fields) + (seq![','] + rest)),
            acc,
        ) == grammar::parse_fields(rest, insert_all(acc, fields)),
    decreases fields.len(),
{
    let last = fields.last();
    let comma = seq![','] + rest;
    let line = feed::field_line(indent, last.0, last.1);
    assert(plain(fields[fields.len() - 1].0));
    assert(comma.drop_first() =~= rest);
    lemma_skip_front(seq![], comma);
    assert(Seq::<char>::empty() + comma =~= comma);
    if fields.len() == 1 {
        lemma_field_line(w, indent, last.0, last.1, comma);
        assert(fields.drop_last() =~= seq![]);
        reveal_with_fuel(insert_all, 2);
    } else {
        let before = fields.drop_last();
        assert forall|i: int| 0 <= i < before.len() implies plain(#[trigger] before[i].0) by {
            assert(plain(fields[i].0));
        }
        reveal_strlit(",\n");
        let nl = seq!['\n'];
        assert(",\n"@ =~= seq![','] + nl);
        let later = nl + (line + comma);
        assert(feed::field_lines(indent, fields) + comma =~= feed::field_lines(indent, before) + (
        seq![','] + later));
        lemma_lines_before_comma(w, indent, before, later, acc);
        lemma_field_line(nl, indent, last.0, last.1, comma);
    }
}

/// Lines of fields before a closing brace are read into the object, which they end.
proof fn lemma_lines_before_brace(
    w: Seq<char>,
    indent: Seq<char>,
    fields: Seq<(Seq<char>, Seq<char>)>,
    gap: Seq<char>,
    rest: Seq<char>,
)
    requires
        all_ws(w),
        all_ws(indent),
        all_ws(gap),
        plain_keys(fields),
        fields.len() > 0,
    ensures
        grammar::parse_fields(
            w + (feed::field_lines(indent, fields) + (gap + (seq!['}'] + rest))),
            Map::empty(),
        ) == (
            Ok::<JsonModel, Seq<char>>(JsonModel::Object(insert_all(Map::empty(), fields))),
            rest,
        ),
{
    let last = fields.last();
    let brace = seq!['}'] + rest;
    let tail = gap + brace;
    let line = feed::field_line(indent, last.0, last.1);
    assert(plain(fields[fields.len() - 1].0));
    assert(brace.drop_first() =~= rest);
    lemma_skip_front(gap, brace);
    if fields.len() == 1 {
        lemma_field_line(w, indent, last.0, last.1, tail);
        assert(fields.drop_last() =~= seq![]);
        reveal_with_fuel(insert_all, 2);
    } else {
        let before = fields.drop_last();
        assert forall|i: int| 0 <= i < before.len() implies plain(#[trigger] before[i].0) by {
            assert(plain(fields[i].0));
        }
        reveal_strlit(",\n");
        let nl = seq!['\n'];
        assert(",\n"@ =~= seq![','] + nl);
        let later = nl + (line + tail);
        assert(feed::field_lines(indent, fields) + tail =~= feed::field_lines(indent, before) + (
        seq![','] + later));
        lemma_lines_before_comma(w, indent, before, later, Map::empty());
        lemma_field_line(nl, indent, last.0, last.1, tail);
    }
}

/// The JSON object that an event is written as.
pub open spec fn event_object(e: EventModel) -> JsonModel {
    JsonModel::Object(insert_all(Map::empty(), feed::event_fields(e)))
}

/// A key with no equal key behind it leads to the string that was put in with it.
proof fn lemma_insert_all(
    fields: Map<Seq<char>, JsonModel>,
    more: Seq<(Seq<char>, Seq<char>)>,
    i: int,
)
    requires
        0 <= i < more.len(),
        forall|j: int| i < j < more.len() ==> #[trigger] more[j].0 != more[i].0,
    ensures
        insert_all(fields, more).dom().contains(more[i].0),
        insert_all(fields, more)[more[i].0] == JsonModel::String(more[i].1),
    decreases more.len(),
{
    if i < more.len() - 1 {
        let before = more.drop_last();
        assert(more[more.len() - 1].0 != more[i].0);
        assert forall|j: int| i < j < before.len() implies #[trigger] before[j].0
            != before[i].0 by {
            assert(more[j].0 != more[i].0);
        }
        lemma_insert_all(fields, before, i);
    }
}

/// The keys of an event are plain and all different.
proof fn lemma_event_keys(e: EventModel)
    ensures
        plain_keys(feed::event_fields(e)),
        forall|i: int, j: int|
            0 <= i < j < 10 ==> (#[trigger] feed::event_fields(e)[i]).0 != (
            #[trigger] feed::event_fields(e)[j]).0,
{
    reveal_strlit("id");
    reveal_strlit("event_type");
    reveal_strlit("repo");
    reveal_strlit("title");
    reveal_strlit("url");
    reveal_strlit("occurred_at");
    reveal_strlit("thread_id");
    reveal_strlit("thread_title");
    reveal_strlit("thread_url");
    reveal_strlit("status");
    assert("event_type"@[0] != "thread_url"@[0]);
    let fields = feed::event_fields(e);
    assert(plain("id"@) && plain("event_type"@) && plain("repo"@) && plain("title"@) && plain(
        "url"@,
    ));
    assert(plain("occurred_at"@) && plain("thread_id"@) && plain("thread_title"@) && plain(
        "thread_url"@,
    ) && plain("status"@));
}

/// The object that an event is written as holds its fields.
pub proof fn lemma_event_object(e: EventModel, i: int)
    requires
        0 <= i < 10,
    ensures
        json::field(event_object(e), feed::event_fields(e)[i].0) == Some(
            JsonModel::String(feed::event_fields(e)[i].1),
        ),
{
    lemma_event_keys(e);
    lemma_insert_all(Map::empty(), feed::event_fields(e), i);
}

/// The object that an event is written as stands for the event.
proof fn lemma_event_of_object(e: EventModel)
    ensures
        feed::event_of(event_object(e)) == e,
{
    let fields = feed::event_fields(e);
    assert forall|i: int| 0 <= i < 10 implies fields::text_field(
        event_object(e),
        (#[trigger] fields[i]).0,
    ) == fields[i].1 by {
        lemma_event_object(e, i);
    }
    assert(fields::text_field(event_object(e), fields[0].0) == e.id);
    assert(fields::text_field(event_object(e), fields[1].0) == e.event_type);
    assert(fields::text_field(event_object(e), fields[2].0) == e.repo);
    assert(fields::text_field(event_object(e), fields[3].0) == e.title);
    assert(fields::text_field(event_object(e), fields[4].0) == e.url);
    assert(fields::text_field(event_object(e), fields[5].0) == e.occurred_at);
    assert(fields::text_field(event_object(e), fields[6].0) == e.thread_id);
    assert(fields::text_field(event_object(e), fields[7].0) == e.thread_title);
    assert(fields::text_field(event_object(e), fields[8].0) == e.thread_url);
    assert(fields::text_field(event_object(e), fields[9].0) == e.status);
}

/// The text of an event is read as its object.
proof fn lemma_event_text(w: Seq<char>, e: EventModel, rest: Seq<char>)
    requires
        all_ws(w),
    ensures
        ({
            let s = grammar::skip_ws(w + (feed::event_text(e) + rest));
            &&& s.len() > rest.len()
            &&& s[0] == '{'
            &&& grammar::parse_value(s) == (Ok::<JsonModel, Seq<char>>(event_object(e)), rest)
        }),
{
    reveal_strlit("    {\n");
    reveal_strlit("      ");
    reveal_strlit("\n    }");
    let lines = feed::field_lines("      "@, feed::event_fields(e));
    let nl = seq!['\n'];
    let gap = seq!['\n', ' ', ' ', ' ', ' '];
    let margin = seq![' ', ' ', ' ', ' '];
    let inner = nl + (lines + (gap + (seq!['}'] + rest)));
    let s = seq!['{'] + inner;
    assert("    {\n"@ =~= margin + (seq!['{'] + nl));
    assert("\n    }"@ =~= gap + seq!['}']);
    assert(feed::event_text(e) + rest =~= margin + s) by {
        assert(gap + seq!['}'] + rest =~= gap + (seq!['}'] + rest));
        assert(feed::event_text(e) =~= margin + (seq!['{'] + (nl + (lines + (gap + seq!['}'])))));
    }
    assert(w + (margin + s) =~= (w + margin) + s);
    assert forall|i: int| 0 <= i < (w + margin).len() implies grammar::is_ws(
        #[trigger] (w + margin)[i],
    ) by {
        if i < w.len() {
            assert(grammar::is_ws(w[i]));
        }
    }
    lemma_skip_front(w + margin, s);
    lemma_skip_front(seq![], s);
    assert(Seq::<char>::empty() + s =~= s);
    assert(s.drop_first() =~= inner);
    lemma_event_keys(e);
    lemma_lines_before_brace(nl, "      "@, feed::event_fields(e), gap, rest);
}

/// The JSON objects that events are written as.
pub open spec fn event_objects(events: Seq<EventModel>) -> Seq<JsonModel> {
    events.map_values(|e: EventModel| event_object(e))
}

/// Events before a comma are read into the array.
proof fn lemma_events_before_comma(
    w: Seq<char>,
    events: Seq<EventModel>,
    rest: Seq<char>,
    acc: Seq<JsonModel>,
)
    requires
        all_ws(w),
        events.len() > 0,
    ensures
        grammar::parse_items(w + (feed::events_text(events) + (seq![','] + rest)), acc)
            == grammar::parse_items(rest, acc + event_objects(events)),
    decreases events.len(),
{
    let last = events.last();
    let comma = seq![','] + rest;
    assert(comma.drop_first() =~= rest);
    lemma_skip_front(seq![], comma);
    assert(Seq::<char>::empty() + comma =~= comma);
    if events.len() == 1 {
        lemma_event_text(w, last, comma);
        let s = grammar::skip_ws(w + (feed::events_text(events) + comma));
        assert(acc.push(event_object(last)) =~= acc + event_objects(events));
    } else {
        let before = events.drop_last();
        reveal_strlit(",\n");
        let nl = seq!['\n'];
        assert(",\n"@ =~= seq![','] + nl);
        let later = nl + (feed::event_text(last) + comma);
        assert(feed::events_text(events) + comma =~= feed::events_text(before) + (seq![',']
            + later));
        lemma_events_before_comma(w, before, later, acc);
        lemma_event_text(nl, last, comma);
        assert((acc + event_objects(before)).push(event_object(last)) =~= acc + event_objects(
            events,
        ));
    }
}

/// Events before a closing bracket are read as an array.
proof fn lemma_events_before_bracket(
    w: Seq<char>,
    events: Seq<EventModel>,
    gap: Seq<char>,
    rest: Seq<char>,
)
    requires
        all_ws(w),
        all_ws(gap),
    ensures
        grammar::parse_items(
            w + (feed::events_text(events) + (gap + (seq![']'] + rest))),
            seq![],
        ) == (Ok::<JsonModel, Seq<char>>(JsonModel::Array(event_objects(events))), rest),
{
    let bracket = seq![']'] + rest;
    let tail = gap + bracket;
    assert(bracket.drop_first() =~= rest);
    lemma_skip_front(gap, bracket);
    if events.len() == 0 {
        assert(feed::events_text(events) + tail =~= tail);
        assert(w + tail =~= (w + gap) + bracket);
        assert forall|i: int| 0 <= i < (w + gap).len() implies grammar::is_ws(
            #[trigger] (w + gap)[i],
        ) by {
            if i < w.len() {
                assert(grammar::is_ws(w[i]));
            } else {
                assert(grammar::is_ws(gap[i - w.len()]));
            }
        }
        lemma_skip_front(w + gap, bracket);
        assert(event_objects(events) =~= seq![]);
    } else if events.len() == 1 {
        lemma_event_text(w, events.last(), tail);
        assert(Seq::<JsonModel>::empty().push(event_object(events.last())) =~= event_objects(
            events,
        ));
    } else {
        let before = events.drop_last();
        let last = events.last();
        reveal_strlit(",\n");
        let nl = seq!['\n'];
        assert(",\n"@ =~= seq![','] + nl);
        let later = nl + (feed::event_text(last) + tail);
        assert(feed::events_text(events) + tail =~= feed::events_text(before) + (seq![',']
            + later));
        lemma_events_before_comma(w, before, later, seq![]);
        lemma_event_text(nl, last, tail);
        assert((Seq::<JsonModel>::empty() + event_objects(before)).push(event_object(last))
            =~= event_objects(events));
    }
}

/// The JSON object that a feed is written as.
pub open spec fn feed_object(f: FeedModel) -> JsonModel {
    JsonModel::Object(
        insert_all(Map::empty(), feed::head_fields(f)).insert(
            "events"@,
            JsonModel::Array(event_objects(f.events)),
        ),
    )
}

/// The text of a feed is read as its object.
pub proof fn lemma_feed_text(f: FeedModel)
    ensures
        grammar::json_value(feed::feed_text(f)) == Ok::<JsonModel, Seq<char>>(feed_object(f)),
{
    reveal_strlit("{\n");
    reveal_strlit("  ");
    reveal_strlit(",\n  \"events\": [\n");
    reveal_strlit("\n  ]\n}\n");
    reveal_strlit("events");
    reveal_strlit("generated_at");
    reveal_strlit("username");
    let nl = seq!['\n'];
    let q = seq!['"'];
    let lines = feed::field_lines("  "@, feed::head_fields(f));
    let gap = seq!['\n', ' ', ' '];
    let end = nl + (seq!['}'] + nl);
    let items = nl + (feed::events_text(f.events) + (gap + (seq![']'] + end)));
    let opened = seq!['['] + items;
    let value = seq![' '] + opened;
    let colon = seq![':'] + value;
    let named = "events"@ + (q + colon);
    let quoted = q + named;
    let after = gap + quoted;
    let inner = nl + (lines + (seq![','] + after));
    let whole = seq!['{'] + inner;
    assert("{\n"@ =~= seq!['{'] + nl);
    assert(",\n  \"events\": [\n"@ =~= seq![','] + (gap + (q + ("events"@ + (q + seq![
        ':',
        ' ',
        '[',
        '\n',
    ])))));
    assert("\n  ]\n}\n"@ =~= gap + (seq![']'] + end));
    assert(feed::feed_text(f) =~= whole) by {
        let a = seq!['{'] + nl + lines;
        assert(",\n  \"events\": [\n"@ + feed::events_text(f.events) + "\n  ]\n}\n"@
            =~= seq![','] + after);
        assert(feed::feed_text(f) =~= a + (",\n  \"events\": [\n"@ + feed::events_text(f.events)
            + "\n  ]\n}\n"@));
    }
    lemma_skip_front(seq![], whole);
    assert(Seq::<char>::empty() + whole =~= whole);
    assert(whole.drop_first() =~= inner);
    let head = feed::head_fields(f);
    assert(plain("generated_at"@) && plain("username"@) && plain("events"@));
    assert(plain_keys(head));
    lemma_lines_before_comma(nl, "  "@, head, after, Map::empty());
    let acc = insert_all(Map::empty(), head);
    lemma_skip_front(gap, quoted);
    assert(quoted.drop_first() =~= named);
    lemma_plain_text("events"@, colon);
    lemma_skip_front(seq![], colon);
    assert(Seq::<char>::empty() + colon =~= colon);
    assert(colon.drop_first() =~= value);
    lemma_skip_front(seq![' '], opened);
    assert(opened.drop_first() =~= items);
    lemma_events_before_bracket(nl, f.events, gap, end);
    let brace = seq!['}'] + nl;
    lemma_skip_front(nl, brace);
    assert(brace.drop_first() =~= nl);
    lemma_skip_front(nl, seq![]);
    assert(nl + Seq::<char>::empty() =~= nl);
    let array = JsonModel::Array(event_objects(f.events));
    assert(grammar::parse_value(value) == (Ok::<JsonModel, Seq<char>>(array), end));
    assert(grammar::parse_fields(after, acc) == (
        Ok::<JsonModel, Seq<char>>(JsonModel::Object(acc.insert("events"@, array))),
        nl,
    ));
}

/// The object that a feed is written as holds its fields.
pub proof fn lemma_feed_object(f: FeedModel)
    ensures
        json::field(feed_object(f), "generated_at"@) == Some(JsonModel::String(f.generated_at)),
        json::field(feed_object(f), "username"@) == Some(JsonModel::String(f.username)),
        json::field(feed_object(f), "events"@) == Some(JsonModel::Array(event_objects(f.events))),
{
    let head = feed::head_fields(f);
    reveal_strlit("events");
    reveal_strlit("generated_at");
    reveal_strlit("username");
    assert(head[0].0.len() == 12 && head[1].0.len() == 8 && "events"@.len() == 6);
    lemma_insert_all(Map::empty(), head, 0);
    lemma_insert_all(Map::empty(), head, 1);
}

/// A feed that was written as JSON is read back as the same feed.
pub proof fn lemma_feed_round_trip(f: FeedModel)
    ensures
        feed::read_feed(feed::feed_text(f)) == Ok::<FeedModel, Seq<char>>(f),
{
    lemma_feed_text(f);
    lemma_feed_object(f);
    let v = feed_object(f);
    assert(fields::list_field(v, "events"@) == event_objects(f.events));
    assert forall|i: int| 0 <= i < f.events.len() implies #[trigger] feed::feed_of(v).events[i]
        == f.events[i] by {
        lemma_event_of_object(f.events[i]);
    }
    assert(feed::feed_of(v).events =~= f.events);
}

/// The text of a feed is an object that holds its time, its user name and its events under
/// their names, and each event is an object that holds its ten texts under their names.
pub proof fn lemma_written_names(f: FeedModel)
    ensures
        grammar::json_value(feed::feed_text(f)) matches Ok(value) && fields::has_text(
            value,
            "generated_at"@,
            f.generated_at,
        ) && fields::has_text(value, "username"@, f.username) && exists|items: Seq<JsonModel>|
            #[trigger]
            json::holds(value, "events"@, JsonModel::Array(items)) && items.len() == f.events.len()
                && forall|i: int|
                0 <= i < items.len() ==> holds_event(#[trigger] items[i], f.events[i]),
{
    lemma_feed_text(f);
    lemma_feed_object(f);
    let value = feed_object(f);
    let items = event_objects(f.events);
    assert(json::holds(value, "events"@, JsonModel::Array(items)));
    assert forall|i: int| 0 <= i < items.len() implies holds_event(
        #[trigger] items[i],
        f.events[i],
    ) by {
        let e = f.events[i];
        lemma_event_object(e, 0);
        lemma_event_object(e, 1);
        lemma_event_object(e, 2);
        lemma_event_object(e, 3);
        lemma_event_object(e, 4);
        lemma_event_object(e, 5);
        lemma_event_object(e, 6);
        lemma_event_object(e, 7);
        lemma_event_object(e, 8);
        lemma_event_object(e, 9);
    }
}

/// Whether an object holds the texts of an event under their names.
pub open spec fn holds_event(item: JsonModel, e: EventModel) -> bool {
    &&& fields::has_text(item, "id"@, e.id)
    &&& fields::has_text(item, "event_type"@, e.event_type)
    &&& fields::has_text(item, "repo"@, e.repo)
    &&& fields::has_text(item, "title"@, e.title)
    &&& fields::has_text(item, "url"@, e.url)
    &&& fields::has_text(item, "occurred_at"@, e.occurred_at)
    &&& fields::has_text(item, "thread_id"@, e.thread_id)
    &&& fields::has_text(item, "thread_title"@, e.thread_title)
    &&& fields::has_text(item, "thread_url"@, e.thread_url)
    &&& fields::has_text(item, "status"@, e.status)
}

/// An object that holds the texts of an event under their names is read as that event, and
/// a list of such objects as the events in their order.
pub proof fn lemma_read_names(raw: Seq<char>, value: JsonModel, items: Seq<JsonModel>)
    requires
        grammar::json_value(raw) == Ok::<JsonModel, Seq<char>>(value),
        json::holds(value, "events"@, JsonModel::Array(items)),
    ensures
        feed::read_feed(raw) is Ok,
        fields::text_or_nothing(value, "generated_at"@, feed::read_feed(raw)->Ok_0.generated_at),
        fields::text_or_nothing(value, "username"@, feed::read_feed(raw)->Ok_0.username),
        feed::read_feed(raw)->Ok_0.events.len() == items.len(),
        forall|i: int, e: EventModel|
            0 <= i < items.len() && #[trigger] holds_event(items[i], e) ==> feed::read_feed(
                raw,
            )->Ok_0.events[i] == e,
{
    let f = feed::read_feed(raw)->Ok_0;
    fields::lemma_text_or_nothing(value, "generated_at"@, f.generated_at);
    fields::lemma_text_or_nothing(value, "username"@, f.username);
    fields::lemma_list_field(value, "events"@, items);
    assert forall|i: int, e: EventModel|
        0 <= i < items.len() && #[trigger] holds_event(items[i], e) implies f.events[i] == e by {
        let item = items[i];
        fields::lemma_text_field(item, "id"@, e.id);
        fields::lemma_text_field(item, "event_type"@, e.event_type);
        fields::lemma_text_field(item, "repo"@, e.repo);
        fields::lemma_text_field(item, "title"@, e.title);
        fields::lemma_text_field(item, "url"@, e.url);
        fields::lemma_text_field(item, "occurred_at"@, e.occurred_at);
        fields::lemma_text_field(item, "thread_id"@, e.thread_id);
        fields::lemma_text_field(item, "thread_title"@, e.thread_title);
        fields::lemma_text_field(item, "thread_url"@, e.thread_url);
        fields::lemma_text_field(item, "status"@, e.status);
        assert(feed::event_of(item) =~= e);
    }
}

// ---------------------------------------------------------------------------
// Texts of values
// ---------------------------------------------------------------------------

/// The words of JSON stand for their values.
pub proof fn lemma_words()
    ensures
        grammar::json_value("null"@) == Ok::<JsonModel, Seq<char>>(JsonModel::Null),
        grammar::json_value("true"@) == Ok::<JsonModel, Seq<char>>(JsonModel::Bool),
        grammar::json_value("false"@) == Ok::<JsonModel, Seq<char>>(JsonModel::Bool),
{
    reveal_strlit("null");
    reveal_strlit("true");
    reveal_strlit("false");
    lemma_word("null"@, "null"@);
    lemma_word("true"@, "true"@);
    lemma_word("false"@, "false"@);
    lemma_skip_front(seq![], "null"@);
    lemma_skip_front(seq![], "true"@);
    lemma_skip_front(seq![], "false"@);
    lemma_skip_front(seq![], seq![]);
    assert(Seq::<char>::empty() + "null"@ =~= "null"@);
    assert(Seq::<char>::empty() + "true"@ =~= "true"@);
    assert(Seq::<char>::empty() + "false"@ =~= "false"@);
    assert(Seq::<char>::empty() + Seq::<char>::empty() =~= seq![]);
}

/// A word matches itself to the end.
proof fn lemma_word(s: Seq<char>, word: Seq<char>)
    requires
        s == word,
    ensures
        grammar::match_word(s, word) == (true, Seq::<char>::empty()),
    decreases word.len(),
{
    if word.len() > 0 {
        lemma_word(s.drop_first(), word.drop_first());
    } else {
        assert(s =~= seq![]);
    }
}

/// A text that was escaped and put in quotes stands for the string.
pub proof fn lemma_string_text(t: Seq<char>)
    ensures
        grammar::json_value(seq!['"'] + feed::json_escaped(t) + seq!['"']) == Ok::<
            JsonModel,
            Seq<char>,
        >(JsonModel::String(t)),
{
    let inner = feed::json_escaped(t) + (seq!['"'] + Seq::<char>::empty());
    let s = seq!['"'] + feed::json_escaped(t) + seq!['"'];
    assert(s =~= seq!['"'] + inner);
    assert(s.drop_first() =~= inner);
    lemma_skip_front(seq![], s);
    assert(Seq::<char>::empty() + s =~= s);
    lemma_escape_round_trip(t, seq![]);
    lemma_skip_front(seq![], seq![]);
    assert(Seq::<char>::empty() + Seq::<char>::empty() =~= seq![]);
}

/// A numeral stands for the number.
pub proof fn lemma_number_text(n: Seq<char>)
    requires
        n.len() > 0,
        n[0] == '-' || '0' <= n[0] <= '9',
        forall|i: int| 0 <= i < n.len() ==> grammar::is_number_char(#[trigger] n[i]),
        numeral::numeral(n) is Some,
    ensures
        grammar::json_value(n) == Ok::<JsonModel, Seq<char>>(JsonModel::Number(n)),
{
    lemma_skip_front(seq![], n);
    assert(Seq::<char>::empty() + n =~= n);
    lemma_whole_run(n);
    assert(n.take(n.len() as int) =~= n);
    assert(n.skip(n.len() as int) =~= seq![]);
    lemma_skip_front(seq![], seq![]);
    assert(Seq::<char>::empty() + Seq::<char>::empty() =~= seq![]);
}

proof fn lemma_whole_run(n: Seq<char>)
    requires
        forall|i: int| 0 <= i < n.len() ==> grammar::is_number_char(#[trigger] n[i]),
    ensures
        grammar::number_run(n) == n.len(),
    decreases n.len(),
{
    if n.len() > 0 {
        let rest = n.drop_first();
        assert forall|i: int| 0 <= i < rest.len() implies grammar::is_number_char(
            #[trigger] rest[i],
        ) by {
            assert(grammar::is_number_char(n[i + 1]));
        }
        assert(grammar::is_number_char(n[0]));
        lemma_whole_run(rest);
    }
}

/// Texts with commas between them.
pub open spec fn with_commas(texts: Seq<Seq<char>>) -> Seq<char>
    decreases texts.len(),
{
    if texts.len() == 0 {
        seq![]
    } else if texts.len() == 1 {
        texts[0]
    } else {
        texts[0] + (seq![','] + with_commas(texts.skip(1)))
    }
}

/// The values of texts.
pub open spec fn values_of(texts: Seq<Seq<char>>) -> Seq<JsonModel> {
    texts.map_values(|t: Seq<char>| grammar::json_value(t)->Ok_0)
}

/// A value is read from the text that stands for it, whatever stands behind a comma or a
/// closing bracket or brace that follows.
proof fn lemma_value_before(text: Seq<char>, tail: Seq<char>)
    requires
        grammar::json_value(text) is Ok,
        tail.len() > 0,
        tail[0] == ',' || tail[0] == ']' || tail[0] == '}',
    ensures
        ({
            let s = grammar::skip_ws(text + tail);
            &&& s.len() >= tail.len()
            &&& s.len() > 0
            &&& s[0] != ']' && s[0] != '}'
            &&& grammar::parse_value(s).0 == Ok::<JsonModel, Seq<char>>(
                grammar::json_value(text)->Ok_0,
            )
            &&& grammar::skip_ws(grammar::parse_value(s).1) == tail
            &&& grammar::parse_value(text + tail) == grammar::parse_value(s)
        }),
{
    let (value, r) = grammar::parse_value(text);
    grammar::lemma_skip_ws(text);
    grammar::lemma_parse_value_before(text, tail);
    grammar::lemma_skip_before(text, tail);
    let s = grammar::skip_ws(text + tail);
    grammar::lemma_skip_ws(text + tail);
    lemma_skip_front(seq![], s);
    assert(Seq::<char>::empty() + s =~= s);
    assert(s[0] == grammar::skip_ws(text)[0]);
    grammar::lemma_skip_all(r);
    grammar::lemma_skip_front(r, tail);
    lemma_skip_front(seq![], tail);
    assert(Seq::<char>::empty() + tail =~= tail);
}

/// The items of an array are read one after another.
proof fn lemma_items_text(texts: Seq<Seq<char>>, items: Seq<JsonModel>, rest: Seq<char>)
    requires
        forall|i: int| 0 <= i < texts.len() ==> grammar::json_value(#[trigger] texts[i]) is Ok,
    ensures
        grammar::parse_items(with_commas(texts) + (seq![']'] + rest), items) == (
            Ok::<JsonModel, Seq<char>>(JsonModel::Array(items + values_of(texts))),
            rest,
        ),
    decreases texts.len(),
{
    let end = seq![']'] + rest;
    let whole = with_commas(texts) + end;
    assert(end.drop_first() =~= rest);
    if texts.len() == 0 {
        assert(whole =~= end);
        lemma_skip_front(seq![], end);
        assert(Seq::<char>::empty() + end =~= end);
        assert(items + values_of(texts) =~= items);
    } else {
        let text = texts[0];
        let v = grammar::json_value(text)->Ok_0;
        assert(grammar::json_value(texts[0]) is Ok);
        if texts.len() == 1 {
            lemma_value_before(text, end);
            assert(items.push(v) =~= items + values_of(texts));
        } else {
            let more = texts.skip(1);
            let later = with_commas(more) + end;
            let tail = seq![','] + later;
            assert(whole =~= text + tail);
            assert(tail.drop_first() =~= later);
            lemma_value_before(text, tail);
            assert forall|i: int| 0 <= i < more.len() implies grammar::json_value(
                #[trigger] more[i],
            ) is Ok by {
                assert(grammar::json_value(texts[i + 1]) is Ok);
            }
            lemma_items_text(more, items.push(v), rest);
            assert(items.push(v) + values_of(more) =~= items + values_of(texts));
        }
    }
}

/// Texts of values with commas between them and brackets around them stand for the array of
/// all the values, in their order.
pub proof fn lemma_array_text(texts: Seq<Seq<char>>)
    requires
        forall|i: int| 0 <= i < texts.len() ==> grammar::json_value(#[trigger] texts[i]) is Ok,
    ensures
        grammar::json_value(seq!['['] + with_commas(texts) + seq![']']) == Ok::<
            JsonModel,
            Seq<char>,
        >(JsonModel::Array(values_of(texts))),
{
    let none = Seq::<char>::empty();
    let inner = with_commas(texts) + (seq![']'] + none);
    let s = seq!['['] + with_commas(texts) + seq![']'];
    assert(s =~= seq!['['] + inner);
    assert(s.drop_first() =~= inner);
    lemma_items_text(texts, seq![], none);
    lemma_skip_front(none, s);
    assert(none + s =~= s);
    lemma_skip_front(none, none);
    assert(none + none =~= none);
    assert(Seq::<JsonModel>::empty() + values_of(texts) =~= values_of(texts));
}

/// A key in quotes, a colon and a text.
pub open spec fn member(key: Seq<char>, text: Seq<char>) -> Seq<char> {
    seq!['"'] + (feed::json_escaped(key) + (seq!['"'] + (seq![':'] + text)))
}

/// Keys and texts with commas between them.
pub open spec fn members(list: Seq<(Seq<char>, Seq<char>)>) -> Seq<char>
    decreases list.len(),
{
    if list.len() == 0 {
        seq![]
    } else if list.len() == 1 {
        member(list[0].0, list[0].1)
    } else {
        member(list[0].0, list[0].1) + (seq![','] + members(list.skip(1)))
    }
}

/// An object with further keys and the values of their texts, later ones in place of earlier
/// ones.
pub open spec fn put_in(
    fields: Map<Seq<char>, JsonModel>,
    list: Seq<(Seq<char>, Seq<char>)>,
) -> Map<Seq<char>, JsonModel>
    decreases list.len(),
{
    if list.len() == 0 {
        fields
    } else {
        put_in(
            fields.insert(list[0].0, grammar::json_value(list[0].1)->Ok_0),
            list.skip(1),
        )
    }
}

/// One key and its value are read.
proof fn lemma_member(
    key: Seq<char>,
    text: Seq<char>,
    fields: Map<Seq<char>, JsonModel>,
    tail: Seq<char>,
)
    requires
        grammar::json_value(text) is Ok,
        tail.len() > 0,
        tail[0] == ',' || tail[0] == '}',
    ensures
        ({
            let v = grammar::json_value(text)->Ok_0;
            let out = grammar::parse_fields(member(key, text) + tail, fields);
            &&& tail[0] == '}' ==> out == (
                Ok::<JsonModel, Seq<char>>(JsonModel::Object(fields.insert(key, v))),
                tail.drop_first(),
            )
            &&& tail[0] == ',' ==> out == grammar::parse_fields(
                tail.drop_first(),
                fields.insert(key, v),
            )
        }),
{
    let after = text + tail;
    let colon = seq![':'] + after;
    let body = feed::json_escaped(key) + (seq!['"'] + colon);
    let s = seq!['"'] + body;
    assert(member(key, text) + tail =~= s);
    lemma_skip_front(seq![], s);
    assert(Seq::<char>::empty() + s =~= s);
    assert(s.drop_first() =~= body);
    lemma_escape_round_trip(key, colon);
    lemma_skip_front(seq![], colon);
    assert(Seq::<char>::empty() + colon =~= colon);
    assert(colon.drop_first() =~= after);
    lemma_value_before(text, tail);
}

/// The fields of an object are read one after another.
proof fn lemma_members_text(
    list: Seq<(Seq<char>, Seq<char>)>,
    fields: Map<Seq<char>, JsonModel>,
    rest: Seq<char>,
)
    requires
        forall|i: int| 0 <= i < list.len() ==> grammar::json_value((#[trigger] list[i]).1) is Ok,
    ensures
        grammar::parse_fields(members(list) + (seq!['}'] + rest), fields) == (
            Ok::<JsonModel, Seq<char>>(JsonModel::Object(put_in(fields, list))),
            rest,
        ),
    decreases list.len(),
{
    let end = seq!['}'] + rest;
    let whole = members(list) + end;
    assert(end.drop_first() =~= rest);
    if list.len() == 0 {
        assert(whole =~= end);
        lemma_skip_front(seq![], end);
        assert(Seq::<char>::empty() + end =~= end);
    } else {
        let (key, text) = list[0];
        assert(grammar::json_value(list[0].1) is Ok);
        let v = grammar::json_value(text)->Ok_0;
        if list.len() == 1 {
            lemma_member(key, text, fields, end);
            assert(list.skip(1) =~= seq![]);
            reveal_with_fuel(put_in, 2);
        } else {
            let more = list.skip(1);
            let later = members(more) + end;
            let tail = seq![','] + later;
            assert(whole =~= member(key, text) + tail);
            assert(tail.drop_first() =~= later);
            lemma_member(key, text, fields, tail);
            assert forall|i: int| 0 <= i < more.len() implies grammar::json_value(
                (#[trigger] more[i]).1,
            ) is Ok by {
                assert(grammar::json_value(list[i + 1].1) is Ok);
            }
            lemma_members_text(more, fields.insert(key, v), rest);
        }
    }
}

/// Keys and texts of values with commas between them and braces around them stand for the
/// object that holds all the values under their keys, of equal keys the last one.
pub proof fn lemma_object_text(list: Seq<(Seq<char>, Seq<char>)>)
    requires
        forall|i: int| 0 <= i < list.len() ==> grammar::json_value((#[trigger] list[i]).1) is Ok,
    ensures
        grammar::json_value(seq!['{'] + members(list) + seq!['}']) == Ok::<JsonModel, Seq<char>>(
            JsonModel::Object(put_in(Map::empty(), list)),
        ),
{
    let none = Seq::<char>::empty();
    let inner = members(list) + (seq!['}'] + none);
    let s = seq!['{'] + members(list) + seq!['}'];
    assert(s =~= seq!['{'] + inner);
    assert(s.drop_first() =~= inner);
    lemma_members_text(list, Map::empty(), none);
    lemma_skip_front(none, s);
    assert(none + s =~= s);
    lemma_skip_front(none, none);
    assert(none + none =~= none);
}

} // verus!
