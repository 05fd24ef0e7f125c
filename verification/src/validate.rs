//! The check of a feed file.

use crate::calendar;
use crate::calendar::is_rfc3339_utc;
use crate::config::ConfigModel;
use crate::contributions;
use crate::decimal;
use crate::decimal::decimal_text;
use crate::event::EventModel;
use crate::feed;
use crate::feed::FeedModel;
use crate::fields;
use crate::fields::text_of;
use crate::grammar;
use crate::grammar::JsonModel;
use crate::json;
use crate::json::{parse_json, Json};
use crate::outcome;
use crate::round_trip;
use crate::search;
use crate::search::ThreadModel;
use crate::text::{owned, same_text, starts_with};
use vstd::prelude::*;

verus! {

// ---------------------------------------------------------------------------
// Fields
// ---------------------------------------------------------------------------

/// The keys of a path with dots between them.
pub open spec fn dotted(path: Seq<Seq<char>>) -> Seq<char>
    decreases path.len(),
{
    if path.len() == 0 {
        seq![]
    } else if path.len() == 1 {
        path[0]
    } else {
        dotted(path.drop_last()) + "."@ + path.last()
    }
}

/// The keys of a path with dots between them.
fn join_path(path: &[&str]) -> (out: String)
    ensures
        out@ == dotted(json::path_texts(path@)),
{
    let ghost keys = json::path_texts(path@);
    let mut out = String::new();
    assert(keys.take(0) =~= seq![]);
    for i in 0..path.len()
        invariant
            keys == json::path_texts(path@),
            out@ == dotted(keys.take(i as int)),
    {
        assert(keys.take(i + 1).drop_last() =~= keys.take(i as int));
        assert(keys[i as int] == path@[i as int]@);
        if i > 0 {
            out.append(".");
            out.append(path[i]);
        } else {
            out.append(path[i]);
            assert(out@ =~= keys[0]);
        }
    }
    assert(keys.take(keys.len() as int) =~= keys);
    out
}

/// The string at a path, or the error that there is none.
pub open spec fn string_at(value: JsonModel, path: Seq<Seq<char>>) -> Result<Seq<char>, Seq<char>> {
    match json::at_path(value, path) {
        Some(JsonModel::String(s)) => Ok(s),
        _ => Err("missing string field "@ + dotted(path)),
    }
}

/// The string at a path, or the error that there is none or that it is empty.
pub open spec fn filled_string_at(value: JsonModel, path: Seq<Seq<char>>) -> Result<
    Seq<char>,
    Seq<char>,
> {
    match string_at(value, path) {
        Ok(s) => if s.len() == 0 {
            Err("empty string field "@ + dotted(path))
        } else {
            Ok(s)
        },
        Err(e) => Err(e),
    }
}

/// A result that holds a borrowed string.
pub open spec fn str_outcome(out: Result<&str, String>) -> Result<Seq<char>, Seq<char>> {
    match out {
        Ok(s) => Ok(s@),
        Err(e) => Err(e@),
    }
}

/// The string at a path.
pub fn string_field<'a>(value: &'a Json, path: &[&str]) -> (out: Result<&'a str, String>)
    ensures
        str_outcome(out) == string_at(value@, json::path_texts(path@)),
{
    if let Some(inner) = value.get_path(path) {
        if let Some(s) = inner.string() {
            return Ok(s);
        }
    }
    let mut message = owned("missing string field ");
    message.append(join_path(path).as_str());
    Err(message)
}

/// The string at a path, which must not be empty.
pub fn required_string<'a>(value: &'a Json, path: &[&str]) -> (out: Result<&'a str, String>)
    ensures
        str_outcome(out) == filled_string_at(value@, json::path_texts(path@)),
{
    let s = string_field(value, path)?;
    if s.is_empty() {
        let mut message = owned("empty string field ");
        message.append(join_path(path).as_str());
        return Err(message);
    }
    Ok(s)
}

// ---------------------------------------------------------------------------
// Events
// ---------------------------------------------------------------------------

/// The keys that must hold a string that is not empty.
pub open spec fn required_keys() -> Seq<Seq<char>> {
    seq![
        "id"@,
        "event_type"@,
        "repo"@,
        "title"@,
        "url"@,
        "occurred_at"@,
        "thread_id"@,
        "thread_title"@,
        "thread_url"@,
    ]
}

/// The problem with the first of the keys that does not hold such a string.
pub open spec fn keys_problem(value: JsonModel, keys: Seq<Seq<char>>) -> Option<Seq<char>>
    decreases keys.len(),
{
    if keys.len() == 0 {
        None
    } else {
        match filled_string_at(value, seq![keys[0]]) {
            Err(e) => Some(e),
            Ok(_) => keys_problem(value, keys.skip(1)),
        }
    }
}

/// Whether an event type is one of those that a feed may hold.
pub open spec fn supported(kind: Seq<char>) -> bool {
    kind == "pull_request"@ || kind == "issue"@ || kind == "commit"@ || kind == "review"@ || kind
        == "comment"@
}

/// The first problem with an event.
pub open spec fn event_problem(value: JsonModel) -> Option<Seq<char>> {
    match keys_problem(value, required_keys()) {
        Some(p) => Some(p),
        None => match string_at(value, seq!["status"@]) {
            Err(e) => Some(e),
            Ok(_) => if !supported(fields::text_field(value, "event_type"@)) {
                Some("unsupported event_type "@ + fields::text_field(value, "event_type"@))
            } else if !"https://github.com/"@.is_prefix_of(fields::text_field(value, "url"@)) {
                Some("url must point to github.com"@)
            } else if !calendar::is_timestamp(fields::text_field(value, "occurred_at"@)) {
                Some("occurred_at must be RFC3339-like UTC"@)
            } else {
                None
            },
        },
    }
}

/// A problem with the name of the event at an index.
pub open spec fn at_event(index: nat, p: Seq<char>) -> Seq<char> {
    "event "@ + decimal::decimal(index) + ": "@ + p
}

/// The problem with the first event that has one.
pub open spec fn events_problem(events: Seq<JsonModel>) -> Option<Seq<char>>
    decreases events.len(),
{
    if events.len() == 0 {
        None
    } else {
        match events_problem(events.drop_last()) {
            Some(p) => Some(p),
            None => match event_problem(events.last()) {
                Some(p) => Some(at_event((events.len() - 1) as nat, p)),
                None => None,
            },
        }
    }
}

/// The first problem with a feed.
pub open spec fn value_problem(value: JsonModel) -> Option<Seq<char>> {
    match keys_problem(value, seq!["generated_at"@, "username"@]) {
        Some(p) => Some(p),
        None => match json::field(value, "events"@) {
            Some(JsonModel::Array(events)) => events_problem(events),
            _ => Some("feed events must be an array"@),
        },
    }
}

/// The first problem with a feed file.
pub open spec fn feed_problem(raw: Seq<char>) -> Option<Seq<char>> {
    match grammar::json_value(raw) {
        Err(e) => Some(e),
        Ok(value) => value_problem(value),
    }
}

/// A problem stays the first one, whatever events follow.
proof fn lemma_problem_stays(events: Seq<JsonModel>, k: int)
    requires
        0 <= k <= events.len(),
        events_problem(events.take(k)) is Some,
    ensures
        events_problem(events) == events_problem(events.take(k)),
    decreases events.len(),
{
    if k == events.len() {
        assert(events.take(k) =~= events);
    } else {
        assert(events.drop_last().take(k) =~= events.take(k));
        lemma_problem_stays(events.drop_last(), k);
    }
}

/// Checks that each of the keys holds a string that is not empty.
fn check_keys(value: &Json, keys: &[&str]) -> (out: Result<(), String>)
    ensures
        outcome::problem(out) == keys_problem(value@, json::path_texts(keys@)),
{
    let ghost all = json::path_texts(keys@);
    assert(all.skip(0) =~= all);
    for i in 0..keys.len()
        invariant
            all == json::path_texts(keys@),
            keys_problem(value@, all.skip(i as int)) == keys_problem(value@, all),
    {
        assert(all.skip(i as int)[0] == keys@[i as int]@);
        assert(all.skip(i as int).skip(1) =~= all.skip(i + 1));
        let path = [keys[i]];
        assert(json::path_texts(path@) =~= seq![all[i as int]]);
        if let Err(e) = required_string(value, &path) {
            return Err(e);
        }
    }
    Ok(())
}

/// Checks whether an event type is one of those that a feed may hold.
fn is_supported(kind: &str) -> (out: bool)
    ensures
        out == supported(kind@),
{
    same_text(kind, "pull_request") || same_text(kind, "issue") || same_text(kind, "commit")
        || same_text(kind, "review") || same_text(kind, "comment")
}

/// Checks an event.
fn check_event(value: &Json) -> (out: Result<(), String>)
    ensures
        outcome::problem(out) == event_problem(value@),
{
    let keys = [
        "id",
        "event_type",
        "repo",
        "title",
        "url",
        "occurred_at",
        "thread_id",
        "thread_title",
        "thread_url",
    ];
    assert(json::path_texts(keys@) =~= required_keys());
    check_keys(value, &keys)?;
    let path = ["status"];
    assert(json::path_texts(path@) =~= seq!["status"@]);
    if let Err(e) = string_field(value, &path) {
        return Err(e);
    }
    let kind = text_of(value, "event_type");
    if !is_supported(kind.as_str()) {
        let mut message = owned("unsupported event_type ");
        message.append(kind.as_str());
        return Err(message);
    }
    if !starts_with(text_of(value, "url").as_str(), "https://github.com/") {
        return Err(owned("url must point to github.com"));
    }
    if !is_rfc3339_utc(text_of(value, "occurred_at").as_str()) {
        return Err(owned("occurred_at must be RFC3339-like UTC"));
    }
    Ok(())
}

/// Checks events in their order.
fn check_events(events: &[Json]) -> (out: Result<(), String>)
    ensures
        outcome::problem(out) == events_problem(json::item_models(events@)),
{
    let ghost all = json::item_models(events@);
    proof {
        json::lemma_item_models(events@);
    }
    assert(all.take(0) =~= seq![]);
    for i in 0..events.len()
        invariant
            all == json::item_models(events@),
            all.len() == events@.len(),
            forall|j: int|
                0 <= j < events@.len() ==> all[j] == json::json_model(#[trigger] events@[j]),
            events_problem(all.take(i as int)) is None,
    {
        assert(all.take(i + 1).drop_last() =~= all.take(i as int));
        assert(all[i as int] == json::json_model(events@[i as int]));
        if let Err(p) = check_event(&events[i]) {
            let mut message = owned("event ");
            message.append(decimal_text(i as u64).as_str());
            message.append(": ");
            message.append(p.as_str());
            proof {
                lemma_problem_stays(all, i + 1);
            }
            return Err(message);
        }
    }
    assert(all.take(all.len() as int) =~= all);
    Ok(())
}

/// Checks the text of a feed file and gives the first problem with it.
pub fn validate_feed_cmd(raw: &str) -> (out: Result<(), String>)
    ensures
        outcome::problem(out) == feed_problem(raw@),
{
    let value = parse_json(raw)?;
    let keys = ["generated_at", "username"];
    assert(json::path_texts(keys@) =~= seq!["generated_at"@, "username"@]);
    check_keys(&value, &keys)?;
    if let Some(inner) = value.get("events") {
        if let Some(events) = inner.array() {
            return check_events(events);
        }
    }
    Err(owned("feed events must be an array"))
}

// ---------------------------------------------------------------------------
// Laws
// ---------------------------------------------------------------------------

/// Whether an event can stand in a feed that passes the check.
pub open spec fn sound_event(e: EventModel) -> bool {
    &&& e.id.len() > 0
    &&& supported(e.event_type)
    &&& e.repo.len() > 0
    &&& e.title.len() > 0
    &&& "https://github.com/"@.is_prefix_of(e.url)
    &&& calendar::is_timestamp(e.occurred_at)
    &&& e.thread_id.len() > 0
    &&& e.thread_title.len() > 0
    &&& e.thread_url.len() > 0
}

/// Whether a feed passes the check once it is written.
pub open spec fn sound_feed(f: FeedModel) -> bool {
    &&& f.generated_at.len() > 0
    &&& f.username.len() > 0
    &&& forall|i: int| 0 <= i < f.events.len() ==> sound_event(#[trigger] f.events[i])
}

/// A path of one key leads to the field.
proof fn lemma_single_key(value: JsonModel, key: Seq<char>)
    ensures
        json::at_path(value, seq![key]) == json::field(value, key),
{
    reveal_with_fuel(json::at_path, 2);
    assert(seq![key].drop_first() =~= seq![]);
}

/// What the check says of an event that was written.
proof fn lemma_written_event(e: EventModel)
    ensures
        event_problem(round_trip::event_object(e)) is None <==> sound_event(e),
{
    let obj = round_trip::event_object(e);
    let fields = feed::event_fields(e);
    let keys = required_keys();
    assert forall|i: int| 0 <= i < 9 implies #[trigger] filled_string_at(obj, seq![keys[i]]) is Ok
        <==> fields[i].1.len() > 0 by {
        round_trip::lemma_event_object(e, i);
        lemma_single_key(obj, keys[i]);
        assert(keys[i] == fields[i].0);
    }
    assert forall|i: int| 0 <= i < 10 implies fields::text_field(obj, (#[trigger] fields[i]).0)
        == fields[i].1 by {
        round_trip::lemma_event_object(e, i);
    }
    assert(fields::text_field(obj, fields[1].0) == e.event_type);
    assert(fields::text_field(obj, fields[4].0) == e.url);
    assert(fields::text_field(obj, fields[5].0) == e.occurred_at);
    round_trip::lemma_event_object(e, 9);
    lemma_single_key(obj, "status"@);
    assert(fields[9].0 == "status"@);
    lemma_keys_problem(obj, keys);
    if sound_event(e) {
        reveal_strlit("https://github.com/");
        assert(e.url.len() > 0);
        assert(e.event_type.len() > 0) by {
            reveal_strlit("pull_request");
            reveal_strlit("issue");
            reveal_strlit("commit");
            reveal_strlit("review");
            reveal_strlit("comment");
        }
        assert forall|i: int| 0 <= i < keys.len() implies #[trigger] filled_string_at(
            obj,
            seq![keys[i]],
        ) is Ok by {
            assert(fields[i].1.len() > 0);
        }
    }
    if event_problem(obj) is None {
        assert forall|i: int| 0 <= i < 9 implies (#[trigger] fields[i]).1.len() > 0 by {
            assert(filled_string_at(obj, seq![keys[i]]) is Ok);
        }
        assert(fields[0].1.len() > 0);
        assert(fields[2].1.len() > 0);
        assert(fields[3].1.len() > 0);
        assert(fields[6].1.len() > 0);
        assert(fields[7].1.len() > 0);
        assert(fields[8].1.len() > 0);
    }
}

/// There is no problem with keys where each holds a string that is not empty.
proof fn lemma_keys_problem(value: JsonModel, keys: Seq<Seq<char>>)
    ensures
        keys_problem(value, keys) is None <==> forall|i: int|
            0 <= i < keys.len() ==> #[trigger] filled_string_at(value, seq![keys[i]]) is Ok,
    decreases keys.len(),
{
    if keys.len() > 0 {
        let rest = keys.skip(1);
        lemma_keys_problem(value, rest);
        if filled_string_at(value, seq![keys[0]]) is Ok {
            if keys_problem(value, keys) is None {
                assert forall|i: int| 0 <= i < keys.len() implies #[trigger] filled_string_at(
                    value,
                    seq![keys[i]],
                ) is Ok by {
                    if i > 0 {
                        assert(filled_string_at(value, seq![rest[i - 1]]) is Ok);
                    }
                }
            }
            if forall|i: int|
                0 <= i < keys.len() ==> #[trigger] filled_string_at(value, seq![keys[i]]) is Ok {
                assert forall|i: int| 0 <= i < rest.len() implies #[trigger] filled_string_at(
                    value,
                    seq![rest[i]],
                ) is Ok by {
                    assert(filled_string_at(value, seq![keys[i + 1]]) is Ok);
                }
            }
        }
    }
}

/// There is no problem with events where there is none with each.
proof fn lemma_events_problem(events: Seq<JsonModel>)
    ensures
        events_problem(events) is None <==> forall|i: int|
            0 <= i < events.len() ==> event_problem(#[trigger] events[i]) is None,
    decreases events.len(),
{
    if events.len() > 0 {
        let front = events.drop_last();
        lemma_events_problem(front);
        if events_problem(events) is None {
            assert forall|i: int| 0 <= i < events.len() implies event_problem(
                #[trigger] events[i],
            ) is None by {
                if i < front.len() {
                    assert(event_problem(front[i]) is None);
                }
            }
        }
        if forall|i: int|
            0 <= i < events.len() ==> event_problem(#[trigger] events[i]) is None {
            assert forall|i: int| 0 <= i < front.len() implies event_problem(
                #[trigger] front[i],
            ) is None by {
                assert(event_problem(events[i]) is None);
            }
            assert(event_problem(events[events.len() - 1]) is None);
        }
    }
}

/// A feed that was written passes the check if and only if its names are filled, its events
/// are of the known types, and their links and times have the right form.
pub proof fn lemma_written_feed_passes(f: FeedModel)
    ensures
        feed_problem(feed::feed_text(f)) is None <==> sound_feed(f),
{
    let value = round_trip::feed_object(f);
    let objects = round_trip::event_objects(f.events);
    let keys = seq!["generated_at"@, "username"@];
    round_trip::lemma_feed_text(f);
    round_trip::lemma_feed_object(f);
    lemma_single_key(value, "generated_at"@);
    lemma_single_key(value, "username"@);
    lemma_keys_problem(value, keys);
    assert(filled_string_at(value, seq![keys[0]]) is Ok <==> f.generated_at.len() > 0);
    assert(filled_string_at(value, seq![keys[1]]) is Ok <==> f.username.len() > 0);
    lemma_events_problem(objects);
    assert forall|i: int| 0 <= i < f.events.len() implies (event_problem(#[trigger] objects[i])
        is None <==> sound_event(f.events[i])) by {
        lemma_written_event(f.events[i]);
    }
    if sound_feed(f) {
        assert forall|i: int| 0 <= i < objects.len() implies event_problem(
            #[trigger] objects[i],
        ) is None by {
            assert(sound_event(f.events[i]));
        }
    }
    if feed_problem(feed::feed_text(f)) is None {
        assert forall|i: int| 0 <= i < f.events.len() implies sound_event(
            #[trigger] f.events[i],
        ) by {
            assert(event_problem(objects[i]) is None);
        }
    }
}

/// Whether a value holds a string under a key that is not empty.
pub open spec fn filled(value: JsonModel, key: Seq<char>) -> bool {
    exists|s: Seq<char>| #[trigger] fields::has_text(value, key, s) && s.len() > 0
}

/// Whether a value holds all that the check asks of an event: an id, a repository, a title,
/// a link to GitHub, a time, the id, the title and the link of its thread, a status, which
/// may be empty, and a type that is one of the five.
pub open spec fn passes(item: JsonModel) -> bool {
    &&& filled(item, "id"@)
    &&& filled(item, "repo"@)
    &&& filled(item, "title"@)
    &&& filled(item, "thread_id"@)
    &&& filled(item, "thread_title"@)
    &&& filled(item, "thread_url"@)
    &&& exists|s: Seq<char>| #[trigger] fields::has_text(item, "status"@, s)
    &&& exists|kind: Seq<char>| #[trigger]
        fields::has_text(item, "event_type"@, kind) && (kind == "pull_request"@ || kind
            == "issue"@ || kind == "commit"@ || kind == "review"@ || kind == "comment"@)
    &&& exists|url: Seq<char>| #[trigger]
        fields::has_text(item, "url"@, url) && "https://github.com/"@.is_prefix_of(url)
    &&& exists|at: Seq<char>| #[trigger]
        fields::has_text(item, "occurred_at"@, at) && calendar::is_timestamp(at)
}

/// What a key of a value holds.
proof fn lemma_filled(value: JsonModel, key: Seq<char>)
    ensures
        filled_string_at(value, seq![key]) is Ok <==> filled(value, key),
        filled(value, key) ==> fields::has_text(value, key, fields::text_field(value, key))
            && fields::text_field(value, key).len() > 0,
        string_at(value, seq![key]) is Ok <==> exists|s: Seq<char>| #[trigger]
            fields::has_text(value, key, s),
{
    lemma_single_key(value, key);
    if let Some(JsonModel::String(s)) = json::field(value, key) {
        assert(fields::has_text(value, key, s));
        if filled(value, key) {
            let t = choose|t: Seq<char>| #[trigger] fields::has_text(value, key, t) && t.len() > 0;
            assert(t == s);
        }
    } else {
        assert forall|s: Seq<char>| !#[trigger] fields::has_text(value, key, s) by {}
    }
}

/// The types that are supported are not empty.
proof fn lemma_types_filled(kind: Seq<char>)
    requires
        kind == "pull_request"@ || kind == "issue"@ || kind == "commit"@ || kind == "review"@
            || kind == "comment"@,
    ensures
        kind.len() > 0,
{
    reveal_strlit("pull_request");
    reveal_strlit("issue");
    reveal_strlit("commit");
    reveal_strlit("review");
    reveal_strlit("comment");
}

/// The check finds no problem with an event if and only if it holds all that is asked.
pub proof fn lemma_event_passes(item: JsonModel)
    ensures
        event_problem(item) is None <==> passes(item),
{
    let keys = required_keys();
    lemma_keys_problem(item, keys);
    lemma_filled(item, "id"@);
    lemma_filled(item, "event_type"@);
    lemma_filled(item, "repo"@);
    lemma_filled(item, "title"@);
    lemma_filled(item, "url"@);
    lemma_filled(item, "occurred_at"@);
    lemma_filled(item, "thread_id"@);
    lemma_filled(item, "thread_title"@);
    lemma_filled(item, "thread_url"@);
    lemma_filled(item, "status"@);
    let kind = fields::text_field(item, "event_type"@);
    let url = fields::text_field(item, "url"@);
    let at = fields::text_field(item, "occurred_at"@);
    if event_problem(item) is None {
        assert(filled_string_at(item, seq![keys[0]]) is Ok);
        assert(filled_string_at(item, seq![keys[1]]) is Ok);
        assert(filled_string_at(item, seq![keys[2]]) is Ok);
        assert(filled_string_at(item, seq![keys[3]]) is Ok);
        assert(filled_string_at(item, seq![keys[4]]) is Ok);
        assert(filled_string_at(item, seq![keys[5]]) is Ok);
        assert(filled_string_at(item, seq![keys[6]]) is Ok);
        assert(filled_string_at(item, seq![keys[7]]) is Ok);
        assert(filled_string_at(item, seq![keys[8]]) is Ok);
        assert(fields::has_text(item, "event_type"@, kind));
        assert(fields::has_text(item, "url"@, url));
        assert(fields::has_text(item, "occurred_at"@, at));
    }
    if passes(item) {
        let k = choose|k: Seq<char>| #[trigger]
            fields::has_text(item, "event_type"@, k) && (k == "pull_request"@ || k == "issue"@
                || k == "commit"@ || k == "review"@ || k == "comment"@);
        let u = choose|u: Seq<char>| #[trigger]
            fields::has_text(item, "url"@, u) && "https://github.com/"@.is_prefix_of(u);
        let t = choose|t: Seq<char>| #[trigger]
            fields::has_text(item, "occurred_at"@, t) && calendar::is_timestamp(t);
        lemma_types_filled(k);
        reveal_strlit("https://github.com/");
        assert(u.len() > 0 && t.len() > 0);
        assert(k == kind && u == url && t == at);
        assert(filled(item, "event_type"@) && filled(item, "url"@) && filled(
            item,
            "occurred_at"@,
        ));
        assert forall|i: int| 0 <= i < keys.len() implies #[trigger] filled_string_at(
            item,
            seq![keys[i]],
        ) is Ok by {
            assert(keys[i] == "id"@ || keys[i] == "event_type"@ || keys[i] == "repo"@ || keys[i]
                == "title"@ || keys[i] == "url"@ || keys[i] == "occurred_at"@ || keys[i]
                == "thread_id"@ || keys[i] == "thread_title"@ || keys[i] == "thread_url"@);
        }
    }
}

/// A feed file passes the check if and only if it is a JSON object with a time, a user name
/// and a list of events, each of which holds all that is asked.
pub proof fn lemma_feed_passes(raw: Seq<char>)
    ensures
        feed_problem(raw) is None <==> (grammar::json_value(raw) matches Ok(value) && filled(
            value,
            "generated_at"@,
        ) && filled(value, "username"@) && exists|items: Seq<JsonModel>| #[trigger]
            json::holds(value, "events"@, JsonModel::Array(items)) && forall|i: int|
                0 <= i < items.len() ==> passes(#[trigger] items[i])),
{
    if let Ok(value) = grammar::json_value(raw) {
        let keys = seq!["generated_at"@, "username"@];
        lemma_keys_problem(value, keys);
        lemma_filled(value, "generated_at"@);
        lemma_filled(value, "username"@);
        if keys_problem(value, keys) is None {
            assert(filled_string_at(value, seq![keys[0]]) is Ok);
            assert(filled_string_at(value, seq![keys[1]]) is Ok);
        }
        if filled(value, "generated_at"@) && filled(value, "username"@) {
            assert forall|i: int| 0 <= i < keys.len() implies #[trigger] filled_string_at(
                value,
                seq![keys[i]],
            ) is Ok by {
                assert(keys[i] == "generated_at"@ || keys[i] == "username"@);
            }
        }
        if let Some(JsonModel::Array(items)) = json::field(value, "events"@) {
            assert(json::holds(value, "events"@, JsonModel::Array(items)));
            lemma_events_problem(items);
            assert forall|i: int| 0 <= i < items.len() implies (event_problem(
                #[trigger] items[i],
            ) is None <==> passes(items[i])) by {
                lemma_event_passes(items[i]);
            }
        }
    }
}

/// The check tells the first event with a problem by its place, counted from zero, whatever
/// stands behind it.
pub proof fn lemma_first_problem(items: Seq<JsonModel>, k: int)
    requires
        0 <= k < items.len(),
        forall|i: int| 0 <= i < k ==> passes(#[trigger] items[i]),
        !passes(items[k]),
    ensures
        events_problem(items) == Some(
            "event "@ + decimal::decimal(k as nat) + ": "@ + event_problem(items[k])->0,
        ),
{
    let front = items.take(k + 1);
    lemma_event_passes(items[k]);
    lemma_events_problem(items.take(k));
    assert forall|i: int| 0 <= i < k implies event_problem(#[trigger] items.take(k)[i]) is None by {
        assert(passes(items[i]));
        lemma_event_passes(items[i]);
    }
    assert(front.drop_last() =~= items.take(k));
    assert(front.last() == items[k]);
    lemma_problem_stays(items, k + 1);
}

/// What the check says of an event with all fields filled whose type, link or time is wrong.
pub proof fn lemma_wrong_event(
    item: JsonModel,
    kind: Seq<char>,
    url: Seq<char>,
    at: Seq<char>,
)
    requires
        filled(item, "id"@) && filled(item, "repo"@) && filled(item, "title"@),
        filled(item, "thread_id"@) && filled(item, "thread_title"@) && filled(
            item,
            "thread_url"@,
        ),
        exists|s: Seq<char>| #[trigger] fields::has_text(item, "status"@, s),
        fields::has_text(item, "event_type"@, kind) && kind.len() > 0,
        fields::has_text(item, "url"@, url) && url.len() > 0,
        fields::has_text(item, "occurred_at"@, at) && at.len() > 0,
    ensures
        event_problem(item) == if kind != "pull_request"@ && kind != "issue"@ && kind != "commit"@
            && kind != "review"@ && kind != "comment"@ {
            Some("unsupported event_type "@ + kind)
        } else if !"https://github.com/"@.is_prefix_of(url) {
            Some("url must point to github.com"@)
        } else if !calendar::is_timestamp(at) {
            Some("occurred_at must be RFC3339-like UTC"@)
        } else {
            None
        },
{
    let keys = required_keys();
    lemma_keys_problem(item, keys);
    lemma_filled(item, "id"@);
    lemma_filled(item, "event_type"@);
    lemma_filled(item, "repo"@);
    lemma_filled(item, "title"@);
    lemma_filled(item, "url"@);
    lemma_filled(item, "occurred_at"@);
    lemma_filled(item, "thread_id"@);
    lemma_filled(item, "thread_title"@);
    lemma_filled(item, "thread_url"@);
    lemma_filled(item, "status"@);
    assert(filled(item, "event_type"@) && filled(item, "url"@) && filled(item, "occurred_at"@));
    assert forall|i: int| 0 <= i < keys.len() implies #[trigger] filled_string_at(
        item,
        seq![keys[i]],
    ) is Ok by {
        assert(keys[i] == "id"@ || keys[i] == "event_type"@ || keys[i] == "repo"@ || keys[i]
            == "title"@ || keys[i] == "url"@ || keys[i] == "occurred_at"@ || keys[i]
            == "thread_id"@ || keys[i] == "thread_title"@ || keys[i] == "thread_url"@);
    }
}

/// A field that must be filled is told of where it is missing or empty, the first one first.
pub proof fn lemma_missing_field(value: JsonModel, keys: Seq<Seq<char>>, k: int)
    requires
        0 <= k < keys.len(),
        forall|i: int| 0 <= i < k ==> filled(value, #[trigger] keys[i]),
        !filled(value, keys[k]),
    ensures
        fields::has_text(value, keys[k], seq![]) ==> keys_problem(value, keys) == Some(
            "empty string field "@ + keys[k],
        ),
        !fields::has_text(value, keys[k], seq![]) ==> keys_problem(value, keys) == Some(
            "missing string field "@ + keys[k],
        ),
    decreases keys.len(),
{
    lemma_filled(value, keys[0]);
    lemma_single_key(value, keys[0]);
    if k == 0 {
        reveal_with_fuel(dotted, 2);
        if let Some(JsonModel::String(s)) = json::field(value, keys[0]) {
            assert(fields::has_text(value, keys[0], s));
            assert(s.len() == 0);
            assert(s =~= seq![]);
        }
    } else {
        let rest = keys.skip(1);
        assert(filled(value, keys[0]));
        assert forall|i: int| 0 <= i < k - 1 implies filled(value, #[trigger] rest[i]) by {
            assert(filled(value, keys[i + 1]));
        }
        assert(rest[k - 1] == keys[k]);
        lemma_missing_field(value, rest, k - 1);
    }
}

/// A feed that was written passes the check if and only if its time and its user name are
/// filled, and each event is a pull request, an issue, commits, a review or a comment with
/// all its texts filled, a link to GitHub and a timestamp.
pub proof fn lemma_five_types_pass(f: FeedModel)
    ensures
        feed_problem(feed::feed_text(f)) is None <==> f.generated_at.len() > 0 && f.username.len()
            > 0 && forall|i: int|
            0 <= i < f.events.len() ==> {
                let e = #[trigger] f.events[i];
                &&& e.event_type == "pull_request"@ || e.event_type == "issue"@ || e.event_type
                    == "commit"@ || e.event_type == "review"@ || e.event_type == "comment"@
                &&& e.id.len() > 0 && e.repo.len() > 0 && e.title.len() > 0
                &&& e.thread_id.len() > 0 && e.thread_title.len() > 0 && e.thread_url.len() > 0
                &&& "https://github.com/"@.is_prefix_of(e.url)
                &&& calendar::is_timestamp(e.occurred_at)
            },
{
    lemma_written_feed_passes(f);
}

/// Comments and contributions that were collected are of types that the check lets pass.
pub proof fn lemma_collected_types_pass(
    c: ConfigModel,
    thread: ThreadModel,
    comment: JsonModel,
    from: Seq<char>,
    repo: Seq<char>,
    node: JsonModel,
    e: EventModel,
)
    requires
        search::comment_event(c, thread, comment, from) == Some(e) || contributions::node_event(
            "pull_request"@,
            repo,
            node,
            c.username,
        ) == Some(e) || contributions::node_event("issue"@, repo, node, c.username) == Some(e)
            || contributions::node_event("commit"@, repo, node, c.username) == Some(e)
            || contributions::node_event("review"@, repo, node, c.username) == Some(e),
        e.id.len() > 0 && e.repo.len() > 0 && e.title.len() > 0,
        e.thread_id.len() > 0 && e.thread_title.len() > 0 && e.thread_url.len() > 0,
        "https://github.com/"@.is_prefix_of(e.url),
        calendar::is_timestamp(e.occurred_at),
    ensures
        event_problem(round_trip::event_object(e)) is None,
{
    lemma_written_event(e);
    contributions::lemma_node_event(repo, node, c.username, e);
}

} // verus!
