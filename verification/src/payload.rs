//! What the bodies of requests say.

use crate::candidates;
use crate::feed;
use crate::grammar;
use crate::grammar::JsonModel;
use crate::request;
use crate::round_trip;
use vstd::prelude::*;

verus! {

/// A key of an object and what follows its colon.
spec fn named(key: Seq<char>, after: Seq<char>) -> Seq<char> {
    seq!['"'] + (key + (seq!['"'] + (seq![':'] + after)))
}

/// A string in quotes and what follows it.
spec fn quoted(v: Seq<char>, after: Seq<char>) -> Seq<char> {
    seq!['"'] + (feed::json_escaped(v) + (seq!['"'] + after))
}

/// Text that does not start with white space is not cut.
proof fn lemma_no_space(x: Seq<char>)
    requires
        x.len() > 0 ==> !grammar::is_ws(x[0]),
    ensures
        grammar::skip_ws(x) == x,
{
    round_trip::lemma_skip_front(seq![], x);
    assert(Seq::<char>::empty() + x =~= x);
}

/// A string in quotes is read back.
proof fn lemma_quoted(v: Seq<char>, after: Seq<char>)
    ensures
        grammar::parse_value(quoted(v, after)) == (
            Ok::<JsonModel, Seq<char>>(JsonModel::String(v)),
            after,
        ),
{
    let inner = feed::json_escaped(v) + (seq!['"'] + after);
    lemma_no_space(quoted(v, after));
    assert(quoted(v, after).drop_first() =~= inner);
    round_trip::lemma_escape_round_trip(v, after);
}

/// A key and its value are read into the object.
proof fn lemma_named(
    key: Seq<char>,
    after: Seq<char>,
    acc: Map<Seq<char>, JsonModel>,
    v: JsonModel,
    rest: Seq<char>,
)
    requires
        round_trip::plain(key),
        grammar::parse_value(after) == (Ok::<JsonModel, Seq<char>>(v), rest),
        rest.len() > 0,
        rest[0] == ',' || rest[0] == '}',
    ensures
        rest[0] == '}' ==> grammar::parse_fields(named(key, after), acc) == (
            Ok::<JsonModel, Seq<char>>(JsonModel::Object(acc.insert(key, v))),
            rest.drop_first(),
        ),
        rest[0] == ',' ==> grammar::parse_fields(named(key, after), acc) == grammar::parse_fields(
            rest.drop_first(),
            acc.insert(key, v),
        ),
{
    let colon = seq![':'] + after;
    let tail = key + (seq!['"'] + colon);
    let s = named(key, after);
    lemma_no_space(s);
    assert(s.drop_first() =~= tail);
    round_trip::lemma_plain_text(key, colon);
    lemma_no_space(colon);
    assert(colon.drop_first() =~= after);
    lemma_no_space(rest);
    grammar::lemma_parse_value_shrinks(after);
}

/// The variables of the query and what follows them.
spec fn variables_text(login: Seq<char>, from: Seq<char>, to: Seq<char>, after: Seq<char>) -> Seq<
    char,
> {
    let to_text = quoted(to, seq!['}'] + after);
    let from_text = quoted(from, seq![','] + named("to"@, to_text));
    seq!['{'] + named("login"@, quoted(login, seq![','] + named("from"@, from_text)))
}

/// The query with its variables.
spec fn query_text(query: Seq<char>, variables: Seq<char>) -> Seq<char> {
    seq!['{'] + named("query"@, quoted(query, seq![','] + named("variables"@, variables)))
}

/// How the variables are laid out.
proof fn lemma_variables_layout(login: Seq<char>, from: Seq<char>, to: Seq<char>)
    ensures
        "\",\"variables\":{\"login\":\""@ + (feed::json_escaped(login) + ("\",\"from\":\""@ + (
        feed::json_escaped(from) + ("\",\"to\":\""@ + (feed::json_escaped(to) + "\"}}"@)))))
            == seq!['"'] + (seq![','] + named(
            "variables"@,
            variables_text(login, from, to, seq!['}']),
        )),
{
    reveal_strlit("\",\"variables\":{\"login\":\"");
    reveal_strlit("\",\"from\":\"");
    reveal_strlit("\",\"to\":\"");
    reveal_strlit("\"}}");
    reveal_strlit("variables");
    reveal_strlit("login");
    reveal_strlit("from");
    reveal_strlit("to");
    let e2 = feed::json_escaped(login);
    let e3 = feed::json_escaped(from);
    let e4 = feed::json_escaped(to);
    let to_text = quoted(to, seq!['}'] + seq!['}']);
    let from_text = quoted(from, seq![','] + named("to"@, to_text));
    let login_text = quoted(login, seq![','] + named("from"@, from_text));
    assert("\"}}"@ =~= seq!['"'] + (seq!['}'] + seq!['}']));
    let x4 = e4 + "\"}}"@;
    assert("\",\"to\":\""@ + x4 =~= seq!['"'] + (seq![','] + named("to"@, seq!['"'] + x4)));
    let x3 = e3 + ("\",\"to\":\""@ + x4);
    assert("\",\"from\":\""@ + x3 =~= seq!['"'] + (seq![','] + named("from"@, seq!['"'] + x3)));
    let x2 = e2 + ("\",\"from\":\""@ + x3);
    assert(seq!['"'] + x2 == login_text);
    assert("\",\"variables\":{\"login\":\""@ + x2 =~= seq!['"'] + (seq![','] + named(
        "variables"@,
        seq!['{'] + named("login"@, seq!['"'] + x2),
    )));
}

/// How the query and its variables are laid out.
proof fn lemma_query_layout(login: Seq<char>, from: Seq<char>, to: Seq<char>)
    ensures
        request::contributions_body(login, from, to) == query_text(
            request::CONTRIBUTIONS_QUERY@,
            variables_text(login, from, to, seq!['}']),
        ),
{
    let l1 = "{\"query\":\""@;
    let l2 = "\",\"variables\":{\"login\":\""@;
    let l3 = "\",\"from\":\""@;
    let l4 = "\",\"to\":\""@;
    let l5 = "\"}}"@;
    let e1 = feed::json_escaped(request::CONTRIBUTIONS_QUERY@);
    let e2 = feed::json_escaped(login);
    let e3 = feed::json_escaped(from);
    let e4 = feed::json_escaped(to);
    let later = e2 + (l3 + (e3 + (l4 + (e4 + l5))));
    lemma_right(l1 + e1 + l2 + e2 + l3 + e3 + l4, e4, l5);
    lemma_right(l1 + e1 + l2 + e2 + l3 + e3, l4, e4 + l5);
    lemma_right(l1 + e1 + l2 + e2 + l3, e3, l4 + (e4 + l5));
    lemma_right(l1 + e1 + l2 + e2, l3, e3 + (l4 + (e4 + l5)));
    lemma_right(l1 + e1 + l2, e2, l3 + (e3 + (l4 + (e4 + l5))));
    lemma_right(l1 + e1, l2, later);
    lemma_right(l1, e1, l2 + later);
    lemma_variables_layout(login, from, to);
    reveal_strlit("{\"query\":\"");
    reveal_strlit("query");
    let x1 = e1 + (l2 + later);
    assert(l1 + x1 =~= seq!['{'] + named("query"@, seq!['"'] + x1));
}

/// The variables of the query.
pub open spec fn variables(login: Seq<char>, from: Seq<char>, to: Seq<char>) -> JsonModel {
    JsonModel::Object(
        Map::empty().insert("login"@, JsonModel::String(login)).insert(
            "from"@,
            JsonModel::String(from),
        ).insert("to"@, JsonModel::String(to)),
    )
}

/// The variables are read back.
proof fn lemma_variables(login: Seq<char>, from: Seq<char>, to: Seq<char>, after: Seq<char>)
    ensures
        grammar::parse_value(variables_text(login, from, to, after)) == (
            Ok::<JsonModel, Seq<char>>(variables(login, from, to)),
            after,
        ),
{
    reveal_strlit("login");
    reveal_strlit("from");
    reveal_strlit("to");
    let end = seq!['}'] + after;
    let to_text = quoted(to, end);
    let after_from = seq![','] + named("to"@, to_text);
    let from_text = quoted(from, after_from);
    let after_login = seq![','] + named("from"@, from_text);
    let login_text = quoted(login, after_login);
    let whole = variables_text(login, from, to, after);
    let none = Map::<Seq<char>, JsonModel>::empty();
    let one = none.insert("login"@, JsonModel::String(login));
    let two = one.insert("from"@, JsonModel::String(from));
    assert(end.drop_first() =~= after);
    lemma_quoted(to, end);
    lemma_named("to"@, to_text, two, JsonModel::String(to), end);
    assert(after_from.drop_first() =~= named("to"@, to_text));
    lemma_quoted(from, after_from);
    lemma_named("from"@, from_text, one, JsonModel::String(from), after_from);
    assert(after_login.drop_first() =~= named("from"@, from_text));
    lemma_quoted(login, after_login);
    lemma_named("login"@, login_text, none, JsonModel::String(login), after_login);
    lemma_no_space(whole);
    assert(whole.drop_first() =~= named("login"@, login_text));
}

/// The body of the request for contributions is an object with the query and its variables,
/// whatever characters these hold.
pub proof fn lemma_contributions_body(login: Seq<char>, from: Seq<char>, to: Seq<char>)
    ensures
        grammar::json_value(request::contributions_body(login, from, to)) == Ok::<
            JsonModel,
            Seq<char>,
        >(
            JsonModel::Object(
                Map::empty().insert(
                    "query"@,
                    JsonModel::String(request::CONTRIBUTIONS_QUERY@),
                ).insert("variables"@, variables(login, from, to)),
            ),
        ),
{
    let query = request::CONTRIBUTIONS_QUERY@;
    let last = seq!['}'];
    let inner = variables_text(login, from, to, last);
    let after_query = seq![','] + named("variables"@, inner);
    let none = Map::<Seq<char>, JsonModel>::empty();
    let one = none.insert("query"@, JsonModel::String(query));
    let whole = query_text(query, inner);
    lemma_query_layout(login, from, to);
    reveal_strlit("query");
    reveal_strlit("variables");
    lemma_variables(login, from, to, last);
    lemma_named("variables"@, inner, one, variables(login, from, to), last);
    assert(after_query.drop_first() =~= named("variables"@, inner));
    lemma_quoted(query, after_query);
    lemma_named("query"@, quoted(query, after_query), none, JsonModel::String(query), after_query);
    lemma_no_space(whole);
    assert(whole.drop_first() =~= named("query"@, quoted(query, after_query)));
    assert(last.drop_first() =~= seq![]);
    lemma_no_space(seq![]);
}

/// Texts in a row may be grouped from the right.
proof fn lemma_right(a: Seq<char>, b: Seq<char>, c: Seq<char>)
    ensures
        (a + b) + c == a + (b + c),
{
    assert((a + b) + c =~= a + (b + c));
}

/// The body of the request that writes the issue is an object with its title, the report and
/// the label, whatever characters the report holds.
pub proof fn lemma_issue_payload(body: Seq<char>)
    ensures
        grammar::json_value(candidates::issue_payload(body)) == Ok::<JsonModel, Seq<char>>(
            JsonModel::Object(
                Map::empty().insert("title"@, JsonModel::String(candidates::ISSUE_TITLE@)).insert(
                    "body"@,
                    JsonModel::String(body),
                ).insert(
                    "labels"@,
                    JsonModel::Array(seq![JsonModel::String("btc-foss-candidates"@)]),
                ),
            ),
        ),
{
    let title = candidates::ISSUE_TITLE@;
    let label = "btc-foss-candidates"@;
    reveal_strlit("{\"title\":\"");
    reveal_strlit("\",\"body\":\"");
    reveal_strlit("\",\"labels\":[\"btc-foss-candidates\"]}");
    reveal_strlit("title");
    reveal_strlit("body");
    reveal_strlit("labels");
    reveal_strlit("btc-foss-candidates");
    let l1 = "{\"title\":\""@;
    let l2 = "\",\"body\":\""@;
    let l3 = "\",\"labels\":[\"btc-foss-candidates\"]}"@;
    let (e1, e2) = (feed::json_escaped(title), feed::json_escaped(body));
    let close = seq![']', '}'];
    let item = seq!['"'] + (label + (seq!['"'] + close));
    let list = seq!['['] + item;
    let body_text = quoted(body, seq![','] + named("labels"@, list));
    let title_text = quoted(title, seq![','] + named("body"@, body_text));
    let whole = seq!['{'] + named("title"@, title_text);
    assert(l3 =~= seq!['"'] + (seq![','] + named("labels"@, list)));
    assert(l2 + (e2 + l3) =~= seq!['"'] + (seq![','] + named("body"@, body_text)));
    assert(l1 + (e1 + (l2 + (e2 + l3))) =~= whole);
    lemma_right(l1 + e1 + l2, e2, l3);
    lemma_right(l1 + e1, l2, e2 + l3);
    lemma_right(l1, e1, l2 + (e2 + l3));
    assert(candidates::issue_payload(body) == whole);

    let none = Map::<Seq<char>, JsonModel>::empty();
    let one = none.insert("title"@, JsonModel::String(title));
    let two = one.insert("body"@, JsonModel::String(body));
    let labels = JsonModel::Array(seq![JsonModel::String(label)]);
    let last = seq!['}'];
    assert(round_trip::plain(label));
    lemma_no_space(item);
    assert(item.drop_first() =~= label + (seq!['"'] + close));
    round_trip::lemma_plain_text(label, close);
    assert(grammar::parse_value(item) == (
        Ok::<JsonModel, Seq<char>>(JsonModel::String(label)),
        close,
    ));
    lemma_no_space(close);
    assert(close.drop_first() =~= last);
    lemma_no_space(list);
    assert(list.drop_first() =~= item);
    assert(Seq::<JsonModel>::empty().push(JsonModel::String(label)) =~= seq![
        JsonModel::String(label),
    ]);
    assert(grammar::parse_value(list) == (Ok::<JsonModel, Seq<char>>(labels), last));
    lemma_named("labels"@, list, two, labels, last);
    let after_body = seq![','] + named("labels"@, list);
    assert(after_body.drop_first() =~= named("labels"@, list));
    lemma_quoted(body, after_body);
    lemma_named("body"@, body_text, one, JsonModel::String(body), after_body);
    let after_title = seq![','] + named("body"@, body_text);
    assert(after_title.drop_first() =~= named("body"@, body_text));
    lemma_quoted(title, after_title);
    lemma_named("title"@, title_text, none, JsonModel::String(title), after_title);
    lemma_no_space(whole);
    assert(whole.drop_first() =~= named("title"@, title_text));
    assert(last.drop_first() =~= seq![]);
    lemma_no_space(seq![]);
}

} // verus!
