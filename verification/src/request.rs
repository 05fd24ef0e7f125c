//! Requests to GitHub, made by `curl`.

use crate::feed;
use crate::feed::json_escape;
use crate::grammar;
use crate::grammar::JsonModel;
use crate::json;
use crate::json::{parse_json, Json};
use crate::payload;
use crate::text;
use crate::text::owned;
use vstd::prelude::*;

verus! {

// ---------------------------------------------------------------------------
// Percent encoding
// ---------------------------------------------------------------------------

/// Whether a byte stands for itself in a query.
pub open spec fn unreserved(b: u8) -> bool {
    (48 <= b <= 57) || (65 <= b <= 90) || (97 <= b <= 122) || b == 45 || b == 46 || b == 95 || b
        == 126
}

/// A hexadecimal digit in upper case.
pub open spec fn upper_hex(d: int) -> char {
    if d < 10 {
        (48 + d) as char
    } else {
        (55 + d) as char
    }
}

/// A byte as it stands in a query.
pub open spec fn percent(b: u8) -> Seq<char> {
    if unreserved(b) {
        seq![b as char]
    } else {
        seq!['%', upper_hex(b as int / 16), upper_hex(b as int % 16)]
    }
}

/// Bytes as they stand in a query.
pub open spec fn percent_encoded(bytes: Seq<u8>) -> Seq<char>
    decreases bytes.len(),
{
    if bytes.len() == 0 {
        seq![]
    } else {
        percent_encoded(bytes.drop_last()) + percent(bytes.last())
    }
}

fn upper_hex_of(d: u8) -> (c: char)
    requires
        d < 16,
    ensures
        c == upper_hex(d as int),
{
    if d < 10 {
        (48 + d) as char
    } else {
        (55 + d) as char
    }
}

/// The text as it stands in a query: letters, digits and `-._~` as they are, every other
/// byte of its UTF-8 form as `%` and two hexadecimal digits.
pub fn url_encode(s: &str) -> (out: String)
    ensures
        out@ == percent_encoded(vstd::utf8::encode_utf8(s@)),
{
    let bytes = s.as_bytes();
    let ghost all = vstd::utf8::encode_utf8(s@);
    let mut out = String::new();
    assert(all.take(0) =~= seq![]);
    for i in 0..bytes.len()
        invariant
            all == bytes@,
            out@ == percent_encoded(all.take(i as int)),
    {
        let ghost before = out@;
        assert(all.take(i + 1).drop_last() =~= all.take(i as int));
        let b: u8 = bytes[i];
        if (48 <= b && b <= 57) || (65 <= b && b <= 90) || (97 <= b && b <= 122) || b == 45 || b
            == 46 || b == 95 || b == 126 {
            out.push(b as char);
            assert(out@ =~= before + percent(b));
        } else {
            out.push('%');
            out.push(upper_hex_of(b / 16));
            out.push(upper_hex_of(b % 16));
            assert(out@ =~= before + percent(b));
        }
    }
    assert(all.take(all.len() as int) =~= all);
    out
}

/// Whether a character may stand in a query.
pub open spec fn query_char(c: char) -> bool {
    c == '%' || (c as u32 <= 127 && unreserved(c as u8))
}

/// Whether a character is a hexadecimal digit in upper case.
pub open spec fn is_upper_hex(c: char) -> bool {
    '0' <= c <= '9' || 'A' <= c <= 'F'
}

/// An encoded text holds letters, digits, `-._~` and percent signs only, and behind each
/// percent sign stand two hexadecimal digits in upper case.
pub proof fn lemma_percent_encoded(bytes: Seq<u8>)
    ensures
        forall|i: int|
            0 <= i < percent_encoded(bytes).len() ==> query_char(
                #[trigger] percent_encoded(bytes)[i],
            ),
        forall|i: int|
            0 <= i < percent_encoded(bytes).len() && #[trigger] percent_encoded(bytes)[i] == '%'
                ==> i + 2 < percent_encoded(bytes).len() && is_upper_hex(
                percent_encoded(bytes)[i + 1],
            ) && is_upper_hex(percent_encoded(bytes)[i + 2]),
    decreases bytes.len(),
{
    if bytes.len() > 0 {
        let front = percent_encoded(bytes.drop_last());
        let last = percent(bytes.last());
        let out = percent_encoded(bytes);
        lemma_percent_encoded(bytes.drop_last());
        assert forall|i: int| 0 <= i < out.len() implies query_char(#[trigger] out[i]) by {
            if i < front.len() {
                assert(out[i] == front[i]);
            } else {
                assert(out[i] == last[i - front.len()]);
            }
        }
        assert forall|i: int| 0 <= i < out.len() && #[trigger] out[i] == '%' implies i + 2
            < out.len() && is_upper_hex(out[i + 1]) && is_upper_hex(out[i + 2]) by {
            if i < front.len() {
                assert(front[i] == '%');
                assert(out[i + 1] == front[i + 1]);
                assert(out[i + 2] == front[i + 2]);
            } else {
                assert(last[i - front.len()] == '%');
            }
        }
    }
}

/// The bytes of an encoded text: two hexadecimal digits behind a percent sign are a byte, and
/// every other character is its own.
pub open spec fn percent_decoded(s: Seq<char>) -> Seq<u8>
    decreases s.len(),
{
    if s.len() == 0 {
        seq![]
    } else if s[0] == '%' && s.len() >= 3 {
        seq![(grammar::hex_value(s[1]) * 16 + grammar::hex_value(s[2])) as u8] + percent_decoded(
            s.skip(3),
        )
    } else {
        seq![s[0] as u8] + percent_decoded(s.skip(1))
    }
}

/// Encoding begins with that of the first byte.
proof fn lemma_percent_first(bytes: Seq<u8>)
    requires
        bytes.len() > 0,
    ensures
        percent_encoded(bytes) == percent(bytes[0]) + percent_encoded(bytes.drop_first()),
    decreases bytes.len(),
{
    let rest = bytes.drop_first();
    if rest.len() == 0 {
        reveal_with_fuel(percent_encoded, 2);
        assert(bytes.drop_last() =~= seq![]);
        assert(percent_encoded(bytes) =~= percent(bytes[0]) + percent_encoded(rest));
    } else {
        lemma_percent_first(bytes.drop_last());
        assert(bytes.drop_last().drop_first() =~= rest.drop_last());
        assert(percent_encoded(bytes) =~= percent(bytes[0]) + percent_encoded(rest));
    }
}

/// Decoding gives the encoded bytes back.
pub proof fn lemma_percent_decoded(bytes: Seq<u8>)
    ensures
        percent_decoded(percent_encoded(bytes)) == bytes,
    decreases bytes.len(),
{
    if bytes.len() > 0 {
        let b = bytes[0];
        let rest = bytes.drop_first();
        let later = percent_encoded(rest);
        let s = percent(b) + later;
        lemma_percent_first(bytes);
        lemma_percent_decoded(rest);
        if unreserved(b) {
            assert(s.skip(1) =~= later);
            assert(s[0] == b as char);
        } else {
            assert(s.skip(3) =~= later);
            assert(s[1] == upper_hex(b as int / 16) && s[2] == upper_hex(b as int % 16));
            assert(grammar::hex_value(s[1]) == b as int / 16);
            assert(grammar::hex_value(s[2]) == b as int % 16);
        }
        assert(seq![b] + rest =~= bytes);
    }
}

/// Decoding what stands in a query gives the text back.
pub proof fn lemma_url_decoded(s: Seq<char>)
    ensures
        vstd::utf8::decode_utf8(
            percent_decoded(percent_encoded(vstd::utf8::encode_utf8(s))),
        ) == s,
{
    lemma_percent_decoded(vstd::utf8::encode_utf8(s));
    vstd::utf8::encode_utf8_decode_utf8(s);
}

// ---------------------------------------------------------------------------
// Requests
// ---------------------------------------------------------------------------

/// How a request is made.
#[derive(Clone, Copy, Debug, PartialEq, Eq, Structural)]
pub enum Channel {
    /// The GraphQL interface.
    Graph,
    /// The REST interface, with the token.
    Rest,
    /// The REST interface, without the token.
    Public,
}

/// A request to GitHub.
#[derive(Debug)]
pub struct Request {
    pub channel: Channel,
    pub method: String,
    pub url: String,
    pub body: Option<String>,
}

/// The mathematical value of a request.
#[verifier::ext_equal]
pub struct RequestModel {
    pub channel: Channel,
    pub method: Seq<char>,
    pub url: Seq<char>,
    pub body: Option<Seq<char>>,
}

impl View for Request {
    type V = RequestModel;

    open spec fn view(&self) -> RequestModel {
        RequestModel {
            channel: self.channel,
            method: self.method@,
            url: self.url@,
            body: match self.body {
                Some(b) => Some(b@),
                None => None,
            },
        }
    }
}

/// A request that reads from the REST interface.
pub open spec fn get_request(channel: Channel, url: Seq<char>) -> RequestModel {
    RequestModel { channel, method: "GET"@, url, body: None }
}

/// The header that carries the token.
pub open spec fn token_header(token: Seq<char>) -> Seq<char> {
    "Authorization: bearer "@ + token
}

/// The arguments that `curl` is run with for a request.
pub open spec fn curl_arguments(r: RequestModel, token: Seq<char>) -> Seq<Seq<char>> {
    let start = seq!["-sS"@, "-X"@, r.method];
    let secret = seq!["-H"@, token_header(token)];
    let versions = seq![
        "-H"@,
        "Accept: application/vnd.github+json"@,
        "-H"@,
        "X-GitHub-Api-Version: 2022-11-28"@,
    ];
    let content = match r.body {
        Some(body) => seq!["-H"@, "Content-Type: application/json"@, "-d"@, body],
        None => seq![],
    };
    match r.channel {
        Channel::Graph => start + secret + content + seq![r.url],
        Channel::Rest => start + secret + versions + content + seq![r.url],
        Channel::Public => start + versions + content + seq![r.url],
    }
}

/// The error that tells of a status of `curl`.
pub open spec fn status_error(r: RequestModel, status: Seq<char>) -> Seq<char> {
    match r.channel {
        Channel::Graph => "curl failed with status "@ + status,
        _ => "curl "@ + r.method + " "@ + r.url + " failed: "@ + status,
    }
}

/// The error that tells why `curl` could not be run.
pub open spec fn launch_error(r: RequestModel, cause: Seq<char>) -> Seq<char> {
    match r.channel {
        Channel::Graph => "failed to run curl: "@ + cause,
        _ => cause,
    }
}

/// What the text of a reply means. The GraphQL interface tells of errors in its reply.
pub open spec fn reply_value(channel: Channel, reply: Seq<char>) -> Result<JsonModel, Seq<char>> {
    match grammar::json_value(reply) {
        Ok(value) => if channel == Channel::Graph && json::field(value, "errors"@) is Some {
            Err("GitHub GraphQL returned errors: "@ + reply)
        } else {
            Ok(value)
        },
        Err(e) => Err(e),
    }
}

/// Appends an argument.
fn push_argument(out: &mut Vec<String>, argument: &str)
    ensures
        text::texts(final(out)@) == text::texts(old(out)@).push(argument@),
{
    out.push(owned(argument));
    assert(text::texts(out@) =~= text::texts(old(out)@).push(argument@));
}

impl Request {
    /// A request that reads from the REST interface.
    pub fn get(channel: Channel, url: String) -> (out: Request)
        ensures
            out@ == get_request(channel, url@),
    {
        Request { channel, method: owned("GET"), url, body: None }
    }

    /// The arguments that `curl` is run with.
    pub fn curl_args(&self, token: &str) -> (out: Vec<String>)
        ensures
            text::texts(out@) == curl_arguments(self@, token@),
    {
        let mut out: Vec<String> = Vec::new();
        push_argument(&mut out, "-sS");
        push_argument(&mut out, "-X");
        push_argument(&mut out, self.method.as_str());
        let with_token = match self.channel {
            Channel::Public => false,
            _ => true,
        };
        let with_versions = match self.channel {
            Channel::Graph => false,
            _ => true,
        };
        if with_token {
            let mut header = owned("Authorization: bearer ");
            header.append(token);
            push_argument(&mut out, "-H");
            push_argument(&mut out, header.as_str());
        }
        if with_versions {
            push_argument(&mut out, "-H");
            push_argument(&mut out, "Accept: application/vnd.github+json");
            push_argument(&mut out, "-H");
            push_argument(&mut out, "X-GitHub-Api-Version: 2022-11-28");
        }
        if let Some(body) = &self.body {
            push_argument(&mut out, "-H");
            push_argument(&mut out, "Content-Type: application/json");
            push_argument(&mut out, "-d");
            push_argument(&mut out, body.as_str());
        }
        push_argument(&mut out, self.url.as_str());
        assert(text::texts(out@) =~= curl_arguments(self@, token@));
        out
    }

    /// The error that tells of a status of `curl`.
    pub fn status_failure(&self, status: &str) -> (out: String)
        ensures
            out@ == status_error(self@, status@),
    {
        match self.channel {
            Channel::Graph => {
                let mut out = owned("curl failed with status ");
                out.append(status);
                out
            },
            _ => {
                let mut out = owned("curl ");
                out.append(self.method.as_str());
                out.append(" ");
                out.append(self.url.as_str());
                out.append(" failed: ");
                out.append(status);
                out
            },
        }
    }

    /// The error that tells why `curl` could not be run.
    pub fn launch_failure(&self, cause: &str) -> (out: String)
        ensures
            out@ == launch_error(self@, cause@),
    {
        match self.channel {
            Channel::Graph => {
                let mut out = owned("failed to run curl: ");
                out.append(cause);
                out
            },
            _ => owned(cause),
        }
    }

    /// Reads the text of the reply.
    pub fn read_reply(&self, reply: &str) -> (out: Result<Json, String>)
        ensures
            json::json_outcome(out) == reply_value(self.channel, reply@),
    {
        let value = parse_json(reply)?;
        if self.channel == Channel::Graph && value.get("errors").is_some() {
            let mut message = owned("GitHub GraphQL returned errors: ");
            message.append(reply);
            return Err(message);
        }
        Ok(value)
    }
}

// ---------------------------------------------------------------------------
// Contributions
// ---------------------------------------------------------------------------

/// The query for the contributions of a user in a window of time.
pub const CONTRIBUTIONS_QUERY: &'static str = "
query($login:String!, $from:DateTime!, $to:DateTime!) {
  user(login:$login) {
    contributionsCollection(from:$from, to:$to) {
      pullRequestContributionsByRepository(maxRepositories:100) {
        repository { nameWithOwner description repositoryTopics(first:20) { nodes { topic { name } } } }
        contributions(first:100) { nodes { pullRequest { id number title url createdAt state closed merged } } }
      }
      issueContributionsByRepository(maxRepositories:100) {
        repository { nameWithOwner description repositoryTopics(first:20) { nodes { topic { name } } } }
        contributions(first:100) { nodes { issue { id number title url createdAt state closed } } }
      }
      commitContributionsByRepository(maxRepositories:100) {
        repository { nameWithOwner description repositoryTopics(first:20) { nodes { topic { name } } } }
        contributions(first:100) { nodes { commitCount occurredAt url } }
      }
      pullRequestReviewContributionsByRepository(maxRepositories:100) {
        repository { nameWithOwner description repositoryTopics(first:20) { nodes { topic { name } } } }
        contributions(first:100) { nodes { pullRequestReview { id url createdAt state pullRequest { number title url } } } }
      }
    }
  }
}
";

/// The body of the query with its variables.
pub open spec fn contributions_body(login: Seq<char>, from: Seq<char>, to: Seq<char>) -> Seq<char> {
    "{\"query\":\""@ + feed::json_escaped(CONTRIBUTIONS_QUERY@)
        + "\",\"variables\":{\"login\":\""@ + feed::json_escaped(login) + "\",\"from\":\""@
        + feed::json_escaped(from) + "\",\"to\":\""@ + feed::json_escaped(to) + "\"}}"@
}

/// The request for the contributions of a user in a window of time.
pub open spec fn contributions_request(login: Seq<char>, from: Seq<char>, to: Seq<char>) -> RequestModel {
    RequestModel {
        channel: Channel::Graph,
        method: "POST"@,
        url: "https://api.github.com/graphql"@,
        body: Some(contributions_body(login, from, to)),
    }
}

/// The request for the contributions of a user in a window of time.
pub fn fetch_contributions(login: &str, from: &str, to: &str) -> (out: Request)
    ensures
        out@ == contributions_request(login@, from@, to@),
{
    let mut body = owned("{\"query\":\"");
    body.append(json_escape(CONTRIBUTIONS_QUERY).as_str());
    body.append("\",\"variables\":{\"login\":\"");
    body.append(json_escape(login).as_str());
    body.append("\",\"from\":\"");
    body.append(json_escape(from).as_str());
    body.append("\",\"to\":\"");
    body.append(json_escape(to).as_str());
    body.append("\"}}");
    Request {
        channel: Channel::Graph,
        method: owned("POST"),
        url: owned("https://api.github.com/graphql"),
        body: Some(body),
    }
}

// ---------------------------------------------------------------------------
// Laws
// ---------------------------------------------------------------------------

/// Whether two arguments stand next to each other.
pub open spec fn side_by_side(args: Seq<Seq<char>>, a: Seq<char>, b: Seq<char>) -> bool {
    exists|i: int| 0 <= i < args.len() - 1 && #[trigger] args[i] == a && args[i + 1] == b
}

/// A request is made with its method and ends with its link. The token goes with it unless
/// the request is public, the versions unless it goes to the GraphQL interface, and the body
/// where there is one.
pub proof fn lemma_curl_arguments(r: RequestModel, token: Seq<char>)
    ensures
        curl_arguments(r, token)[0] == "-sS"@,
        side_by_side(curl_arguments(r, token), "-X"@, r.method),
        curl_arguments(r, token).last() == r.url,
        r.channel != Channel::Public ==> side_by_side(
            curl_arguments(r, token),
            "-H"@,
            "Authorization: bearer "@ + token,
        ),
        r.channel != Channel::Graph ==> side_by_side(
            curl_arguments(r, token),
            "-H"@,
            "Accept: application/vnd.github+json"@,
        ) && side_by_side(
            curl_arguments(r, token),
            "-H"@,
            "X-GitHub-Api-Version: 2022-11-28"@,
        ),
        r.body matches Some(body) ==> side_by_side(curl_arguments(r, token), "-d"@, body)
            && side_by_side(curl_arguments(r, token), "-H"@, "Content-Type: application/json"@),
        r.channel == Channel::Public ==> forall|other: Seq<char>| #[trigger]
            curl_arguments(r, other) == curl_arguments(r, token),
{
    let args = curl_arguments(r, token);
    assert(args[1] == "-X"@ && args[2] == r.method);
    match r.channel {
        Channel::Graph => {
            assert(args[3] == "-H"@ && args[4] == token_header(token));
            if r.body is Some {
                assert(args[5] == "-H"@ && args[6] == "Content-Type: application/json"@);
                assert(args[7] == "-d"@ && args[8] == r.body->0);
            }
        },
        Channel::Rest => {
            assert(args[3] == "-H"@ && args[4] == token_header(token));
            assert(args[5] == "-H"@ && args[6] == "Accept: application/vnd.github+json"@);
            assert(args[7] == "-H"@ && args[8] == "X-GitHub-Api-Version: 2022-11-28"@);
            if r.body is Some {
                assert(args[9] == "-H"@ && args[10] == "Content-Type: application/json"@);
                assert(args[11] == "-d"@ && args[12] == r.body->0);
            }
        },
        Channel::Public => {
            assert(args[3] == "-H"@ && args[4] == "Accept: application/vnd.github+json"@);
            assert(args[5] == "-H"@ && args[6] == "X-GitHub-Api-Version: 2022-11-28"@);
            if r.body is Some {
                assert(args[7] == "-H"@ && args[8] == "Content-Type: application/json"@);
                assert(args[9] == "-d"@ && args[10] == r.body->0);
            }
        },
    }
}

/// A reply is the value that its text stands for. One from the GraphQL interface that holds
/// errors is an error, and so is a text that stands for no value.
pub proof fn lemma_reply(channel: Channel, reply: Seq<char>, value: JsonModel)
    requires
        grammar::json_value(reply) == Ok::<JsonModel, Seq<char>>(value),
    ensures
        channel != Channel::Graph ==> reply_value(channel, reply) == Ok::<JsonModel, Seq<char>>(
            value,
        ),
        (forall|errors: JsonModel| !json::holds(value, "errors"@, errors)) ==> reply_value(
            channel,
            reply,
        ) == Ok::<JsonModel, Seq<char>>(value),
        (exists|errors: JsonModel| json::holds(value, "errors"@, errors)) ==> reply_value(
            Channel::Graph,
            reply,
        ) == Err::<JsonModel, Seq<char>>("GitHub GraphQL returned errors: "@ + reply),
{
    json::lemma_field(value, "errors"@, value);
    if json::field(value, "errors"@) is Some {
        json::lemma_field(value, "errors"@, json::field(value, "errors"@)->0);
    }
}

/// The contributions of a user in a window of time are asked of the GraphQL interface.
pub proof fn lemma_contributions_request(login: Seq<char>, from: Seq<char>, to: Seq<char>)
    ensures
        contributions_request(login, from, to).channel == Channel::Graph,
        contributions_request(login, from, to).method == "POST"@,
        contributions_request(login, from, to).url == "https://api.github.com/graphql"@,
        contributions_request(login, from, to).body is Some,
        grammar::json_value(contributions_request(login, from, to).body->0) matches Ok(value)
            && json::holds(value, "query"@, JsonModel::String(CONTRIBUTIONS_QUERY@)) && exists|
            variables: JsonModel,
        | #[trigger]
            json::holds(value, "variables"@, variables) && json::holds(
                variables,
                "login"@,
                JsonModel::String(login),
            ) && json::holds(variables, "from"@, JsonModel::String(from)) && json::holds(
                variables,
                "to"@,
                JsonModel::String(to),
            ),
{
    payload::lemma_contributions_body(login, from, to);
    reveal_strlit("query");
    reveal_strlit("variables");
    reveal_strlit("login");
    reveal_strlit("from");
    reveal_strlit("to");
    assert("query"@.len() == 5 && "variables"@.len() == 9);
    assert("login"@.len() == 5 && "from"@.len() == 4 && "to"@.len() == 2);
    let value = grammar::json_value(contributions_request(login, from, to).body->0)->Ok_0;
    assert(json::holds(value, "variables"@, payload::variables(login, from, to)));
}

/// What is read from the REST interface is asked for without a body.
pub proof fn lemma_get_request(channel: Channel, url: Seq<char>)
    ensures
        get_request(channel, url) == (RequestModel { channel, method: "GET"@, url, body: None }),
{
}

// ---------------------------------------------------------------------------
// Laws of failures and of the query
// ---------------------------------------------------------------------------

/// A failure of a query tells the status that curl left with; any other one tells the method
/// and the link too. Where curl could not be run for a query, the failure says so.
pub proof fn lemma_failures(r: RequestModel, status: Seq<char>, cause: Seq<char>)
    ensures
        r.channel == Channel::Graph ==> status_error(r, status) == "curl failed with status "@
            + status && launch_error(r, cause) == "failed to run curl: "@ + cause,
        r.channel != Channel::Graph ==> status_error(r, status) == "curl "@ + r.method + " "@
            + r.url + " failed: "@ + status && launch_error(r, cause) == cause,
{
}

/// Letters, digits and `-._~` stand for themselves in an encoded text; any other byte is
/// written with a percent sign.
pub proof fn lemma_plain_byte(bytes: Seq<u8>, b: u8)
    ensures
        ('a' <= b as char <= 'z' || 'A' <= b as char <= 'Z' || '0' <= b as char <= '9' || b as char
            == '-' || b as char == '.' || b as char == '_' || b as char == '~')
            ==> percent_encoded(bytes.push(b)) == percent_encoded(bytes).push(b as char),
        !('a' <= b as char <= 'z' || 'A' <= b as char <= 'Z' || '0' <= b as char <= '9' || b as char
            == '-' || b as char == '.' || b as char == '_' || b as char == '~')
            ==> percent_encoded(bytes.push(b)).len() == percent_encoded(bytes).len() + 3
            && percent_encoded(bytes.push(b))[percent_encoded(bytes).len() as int] == '%',
{
    assert(bytes.push(b).drop_last() =~= bytes);
    assert(percent_encoded(bytes) + seq![b as char] =~= percent_encoded(bytes).push(b as char));
}

/// The query asks for the four groups of contributions of the user in the window by name, and
/// for what is read of them.
#[verifier::spinoff_prover]
pub proof fn lemma_query_asks()
    ensures
        text::has_text(CONTRIBUTIONS_QUERY@, " pullRequestContributionsByRepository(maxRepositories:100) {"@),
        text::has_text(CONTRIBUTIONS_QUERY@, " issueContributionsByRepository(maxRepositories:100) {"@),
        text::has_text(CONTRIBUTIONS_QUERY@, " commitContributionsByRepository(maxRepositories:100) {"@),
        text::has_text(CONTRIBUTIONS_QUERY@, " pullRequestReviewContributionsByRepository(maxRepositories:100) {"@),
        text::has_text(CONTRIBUTIONS_QUERY@, "  user(login:$login) {"@),
        text::has_text(CONTRIBUTIONS_QUERY@, "contributionsCollection(from:$from, to:$to) {"@),
        text::has_text(
            CONTRIBUTIONS_QUERY@,
            "contributions(first:100) { nodes { pullRequest { id number title url createdAt state closed merged } } }"@,
        ),
        text::has_text(
            CONTRIBUTIONS_QUERY@,
            "contributions(first:100) { nodes { issue { id number title url createdAt state closed } } }"@,
        ),
        text::has_text(
            CONTRIBUTIONS_QUERY@,
            "contributions(first:100) { nodes { commitCount occurredAt url } }"@,
        ),
        text::has_text(
            CONTRIBUTIONS_QUERY@,
            "contributions(first:100) { nodes { pullRequestReview { id url createdAt state pullRequest { number title url } } } }"@,
        ),
        text::has_text(
            CONTRIBUTIONS_QUERY@,
            "repository { nameWithOwner description repositoryTopics(first:20) { nodes { topic { name } } } }"@,
        ),
{
    reveal_strlit(
        "
query($login:String!, $from:DateTime!, $to:DateTime!) {
  user(login:$login) {
    contributionsCollection(from:$from, to:$to) {
      pullRequestContributionsByRepository(maxRepositories:100) {
        repository { nameWithOwner description repositoryTopics(first:20) { nodes { topic { name } } } }
        contributions(first:100) { nodes { pullRequest { id number title url createdAt state closed merged } } }
      }
      issueContributionsByRepository(maxRepositories:100) {
        repository { nameWithOwner description repositoryTopics(first:20) { nodes { topic { name } } } }
        contributions(first:100) { nodes { issue { id number title url createdAt state closed } } }
      }
      commitContributionsByRepository(maxRepositories:100) {
        repository { nameWithOwner description repositoryTopics(first:20) { nodes { topic { name } } } }
        contributions(first:100) { nodes { commitCount occurredAt url } }
      }
      pullRequestReviewContributionsByRepository(maxRepositories:100) {
        repository { nameWithOwner description repositoryTopics(first:20) { nodes { topic { name } } } }
        contributions(first:100) { nodes { pullRequestReview { id url createdAt state pullRequest { number title url } } } }
      }
    }
  }
}
",
    );
    reveal_strlit(" pullRequestContributionsByRepository(maxRepositories:100) {");
    assert(CONTRIBUTIONS_QUERY@.subrange(135, 195) =~= " pullRequestContributionsByRepository(maxRepositories:100) {"@);
    assert(text::stands_at(CONTRIBUTIONS_QUERY@, " pullRequestContributionsByRepository(maxRepositories:100) {"@, 135));
    reveal_strlit(" issueContributionsByRepository(maxRepositories:100) {");
    assert(CONTRIBUTIONS_QUERY@.subrange(427, 481) =~= " issueContributionsByRepository(maxRepositories:100) {"@);
    assert(text::stands_at(CONTRIBUTIONS_QUERY@, " issueContributionsByRepository(maxRepositories:100) {"@, 427));
    reveal_strlit(" commitContributionsByRepository(maxRepositories:100) {");
    assert(CONTRIBUTIONS_QUERY@.subrange(700, 755) =~= " commitContributionsByRepository(maxRepositories:100) {"@);
    assert(text::stands_at(CONTRIBUTIONS_QUERY@, " commitContributionsByRepository(maxRepositories:100) {"@, 700));
    reveal_strlit(" pullRequestReviewContributionsByRepository(maxRepositories:100) {");
    assert(CONTRIBUTIONS_QUERY@.subrange(948, 1014) =~= " pullRequestReviewContributionsByRepository(maxRepositories:100) {"@);
    assert(text::stands_at(CONTRIBUTIONS_QUERY@, " pullRequestReviewContributionsByRepository(maxRepositories:100) {"@, 948));
    reveal_strlit("  user(login:$login) {");
    assert(CONTRIBUTIONS_QUERY@.subrange(57, 79) =~= "  user(login:$login) {"@);
    assert(text::stands_at(CONTRIBUTIONS_QUERY@, "  user(login:$login) {"@, 57));
    reveal_strlit("contributionsCollection(from:$from, to:$to) {");
    assert(CONTRIBUTIONS_QUERY@.subrange(84, 129) =~= "contributionsCollection(from:$from, to:$to) {"@);
    assert(text::stands_at(CONTRIBUTIONS_QUERY@, "contributionsCollection(from:$from, to:$to) {"@, 84));
    reveal_strlit("contributions(first:100) { nodes { pullRequest { id number title url createdAt state closed merged } } }");
    assert(CONTRIBUTIONS_QUERY@.subrange(309, 413) =~= "contributions(first:100) { nodes { pullRequest { id number title url createdAt state closed merged } } }"@);
    assert(text::stands_at(CONTRIBUTIONS_QUERY@, "contributions(first:100) { nodes { pullRequest { id number title url createdAt state closed merged } } }"@, 309));
    reveal_strlit("contributions(first:100) { nodes { issue { id number title url createdAt state closed } } }");
    assert(CONTRIBUTIONS_QUERY@.subrange(595, 686) =~= "contributions(first:100) { nodes { issue { id number title url createdAt state closed } } }"@);
    assert(text::stands_at(CONTRIBUTIONS_QUERY@, "contributions(first:100) { nodes { issue { id number title url createdAt state closed } } }"@, 595));
    reveal_strlit("contributions(first:100) { nodes { commitCount occurredAt url } }");
    assert(CONTRIBUTIONS_QUERY@.subrange(869, 934) =~= "contributions(first:100) { nodes { commitCount occurredAt url } }"@);
    assert(text::stands_at(CONTRIBUTIONS_QUERY@, "contributions(first:100) { nodes { commitCount occurredAt url } }"@, 869));
    reveal_strlit("contributions(first:100) { nodes { pullRequestReview { id url createdAt state pullRequest { number title url } } } }");
    assert(CONTRIBUTIONS_QUERY@.subrange(1128, 1244) =~= "contributions(first:100) { nodes { pullRequestReview { id url createdAt state pullRequest { number title url } } } }"@);
    assert(text::stands_at(CONTRIBUTIONS_QUERY@, "contributions(first:100) { nodes { pullRequestReview { id url createdAt state pullRequest { number title url } } } }"@, 1128));
    reveal_strlit("repository { nameWithOwner description repositoryTopics(first:20) { nodes { topic { name } } } }");
    assert(CONTRIBUTIONS_QUERY@.subrange(204, 300) =~= "repository { nameWithOwner description repositoryTopics(first:20) { nodes { topic { name } } } }"@);
    assert(text::stands_at(CONTRIBUTIONS_QUERY@, "repository { nameWithOwner description repositoryTopics(first:20) { nodes { topic { name } } } }"@, 204));
}

} // verus!
