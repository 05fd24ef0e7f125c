//! The report on candidate repositories and the issue that carries it.

use crate::config::{Config, ConfigModel};
use crate::decimal;
use crate::decimal::signed_text;
use crate::feed;
use crate::feed::json_escape;
use crate::fields;
use crate::fields::{get_string, integer_of_field};
use crate::grammar;
use crate::grammar::JsonModel;
use crate::json;
use crate::json::Json;
use crate::names::NameSet;
use crate::payload;
use crate::request;
use crate::request::{Channel, Request, RequestModel};
use crate::text;
use crate::text::{owned, same_text};
use vstd::prelude::*;

verus! {

// ---------------------------------------------------------------------------
// Report
// ---------------------------------------------------------------------------

/// The line of a candidate.
pub open spec fn candidate_line(repo: Seq<char>) -> Seq<char> {
    "- [ ] `"@ + repo + "` - https://github.com/"@ + repo + "\n"@
}

/// The lines of candidates.
pub open spec fn candidate_lines(repos: Seq<Seq<char>>) -> Seq<char>
    decreases repos.len(),
{
    if repos.len() == 0 {
        seq![]
    } else {
        candidate_lines(repos.drop_last()) + candidate_line(repos.last())
    }
}

/// The report on candidates: a heading, what they are, and a line for each.
pub open spec fn report(c: ConfigModel, repos: Seq<Seq<char>>) -> Seq<char> {
    "# Bitcoin FOSS candidate repositories\n\nDiscovered from public GitHub activity for `"@
        + c.username
        + "` using Bitcoin-only keywords.\nCurate candidates by adding approved repositories to `config/site.toml` `allowlist` or approved organizations to `allowlist_orgs`.\n\n"@
        + candidate_lines(repos)
}

/// The report on candidates.
pub fn candidate_report(config: &Config, candidates: &NameSet) -> (out: String)
    ensures
        out@ == report(config@, candidates.listing()),
{
    let mut out = owned(
        "# Bitcoin FOSS candidate repositories\n\nDiscovered from public GitHub activity for `",
    );
    out.append(config.username.as_str());
    out.append(
        "` using Bitcoin-only keywords.\nCurate candidates by adding approved repositories to `config/site.toml` `allowlist` or approved organizations to `allowlist_orgs`.\n\n",
    );
    let ghost head = out@;
    let ghost all = candidates.listing();
    let count: usize = candidates.len();
    assert(all.take(0) =~= seq![]);
    assert(head + candidate_lines(all.take(0)) =~= head);
    for i in 0..count
        invariant
            count == all.len(),
            all == candidates.listing(),
            out@ == head + candidate_lines(all.take(i as int)),
    {
        let repo = candidates.get(i);
        assert(all.take(i + 1).drop_last() =~= all.take(i as int));
        let mut line = owned("- [ ] `");
        line.append(repo);
        line.append("` - https://github.com/");
        line.append(repo);
        line.append("\n");
        out.append(line.as_str());
        assert(out@ =~= head + (candidate_lines(all.take(i as int)) + candidate_line(
            all[i as int],
        )));
    }
    assert(all.take(all.len() as int) =~= all);
    out
}

// ---------------------------------------------------------------------------
// Issue
// ---------------------------------------------------------------------------

/// The title of the issue.
pub const ISSUE_TITLE: &'static str = "Bitcoin FOSS repository candidates";

/// The request for the open issues that may be the one.
pub fn candidate_issues_request(repo: &str) -> (out: Request)
    ensures
        out@ == request::get_request(
            Channel::Rest,
            "https://api.github.com/repos/"@ + repo@
                + "/issues?state=open&labels=btc-foss-candidates"@,
        ),
{
    let mut url = owned("https://api.github.com/repos/");
    url.append(repo);
    url.append("/issues?state=open&labels=btc-foss-candidates");
    Request::get(Channel::Rest, url)
}

/// The number of the first issue with the title.
pub open spec fn issue_number(issues: Seq<JsonModel>) -> Option<int>
    decreases issues.len(),
{
    if issues.len() == 0 {
        None
    } else if fields::string_in(issues[0], "title"@) == Some(ISSUE_TITLE@) {
        Some(fields::integer_in(issues[0], "number"@, 0))
    } else {
        issue_number(issues.skip(1))
    }
}

/// The number of the issue in a list of issues, if the reply is one and it is there.
pub open spec fn found_issue(list: JsonModel) -> Option<int> {
    match json::as_array(list) {
        Some(issues) => issue_number(issues),
        None => None,
    }
}

/// The number of the issue in a list of issues.
pub fn find_candidate_issue(list: &Json) -> (out: Option<i64>)
    ensures
        match out {
            Some(n) => found_issue(list@) == Some(n as int),
            None => found_issue(list@) is None,
        },
{
    let issues = match list.array() {
        Some(issues) => issues,
        None => {
            return None;
        },
    };
    let ghost all = json::item_models(issues@);
    proof {
        json::lemma_item_models(issues@);
        assert(all.skip(0) =~= all);
    }
    for i in 0..issues.len()
        invariant
            all == json::item_models(issues@),
            all.len() == issues@.len(),
            forall|j: int|
                0 <= j < issues@.len() ==> all[j] == json::json_model(#[trigger] issues@[j]),
            found_issue(list@) == issue_number(all.skip(i as int)),
    {
        assert(all.skip(i as int)[0] == json::json_model(issues@[i as int]));
        assert(all.skip(i as int).skip(1) =~= all.skip(i + 1));
        if let Some(title) = get_string(&issues[i], "title") {
            if same_text(title.as_str(), ISSUE_TITLE) {
                return Some(integer_of_field(&issues[i], "number", 0));
            }
        }
    }
    None
}

/// The body of the request that writes the issue.
pub open spec fn issue_payload(body: Seq<char>) -> Seq<char> {
    "{\"title\":\""@ + feed::json_escaped(ISSUE_TITLE@) + "\",\"body\":\""@
        + feed::json_escaped(body) + "\",\"labels\":[\"btc-foss-candidates\"]}"@
}

/// The request that writes the issue: into the one that was found, or else as a new one.
pub open spec fn issue_request(repo: Seq<char>, number: Option<int>, body: Seq<char>) -> RequestModel {
    match number {
        Some(n) => RequestModel {
            channel: Channel::Rest,
            method: "PATCH"@,
            url: "https://api.github.com/repos/"@ + repo + "/issues/"@ + decimal::signed_decimal(n),
            body: Some(issue_payload(body)),
        },
        None => RequestModel {
            channel: Channel::Rest,
            method: "POST"@,
            url: "https://api.github.com/repos/"@ + repo + "/issues"@,
            body: Some(issue_payload(body)),
        },
    }
}

/// The request that writes the report, once the list of issues is known.
pub fn update_candidate_issue(repo: &str, list: &Json, body: &str) -> (out: Request)
    ensures
        out@ == issue_request(repo@, found_issue(list@), body@),
{
    let mut payload = owned("{\"title\":\"");
    payload.append(json_escape(ISSUE_TITLE).as_str());
    payload.append("\",\"body\":\"");
    payload.append(json_escape(body).as_str());
    payload.append("\",\"labels\":[\"btc-foss-candidates\"]}");
    let mut url = owned("https://api.github.com/repos/");
    url.append(repo);
    match find_candidate_issue(list) {
        Some(number) => {
            url.append("/issues/");
            url.append(signed_text(number).as_str());
            Request { channel: Channel::Rest, method: owned("PATCH"), url, body: Some(payload) }
        },
        None => {
            url.append("/issues");
            Request { channel: Channel::Rest, method: owned("POST"), url, body: Some(payload) }
        },
    }
}

// ---------------------------------------------------------------------------
// Laws
// ---------------------------------------------------------------------------

/// The report has the line of every candidate, and lines behind others are those of the
/// candidates behind others.
pub proof fn lemma_candidate_lines(a: Seq<Seq<char>>, b: Seq<Seq<char>>)
    ensures
        candidate_lines(a + b) == candidate_lines(a) + candidate_lines(b),
        candidate_lines(seq![]).len() == 0,
    decreases b.len(),
{
    if b.len() == 0 {
        assert(a + b =~= a);
        assert(candidate_lines(a) + candidate_lines(b) =~= candidate_lines(a));
    } else {
        lemma_candidate_lines(a, b.drop_last());
        assert((a + b).drop_last() =~= a + b.drop_last());
        assert(candidate_lines(a + b) =~= candidate_lines(a) + candidate_lines(b));
    }
}

/// The report names the user and has a box to check with the name and the link of every
/// candidate.
pub proof fn lemma_report(c: ConfigModel, repos: Seq<Seq<char>>, i: int)
    requires
        0 <= i < repos.len(),
    ensures
        text::has_text(report(c, repos), "`"@ + c.username + "`"@),
        text::has_text(
            report(c, repos),
            "- [ ] `"@ + repos[i] + "` - https://github.com/"@ + repos[i] + "\n"@,
        ),
{
    let line = "- [ ] `"@ + repos[i] + "` - https://github.com/"@ + repos[i] + "\n"@;
    let before = repos.take(i);
    let after = repos.skip(i + 1);
    reveal_with_fuel(candidate_lines, 2);
    assert(seq![repos[i]].drop_last() =~= seq![]);
    assert(candidate_lines(seq![repos[i]]) =~= line);
    lemma_candidate_lines(before, seq![repos[i]]);
    lemma_candidate_lines(before + seq![repos[i]], after);
    assert(before + seq![repos[i]] + after =~= repos);
    text::lemma_has_itself(line);
    text::lemma_has_text_in(candidate_lines(before), line, candidate_lines(after), line);
    let lines = candidate_lines(repos);
    text::lemma_has_text_in(report_head(c), lines, seq![], line);
    assert(report(c, repos) =~= report_head(c) + lines);
    lemma_head_names_user(c);
    text::lemma_has_text_in(seq![], report_head(c), lines, "`"@ + c.username + "`"@);
}

/// What stands before the lines of the candidates.
spec fn report_head(c: ConfigModel) -> Seq<char> {
    report(c, seq![])
}

proof fn lemma_head_names_user(c: ConfigModel)
    ensures
        text::has_text(report_head(c), "`"@ + c.username + "`"@),
{
    let front = "# Bitcoin FOSS candidate repositories\n\nDiscovered from public GitHub activity for `"@;
    let back = "` using Bitcoin-only keywords.\nCurate candidates by adding approved repositories to `config/site.toml` `allowlist` or approved organizations to `allowlist_orgs`.\n\n"@;
    reveal_strlit(
        "# Bitcoin FOSS candidate repositories\n\nDiscovered from public GitHub activity for `",
    );
    reveal_strlit(
        "` using Bitcoin-only keywords.\nCurate candidates by adding approved repositories to `config/site.toml` `allowlist` or approved organizations to `allowlist_orgs`.\n\n",
    );
    reveal_strlit("`");
    let name = "`"@ + c.username + "`"@;
    assert(front.last() == '`' && back[0] == '`');
    assert(front =~= front.drop_last() + "`"@);
    assert(back =~= "`"@ + back.drop_first());
    assert(report_head(c) =~= front.drop_last() + name + back.drop_first());
    text::lemma_has_text(report_head(c), name);
}

/// The issue that carries the report is the first one with the title, and none where no
/// issue has it.
pub proof fn lemma_issue_number(before: Seq<JsonModel>, issue: JsonModel, after: Seq<JsonModel>, n: int)
    requires
        forall|i: int|
            0 <= i < before.len() ==> !fields::has_text(
                #[trigger] before[i],
                "title"@,
                "Bitcoin FOSS repository candidates"@,
            ),
        fields::has_text(issue, "title"@, "Bitcoin FOSS repository candidates"@),
        fields::integer_or(issue, "number"@, 0, n),
    ensures
        issue_number(before + (seq![issue] + after)) == Some(n),
        issue_number(before) is None,
    decreases before.len(),
{
    let all = before + (seq![issue] + after);
    let title = "Bitcoin FOSS repository candidates"@;
    fields::lemma_integer_or(issue, "number"@, 0, n);
    fields::lemma_text_field(issue, "title"@, title);
    if before.len() > 0 {
        let rest = before.skip(1);
        assert(!fields::has_text(before[0], "title"@, title));
        fields::lemma_text_field(before[0], "title"@, title);
        assert forall|i: int| 0 <= i < rest.len() implies !fields::has_text(
            #[trigger] rest[i],
            "title"@,
            title,
        ) by {
            assert(!fields::has_text(before[i + 1], "title"@, title));
        }
        lemma_issue_number(rest, issue, after, n);
        assert(all.skip(1) =~= rest + (seq![issue] + after));
    }
}

/// The report goes into the issue that was found, or else into a new one, and is what the
/// body of the issue says.
pub proof fn lemma_issue_request(repo: Seq<char>, n: int, body: Seq<char>)
    ensures
        issue_request(repo, Some(n), body) == (RequestModel {
            channel: Channel::Rest,
            method: "PATCH"@,
            url: "https://api.github.com/repos/"@ + repo + "/issues/"@ + decimal::signed_decimal(n),
            body: issue_request(repo, Some(n), body).body,
        }),
        issue_request(repo, None, body) == (RequestModel {
            channel: Channel::Rest,
            method: "POST"@,
            url: "https://api.github.com/repos/"@ + repo + "/issues"@,
            body: issue_request(repo, None, body).body,
        }),
        issue_request(repo, Some(n), body).body == issue_request(repo, None, body).body,
        issue_request(repo, None, body).body is Some,
        grammar::json_value(issue_request(repo, None, body).body->0) matches Ok(value)
            && fields::has_text(value, "title"@, "Bitcoin FOSS repository candidates"@)
            && fields::has_text(value, "body"@, body) && json::holds(
            value,
            "labels"@,
            JsonModel::Array(seq![JsonModel::String("btc-foss-candidates"@)]),
        ),
{
    payload::lemma_issue_payload(body);
    reveal_strlit("title");
    reveal_strlit("body");
    reveal_strlit("labels");
    assert("title"@.len() == 5 && "body"@.len() == 4 && "labels"@.len() == 6);
}

} // verus!
