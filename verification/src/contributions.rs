//! Events and candidates in the contributions that GitHub reports.

use crate::calendar;
use crate::calendar::short_date;
use crate::config::{Config, ConfigModel};
use crate::decimal;
use crate::decimal::signed_text;
use crate::event;
use crate::event::{Event, EventModel};
use crate::fields;
use crate::fields::{
    get_string, integer_of_field, list_of, list_of_path, text_of, text_of_path,
};
use crate::grammar::JsonModel;
use crate::json;
use crate::json::Json;
use crate::names;
use crate::names::NameSet;
use crate::rules;
use crate::rules::repo_allowed;
use crate::text;
use crate::text::{contains_text, owned, same_text};
use vstd::prelude::*;

verus! {

// ---------------------------------------------------------------------------
// Events
// ---------------------------------------------------------------------------

/// The name of a thread: its repository and its number.
pub open spec fn thread_name(repo: Seq<char>, number: int) -> Seq<char> {
    repo + "#"@ + decimal::signed_decimal(number)
}

/// The name of a thread: its repository and its number.
pub fn thread_name_of(repo: &str, number: i64) -> (out: String)
    ensures
        out@ == thread_name(repo@, number as int),
{
    let mut out = owned(repo);
    out.append("#");
    out.append(signed_text(number).as_str());
    out
}

/// The link to the commits of a user on a day.
pub open spec fn commits_link(repo: Seq<char>, username: Seq<char>, occurred_at: Seq<char>) -> Seq<
    char,
> {
    let day = calendar::day_part(occurred_at);
    "https://github.com/"@ + repo + "/commits?author="@ + username + "&since="@ + day
        + "T00:00:00Z&until="@ + day + "T23:59:59Z"@
}

/// The link to the commits of a user on a day.
pub fn commit_day_url(repo: &str, username: &str, occurred_at: &str) -> (out: String)
    ensures
        out@ == commits_link(repo@, username@, occurred_at@),
{
    let day = short_date(occurred_at);
    let mut out = owned("https://github.com/");
    out.append(repo);
    out.append("/commits?author=");
    out.append(username);
    out.append("&since=");
    out.append(day.as_str());
    out.append("T00:00:00Z&until=");
    out.append(day.as_str());
    out.append("T23:59:59Z");
    out
}

/// The event of a pull request or an issue. It has none without an id, a title, a link and
/// a time.
pub open spec fn opened_event(kind: Seq<char>, repo: Seq<char>, item: JsonModel) -> Option<
    EventModel,
> {
    match (
        fields::string_in(item, "id"@),
        fields::string_in(item, "title"@),
        fields::string_in(item, "url"@),
        fields::string_in(item, "createdAt"@),
    ) {
        (Some(id), Some(title), Some(url), Some(created)) => Some(
            EventModel {
                id,
                event_type: kind,
                repo,
                title,
                url,
                occurred_at: created,
                thread_id: thread_name(repo, fields::integer_in(item, "number"@, 0)),
                thread_title: title,
                thread_url: url,
                status: fields::text_field(item, "state"@),
            },
        ),
        _ => None,
    }
}

/// How a number of commits to a repository is told.
pub open spec fn commit_title(count: int, repo: Seq<char>) -> Seq<char> {
    decimal::signed_decimal(count) + " commit"@ + (if count == 1 {
        ""@
    } else {
        "s"@
    }) + " to "@ + repo
}

/// The event of the commits of a day. It has none without a time.
pub open spec fn commit_event(
    kind: Seq<char>,
    repo: Seq<char>,
    node: JsonModel,
    username: Seq<char>,
) -> Option<EventModel> {
    match fields::string_in(node, "occurredAt"@) {
        Some(date) => {
            let count = fields::integer_in(node, "commitCount"@, 1);
            let url = commits_link(repo, username, date);
            Some(
                EventModel {
                    id: repo + ":commit:"@ + date + ":"@ + decimal::signed_decimal(count),
                    event_type: kind,
                    repo,
                    title: commit_title(count, repo),
                    url,
                    occurred_at: date,
                    thread_id: repo + ":commits:"@ + date,
                    thread_title: commit_title(count, repo),
                    thread_url: url,
                    status: ""@,
                },
            )
        },
        None => None,
    }
}

/// The event of a review. It has none without an id, a link and a time of its own and a
/// title and a link of its pull request.
pub open spec fn review_event(kind: Seq<char>, repo: Seq<char>, review: JsonModel) -> Option<
    EventModel,
> {
    match json::field(review, "pullRequest"@) {
        Some(pr) => match (
            fields::string_in(review, "id"@),
            fields::string_in(review, "url"@),
            fields::string_in(review, "createdAt"@),
            fields::string_in(pr, "title"@),
            fields::string_in(pr, "url"@),
        ) {
            (Some(id), Some(url), Some(created), Some(title), Some(thread_url)) => Some(
                EventModel {
                    id,
                    event_type: kind,
                    repo,
                    title: "Reviewed "@ + title,
                    url,
                    occurred_at: created,
                    thread_id: thread_name(repo, fields::integer_in(pr, "number"@, 0)),
                    thread_title: title,
                    thread_url,
                    status: fields::text_field(review, "state"@),
                },
            ),
            _ => None,
        },
        None => None,
    }
}

/// The event that a contribution stands for, if it stands for one.
pub open spec fn node_event(
    kind: Seq<char>,
    repo: Seq<char>,
    node: JsonModel,
    username: Seq<char>,
) -> Option<EventModel> {
    if kind == "pull_request"@ {
        match json::field(node, "pullRequest"@) {
            Some(item) => opened_event(kind, repo, item),
            None => None,
        }
    } else if kind == "issue"@ {
        match json::field(node, "issue"@) {
            Some(item) => opened_event(kind, repo, item),
            None => None,
        }
    } else if kind == "commit"@ {
        commit_event(kind, repo, node, username)
    } else if kind == "review"@ {
        match json::field(node, "pullRequestReview"@) {
            Some(item) => review_event(kind, repo, item),
            None => None,
        }
    } else {
        None
    }
}

/// An optional event, seen as a value.
pub open spec fn event_outcome(out: Option<Event>) -> Option<EventModel> {
    match out {
        Some(e) => Some(e@),
        None => None,
    }
}

/// Reads the event of a pull request or an issue.
fn read_opened(kind: &str, repo: &str, item: &Json) -> (out: Option<Event>)
    ensures
        event_outcome(out) == opened_event(kind@, repo@, item@),
{
    match (
        get_string(item, "id"),
        get_string(item, "title"),
        get_string(item, "url"),
        get_string(item, "createdAt"),
    ) {
        (Some(id), Some(title), Some(url), Some(created)) => {
            let number = integer_of_field(item, "number", 0);
            let e = Event {
                id,
                event_type: owned(kind),
                repo: owned(repo),
                title: owned(title.as_str()),
                url: owned(url.as_str()),
                occurred_at: created,
                thread_id: thread_name_of(repo, number),
                thread_title: title,
                thread_url: url,
                status: text_of(item, "state"),
            };
            Some(e)
        },
        _ => None,
    }
}

/// Tells a number of commits to a repository.
fn write_commit_title(count: i64, repo: &str) -> (out: String)
    ensures
        out@ == commit_title(count as int, repo@),
{
    let mut out = signed_text(count);
    out.append(" commit");
    out.append(if count == 1 {
        ""
    } else {
        "s"
    });
    out.append(" to ");
    out.append(repo);
    out
}

/// Reads the event of the commits of a day.
fn read_commit(kind: &str, repo: &str, node: &Json, username: &str) -> (out: Option<Event>)
    ensures
        event_outcome(out) == commit_event(kind@, repo@, node@, username@),
{
    match get_string(node, "occurredAt") {
        Some(date) => {
            let count = integer_of_field(node, "commitCount", 1);
            let mut id = owned(repo);
            id.append(":commit:");
            id.append(date.as_str());
            id.append(":");
            id.append(signed_text(count).as_str());
            let mut thread_id = owned(repo);
            thread_id.append(":commits:");
            thread_id.append(date.as_str());
            let e = Event {
                id,
                event_type: owned(kind),
                repo: owned(repo),
                title: write_commit_title(count, repo),
                url: commit_day_url(repo, username, date.as_str()),
                occurred_at: owned(date.as_str()),
                thread_id,
                thread_title: write_commit_title(count, repo),
                thread_url: commit_day_url(repo, username, date.as_str()),
                status: owned(""),
            };
            Some(e)
        },
        None => None,
    }
}

/// Reads the event of a review.
fn read_review(kind: &str, repo: &str, review: &Json) -> (out: Option<Event>)
    ensures
        event_outcome(out) == review_event(kind@, repo@, review@),
{
    match review.get("pullRequest") {
        Some(pr) => match (
            get_string(review, "id"),
            get_string(review, "url"),
            get_string(review, "createdAt"),
            get_string(pr, "title"),
            get_string(pr, "url"),
        ) {
            (Some(id), Some(url), Some(created), Some(thread_title), Some(thread_url)) => {
                let number = integer_of_field(pr, "number", 0);
                let mut title = owned("Reviewed ");
                title.append(thread_title.as_str());
                let e = Event {
                    id,
                    event_type: owned(kind),
                    repo: owned(repo),
                    title,
                    url,
                    occurred_at: created,
                    thread_id: thread_name_of(repo, number),
                    thread_title,
                    thread_url,
                    status: text_of(review, "state"),
                };
                Some(e)
            },
            _ => None,
        },
        None => None,
    }
}

/// Reads the event that a contribution stands for, if it stands for one.
pub fn event_from_node(kind: &str, repo: &str, node: &Json, username: &str) -> (out: Option<Event>)
    ensures
        event_outcome(out) == node_event(kind@, repo@, node@, username@),
{
    if same_text(kind, "pull_request") {
        match node.get("pullRequest") {
            Some(item) => read_opened(kind, repo, item),
            None => None,
        }
    } else if same_text(kind, "issue") {
        match node.get("issue") {
            Some(item) => read_opened(kind, repo, item),
            None => None,
        }
    } else if same_text(kind, "commit") {
        read_commit(kind, repo, node, username)
    } else if same_text(kind, "review") {
        match node.get("pullRequestReview") {
            Some(item) => read_review(kind, repo, item),
            None => None,
        }
    } else {
        None
    }
}

// ---------------------------------------------------------------------------
// Keywords
// ---------------------------------------------------------------------------

/// The text in lower case, as `str::to_lowercase` gives it.
pub uninterp spec fn lowercase(s: Seq<char>) -> Seq<char>;

/// `str::to_lowercase`: the text with every character mapped to lower case by the rules of
/// Unicode. The result has a name. Where the text is ASCII, its letters are in lower case and
/// its other characters are as they were. Of the characters that another text gives nothing
/// is claimed.
#[verifier::external_body]
fn to_lowercase(s: &str) -> (out: String)
    ensures
        out@ == lowercase(s@),
        text::all_ascii(s@) ==> out@ == text::ascii_lowered(s@),
{
    s.to_lowercase()
}

/// The text in lower case.
pub open spec fn lower_case(s: Seq<char>) -> Seq<char> {
    if text::all_ascii(s) {
        text::ascii_lowered(s)
    } else {
        lowercase(s)
    }
}

/// A string and a blank behind it; nothing where there is no string.
pub open spec fn word(value: Option<JsonModel>) -> Seq<char> {
    match value {
        Some(JsonModel::String(s)) => s + seq![' '],
        _ => seq![],
    }
}

/// The names of topics, each with a blank behind it.
pub open spec fn topic_words(topics: Seq<JsonModel>) -> Seq<char>
    decreases topics.len(),
{
    if topics.len() == 0 {
        seq![]
    } else {
        topic_words(topics.drop_last()) + word(
            json::at_path(topics.last(), seq!["topic"@, "name"@]),
        )
    }
}

/// The words by which a repository is known: its name, its description and its topics.
pub open spec fn repo_words(repo: JsonModel) -> Seq<char> {
    word(json::field(repo, "nameWithOwner"@)) + word(json::field(repo, "description"@))
        + topic_words(fields::list_at(repo, seq!["repositoryTopics"@, "nodes"@]))
}

/// Whether a text holds one of the others.
pub open spec fn mentions(hay: Seq<char>, needles: Seq<Seq<char>>) -> bool {
    exists|i: int| 0 <= i < needles.len() && text::has_text(hay, #[trigger] needles[i])
}

/// Whether the words of a repository hold one of the keywords, all in lower case.
pub open spec fn matches_keywords(repo: Option<JsonModel>, keywords: Seq<Seq<char>>) -> bool {
    match repo {
        Some(r) => mentions(
            lower_case(repo_words(r)),
            keywords.map_values(|k: Seq<char>| lower_case(k)),
        ),
        None => false,
    }
}

/// Appends a string and a blank.
fn push_word(out: &mut String, value: Option<&Json>)
    ensures
        final(out)@ == old(out)@ + word(json::opt_model(value)),
{
    if let Some(inner) = value {
        if let Some(s) = inner.string() {
            out.append(s);
            out.push(' ');
            assert(out@ =~= old(out)@ + (s@ + seq![' ']));
            return ;
        }
    }
    assert(out@ =~= old(out)@ + Seq::<char>::empty());
}

/// The words by which a repository is known.
pub fn words_of(repo: &Json) -> (out: String)
    ensures
        out@ == repo_words(repo@),
{
    let mut out = String::new();
    push_word(&mut out, repo.get("nameWithOwner"));
    push_word(&mut out, repo.get("description"));
    let ghost front = out@;
    assert(front =~= word(json::field(repo@, "nameWithOwner"@)) + word(
        json::field(repo@, "description"@),
    ));
    let path = ["repositoryTopics", "nodes"];
    assert(json::path_texts(path@) =~= seq!["repositoryTopics"@, "nodes"@]);
    let topics = list_of_path(repo, &path);
    let ghost all = json::item_models(topics@);
    proof {
        json::lemma_item_models(topics@);
        assert(all.take(0) =~= seq![]);
        assert(front + topic_words(all.take(0)) =~= front);
    }
    for i in 0..topics.len()
        invariant
            all == json::item_models(topics@),
            all.len() == topics@.len(),
            forall|j: int|
                0 <= j < topics@.len() ==> all[j] == json::json_model(#[trigger] topics@[j]),
            out@ == front + topic_words(all.take(i as int)),
    {
        assert(all.take(i + 1).drop_last() =~= all.take(i as int));
        assert(all[i as int] == json::json_model(topics@[i as int]));
        let name = ["topic", "name"];
        assert(json::path_texts(name@) =~= seq!["topic"@, "name"@]);
        push_word(&mut out, topics[i].get_path(&name));
        assert(out@ =~= front + topic_words(all.take(i + 1)));
    }
    assert(all.take(all.len() as int) =~= all);
    out
}

/// Whether a text holds one of the others.
pub fn mentions_any(hay: &str, needles: &[String]) -> (out: bool)
    ensures
        out == mentions(hay@, text::texts(needles@)),
{
    let ghost all = text::texts(needles@);
    for i in 0..needles.len()
        invariant
            all == text::texts(needles@),
            forall|j: int| 0 <= j < i ==> !text::has_text(hay@, #[trigger] all[j]),
    {
        assert(all[i as int] == needles@[i as int]@);
        if contains_text(hay, needles[i].as_str()) {
            return true;
        }
    }
    false
}

/// Whether the words of a repository hold one of the keywords, all in lower case.
pub fn repo_matches_keywords(repo: Option<&Json>, keywords: &[String]) -> (out: bool)
    ensures
        out == matches_keywords(json::opt_model(repo), text::texts(keywords@)),
{
    let r = match repo {
        Some(r) => r,
        None => {
            return false;
        },
    };
    let hay = to_lowercase(words_of(r).as_str());
    let ghost wanted = text::texts(keywords@).map_values(|k: Seq<char>| lower_case(k));
    let mut needles: Vec<String> = Vec::new();
    assert(text::texts(needles@) =~= wanted.take(0));
    for i in 0..keywords.len()
        invariant
            wanted == text::texts(keywords@).map_values(|k: Seq<char>| lower_case(k)),
            text::texts(needles@) == wanted.take(i as int),
    {
        let ghost before = text::texts(needles@);
        let low = to_lowercase(keywords[i].as_str());
        let ghost added = low@;
        needles.push(low);
        assert(text::texts(needles@) =~= before.push(added));
        assert(wanted.take(i + 1) =~= wanted.take(i as int).push(wanted[i as int]));
    }
    assert(wanted.take(wanted.len() as int) =~= wanted);
    mentions_any(hay.as_str(), needles.as_slice())
}

// ---------------------------------------------------------------------------
// Extraction
// ---------------------------------------------------------------------------

/// The repository of a group of contributions; nothing where it has no name.
pub open spec fn group_repo(group: JsonModel) -> Seq<char> {
    fields::text_at(group, seq!["repository"@, "nameWithOwner"@])
}

/// The events of contributions, in their order.
pub open spec fn node_events(
    kind: Seq<char>,
    repo: Seq<char>,
    nodes: Seq<JsonModel>,
    username: Seq<char>,
) -> Seq<EventModel>
    decreases nodes.len(),
{
    if nodes.len() == 0 {
        seq![]
    } else {
        let front = node_events(kind, repo, nodes.drop_last(), username);
        match node_event(kind, repo, nodes.last(), username) {
            Some(e) => front.push(e),
            None => front,
        }
    }
}

/// The events of a group: those of its contributions where the site takes its repository.
pub open spec fn group_events(c: ConfigModel, kind: Seq<char>, group: JsonModel) -> Seq<EventModel> {
    let repo = group_repo(group);
    if repo.len() > 0 && rules::allowed(c, repo) {
        node_events(
            kind,
            repo,
            fields::list_at(group, seq!["contributions"@, "nodes"@]),
            c.username,
        )
    } else {
        seq![]
    }
}

/// The candidates of a group: its repository where the site neither takes nor excludes it
/// and a keyword matches.
pub open spec fn group_candidates(c: ConfigModel, group: JsonModel) -> Seq<Seq<char>> {
    let repo = group_repo(group);
    if repo.len() > 0 && !c.exclude.contains(repo) && !rules::allowed(c, repo) && matches_keywords(
        json::field(group, "repository"@),
        c.keywords,
    ) {
        seq![repo]
    } else {
        seq![]
    }
}

/// The events of groups, in their order.
pub open spec fn groups_events(c: ConfigModel, kind: Seq<char>, groups: Seq<JsonModel>) -> Seq<
    EventModel,
>
    decreases groups.len(),
{
    if groups.len() == 0 {
        seq![]
    } else {
        groups_events(c, kind, groups.drop_last()) + group_events(c, kind, groups.last())
    }
}

/// The candidates of groups, in their order.
pub open spec fn groups_candidates(c: ConfigModel, groups: Seq<JsonModel>) -> Seq<Seq<char>>
    decreases groups.len(),
{
    if groups.len() == 0 {
        seq![]
    } else {
        groups_candidates(c, groups.drop_last()) + group_candidates(c, groups.last())
    }
}

/// The parts of a report and the kinds of their events.
pub open spec fn parts() -> Seq<(Seq<char>, Seq<char>)> {
    seq![
        ("pullRequestContributionsByRepository"@, "pull_request"@),
        ("issueContributionsByRepository"@, "issue"@),
        ("commitContributionsByRepository"@, "commit"@),
        ("pullRequestReviewContributionsByRepository"@, "review"@),
    ]
}

/// The events of the first parts of a report.
pub open spec fn part_events(c: ConfigModel, report: JsonModel, n: nat) -> Seq<EventModel>
    decreases n,
{
    if n == 0 {
        seq![]
    } else {
        let part = parts()[n - 1];
        part_events(c, report, (n - 1) as nat) + groups_events(
            c,
            part.1,
            fields::list_field(report, part.0),
        )
    }
}

/// The candidates of the first parts of a report.
pub open spec fn part_candidates(c: ConfigModel, report: JsonModel, n: nat) -> Seq<Seq<char>>
    decreases n,
{
    if n == 0 {
        seq![]
    } else {
        part_candidates(c, report, (n - 1) as nat) + groups_candidates(
            c,
            fields::list_field(report, parts()[n - 1].0),
        )
    }
}

/// The events and the candidates in a reply, the candidates in ascending order.
pub open spec fn contributions(c: ConfigModel, graph: JsonModel) -> Result<
    (Seq<EventModel>, Seq<Seq<char>>),
    Seq<char>,
> {
    match json::at_path(graph, seq!["data"@, "user"@, "contributionsCollection"@]) {
        Some(report) => Ok(
            (part_events(c, report, 4), names::sorted_names(part_candidates(c, report, 4))),
        ),
        None => Err("missing contributionsCollection in GraphQL response"@),
    }
}

/// What an extraction gives, seen as values.
pub open spec fn contributions_outcome(out: Result<(Vec<Event>, NameSet), String>) -> Result<
    (Seq<EventModel>, Seq<Seq<char>>),
    Seq<char>,
> {
    match out {
        Ok((events, candidates)) => Ok((event::models(events@), candidates.listing())),
        Err(e) => Err(e@),
    }
}

/// Appends the events of contributions.
fn read_nodes(kind: &str, repo: &str, nodes: &[Json], username: &str, events: &mut Vec<Event>)
    ensures
        event::models(final(events)@) == event::models(old(events)@) + node_events(
            kind@,
            repo@,
            json::item_models(nodes@),
            username@,
        ),
{
    let ghost before = event::models(events@);
    let ghost all = json::item_models(nodes@);
    proof {
        json::lemma_item_models(nodes@);
        assert(all.take(0) =~= seq![]);
        assert(before + node_events(kind@, repo@, all.take(0), username@) =~= before);
    }
    for i in 0..nodes.len()
        invariant
            all == json::item_models(nodes@),
            all.len() == nodes@.len(),
            forall|j: int|
                0 <= j < nodes@.len() ==> all[j] == json::json_model(#[trigger] nodes@[j]),
            event::models(events@) == before + node_events(
                kind@,
                repo@,
                all.take(i as int),
                username@,
            ),
    {
        assert(all.take(i + 1).drop_last() =~= all.take(i as int));
        assert(all[i as int] == json::json_model(nodes@[i as int]));
        let ghost sofar = event::models(events@);
        if let Some(e) = event_from_node(kind, repo, &nodes[i], username) {
            let ghost model = e@;
            events.push(e);
            assert(event::models(events@) =~= sofar.push(model));
            assert(sofar.push(model) =~= before + node_events(
                kind@,
                repo@,
                all.take(i as int),
                username@,
            ).push(model));
        }
    }
    assert(all.take(all.len() as int) =~= all);
}

/// Appends the events and the candidates of a group.
fn read_group(
    config: &Config,
    kind: &str,
    group: &Json,
    events: &mut Vec<Event>,
    candidates: &mut Vec<String>,
)
    ensures
        event::models(final(events)@) == event::models(old(events)@) + group_events(
            config@,
            kind@,
            group@,
        ),
        text::texts(final(candidates)@) == text::texts(old(candidates)@) + group_candidates(
            config@,
            group@,
        ),
{
    let ghost no_events = event::models(events@) + Seq::<EventModel>::empty();
    let ghost no_names = text::texts(candidates@) + Seq::<Seq<char>>::empty();
    assert(no_events =~= event::models(events@));
    assert(no_names =~= text::texts(candidates@));
    let path = ["repository", "nameWithOwner"];
    assert(json::path_texts(path@) =~= seq!["repository"@, "nameWithOwner"@]);
    let repo = text_of_path(group, &path);
    if repo.as_str().is_empty() || config.exclude.contains(repo.as_str()) {
        return ;
    }
    if repo_allowed(config, repo.as_str()) {
        let nodes_path = ["contributions", "nodes"];
        assert(json::path_texts(nodes_path@) =~= seq!["contributions"@, "nodes"@]);
        let nodes = list_of_path(group, &nodes_path);
        read_nodes(kind, repo.as_str(), nodes, config.username.as_str(), events);
    } else if repo_matches_keywords(group.get("repository"), config.keywords.as_slice()) {
        let ghost before = text::texts(candidates@);
        let ghost name = repo@;
        candidates.push(repo);
        assert(text::texts(candidates@) =~= before + seq![name]);
    }
}

/// Appends the events and the candidates of groups.
fn read_groups(
    config: &Config,
    kind: &str,
    groups: &[Json],
    events: &mut Vec<Event>,
    candidates: &mut Vec<String>,
)
    ensures
        event::models(final(events)@) == event::models(old(events)@) + groups_events(
            config@,
            kind@,
            json::item_models(groups@),
        ),
        text::texts(final(candidates)@) == text::texts(old(candidates)@) + groups_candidates(
            config@,
            json::item_models(groups@),
        ),
{
    let ghost e = event::models(events@);
    let ghost n = text::texts(candidates@);
    let ghost all = json::item_models(groups@);
    let ghost c = config@;
    proof {
        json::lemma_item_models(groups@);
        assert(all.take(0) =~= seq![]);
        assert(e + groups_events(c, kind@, all.take(0)) =~= e);
        assert(n + groups_candidates(c, all.take(0)) =~= n);
    }
    for i in 0..groups.len()
        invariant
            c == config@,
            all == json::item_models(groups@),
            all.len() == groups@.len(),
            forall|j: int|
                0 <= j < groups@.len() ==> all[j] == json::json_model(#[trigger] groups@[j]),
            event::models(events@) == e + groups_events(c, kind@, all.take(i as int)),
            text::texts(candidates@) == n + groups_candidates(c, all.take(i as int)),
    {
        assert(all.take(i + 1).drop_last() =~= all.take(i as int));
        assert(all[i as int] == json::json_model(groups@[i as int]));
        read_group(config, kind, &groups[i], events, candidates);
        assert(event::models(events@) =~= e + groups_events(c, kind@, all.take(i + 1)));
        assert(text::texts(candidates@) =~= n + groups_candidates(c, all.take(i + 1)));
    }
    assert(all.take(all.len() as int) =~= all);
}

/// Reads the events of the repositories that the site takes, and the candidates among the
/// others.
pub fn extract_contributions(config: &Config, graph: &Json) -> (out: Result<
    (Vec<Event>, NameSet),
    String,
>)
    ensures
        contributions_outcome(out) == contributions(config@, graph@),
        out matches Ok((_, candidates)) ==> candidates.valid(),
{
    let path = ["data", "user", "contributionsCollection"];
    assert(json::path_texts(path@) =~= seq!["data"@, "user"@, "contributionsCollection"@]);
    let report = match graph.get_path(&path) {
        Some(report) => report,
        None => {
            return Err(owned("missing contributionsCollection in GraphQL response"));
        },
    };
    let ghost c = config@;
    let keys = [
        "pullRequestContributionsByRepository",
        "issueContributionsByRepository",
        "commitContributionsByRepository",
        "pullRequestReviewContributionsByRepository",
    ];
    let kinds = ["pull_request", "issue", "commit", "review"];
    let mut events: Vec<Event> = Vec::new();
    let mut candidates: Vec<String> = Vec::new();
    assert(event::models(events@) =~= seq![]);
    assert(text::texts(candidates@) =~= seq![]);
    for i in 0..4usize
        invariant
            c == config@,
            forall|j: int| 0 <= j < 4 ==> (#[trigger] keys@[j])@ == parts()[j].0,
            forall|j: int| 0 <= j < 4 ==> (#[trigger] kinds@[j])@ == parts()[j].1,
            event::models(events@) == part_events(c, report@, i as nat),
            text::texts(candidates@) == part_candidates(c, report@, i as nat),
    {
        let groups = list_of(report, keys[i]);
        assert(keys@[i as int]@ == parts()[i as int].0);
        assert(kinds@[i as int]@ == parts()[i as int].1);
        read_groups(config, kinds[i], groups, &mut events, &mut candidates);
    }
    Ok((events, NameSet::from_vec(candidates)))
}

// ---------------------------------------------------------------------------
// Laws
// ---------------------------------------------------------------------------

/// Without a repository, or without keywords, nothing matches.
pub proof fn lemma_nothing_matches(repo: Option<JsonModel>, keywords: Seq<Seq<char>>)
    requires
        repo is None || keywords.len() == 0,
    ensures
        !matches_keywords(repo, keywords),
{
}

/// Keywords of two lists match where those of one of the lists do.
pub proof fn lemma_joined_keywords(
    repo: Option<JsonModel>,
    a: Seq<Seq<char>>,
    b: Seq<Seq<char>>,
)
    ensures
        matches_keywords(repo, a + b) == (matches_keywords(repo, a) || matches_keywords(repo, b)),
{
    if let Some(r) = repo {
        let hay = lower_case(repo_words(r));
        let la = a.map_values(|k: Seq<char>| lower_case(k));
        let lb = b.map_values(|k: Seq<char>| lower_case(k));
        let both = (a + b).map_values(|k: Seq<char>| lower_case(k));
        assert(both =~= la + lb);
        if mentions(hay, la) {
            let i = choose|i: int| 0 <= i < la.len() && text::has_text(hay, #[trigger] la[i]);
            assert(both[i] == la[i]);
        }
        if mentions(hay, lb) {
            let i = choose|i: int| 0 <= i < lb.len() && text::has_text(hay, #[trigger] lb[i]);
            assert(both[la.len() + i] == lb[i]);
        }
        if mentions(hay, both) {
            let i = choose|i: int| 0 <= i < both.len() && text::has_text(hay, #[trigger] both[i]);
            if i < la.len() {
                assert(la[i] == both[i]);
            } else {
                assert(lb[i - la.len()] == both[i]);
            }
        }
    }
}

/// ASCII texts that differ only in the case of letters are the same in lower case.
proof fn lemma_lower_case(a: Seq<char>, b: Seq<char>)
    requires
        text::all_ascii(a),
        text::same_ignoring_ascii_case(a, b),
    ensures
        lower_case(a) == lower_case(b),
{
    let la = text::ascii_lowered(a);
    let lb = text::ascii_lowered(b);
    assert(la.len() == lb.len());
    assert forall|i: int| 0 <= i < b.len() implies #[trigger] b[i] <= '\u{7f}' by {
        assert(la[i] == lb[i]);
        assert(a[i] <= '\u{7f}');
    }
}

/// The case of ASCII keywords does not matter.
pub proof fn lemma_keyword_case(
    repo: Option<JsonModel>,
    a: Seq<Seq<char>>,
    b: Seq<Seq<char>>,
)
    requires
        a.len() == b.len(),
        forall|i: int| 0 <= i < a.len() ==> text::all_ascii(#[trigger] a[i]),
        forall|i: int|
            0 <= i < a.len() ==> text::same_ignoring_ascii_case(#[trigger] a[i], b[i]),
    ensures
        matches_keywords(repo, a) == matches_keywords(repo, b),
{
    let la = a.map_values(|k: Seq<char>| lower_case(k));
    let lb = b.map_values(|k: Seq<char>| lower_case(k));
    assert forall|i: int| 0 <= i < a.len() implies la[i] == lb[i] by {
        assert(text::all_ascii(a[i]));
        lemma_lower_case(a[i], b[i]);
    }
    assert(la =~= lb);
}

/// The case of the words of a repository does not matter either, where they are ASCII.
pub proof fn lemma_repo_case(a: JsonModel, b: JsonModel, keywords: Seq<Seq<char>>)
    requires
        text::all_ascii(repo_words(a)),
        text::same_ignoring_ascii_case(repo_words(a), repo_words(b)),
    ensures
        matches_keywords(Some(a), keywords) == matches_keywords(Some(b), keywords),
{
    lemma_lower_case(repo_words(a), repo_words(b));
}

/// Every event of contributions is of their kind and repository.
proof fn lemma_node_events(
    kind: Seq<char>,
    repo: Seq<char>,
    nodes: Seq<JsonModel>,
    username: Seq<char>,
)
    ensures
        forall|i: int|
            0 <= i < node_events(kind, repo, nodes, username).len() ==> (#[trigger] node_events(
                kind,
                repo,
                nodes,
                username,
            )[i]).repo == repo && node_events(kind, repo, nodes, username)[i].event_type == kind,
    decreases nodes.len(),
{
    if nodes.len() > 0 {
        lemma_node_events(kind, repo, nodes.drop_last(), username);
        let front = node_events(kind, repo, nodes.drop_last(), username);
        let out = node_events(kind, repo, nodes, username);
        assert forall|i: int| 0 <= i < out.len() implies (#[trigger] out[i]).repo == repo
            && out[i].event_type == kind by {
            if i < front.len() {
                assert(out[i] == front[i]);
            }
        }
    }
}

/// Every event of groups is of their kind and of a repository that the site takes.
proof fn lemma_groups_events(c: ConfigModel, kind: Seq<char>, groups: Seq<JsonModel>)
    ensures
        forall|i: int|
            0 <= i < groups_events(c, kind, groups).len() ==> rules::allowed(
                c,
                (#[trigger] groups_events(c, kind, groups)[i]).repo,
            ) && groups_events(c, kind, groups)[i].event_type == kind,
    decreases groups.len(),
{
    if groups.len() > 0 {
        let front = groups_events(c, kind, groups.drop_last());
        lemma_groups_events(c, kind, groups.drop_last());
        let repo = group_repo(groups.last());
        lemma_node_events(
            kind,
            repo,
            fields::list_at(groups.last(), seq!["contributions"@, "nodes"@]),
            c.username,
        );
        let out = groups_events(c, kind, groups);
        let last = group_events(c, kind, groups.last());
        assert forall|i: int| 0 <= i < out.len() implies rules::allowed(
            c,
            (#[trigger] out[i]).repo,
        ) && out[i].event_type == kind by {
            if i < front.len() {
                assert(out[i] == front[i]);
            } else {
                assert(out[i] == last[i - front.len()]);
            }
        }
    }
}

/// Whether a repository may be proposed to the site's owner.
pub open spec fn open_question(c: ConfigModel, repo: Seq<char>) -> bool {
    repo.len() > 0 && !c.exclude.contains(repo) && !rules::allowed(c, repo)
}

/// Whether a group is of the repository and a keyword matches it.
pub open spec fn group_matches(c: ConfigModel, group: JsonModel, repo: Seq<char>) -> bool {
    group_repo(group) == repo && matches_keywords(json::field(group, "repository"@), c.keywords)
}

/// Whether one of the groups is of the repository and a keyword matches it.
pub open spec fn groups_match(c: ConfigModel, groups: Seq<JsonModel>, repo: Seq<char>) -> bool {
    exists|i: int| 0 <= i < groups.len() && group_matches(c, #[trigger] groups[i], repo)
}

/// Whether one of the first parts of a report lists the repository and a keyword matches it.
pub open spec fn parts_match(c: ConfigModel, report: JsonModel, n: nat, repo: Seq<char>) -> bool {
    exists|k: int|
        0 <= k < n && groups_match(
            c,
            fields::list_field(report, (#[trigger] parts()[k]).0),
            repo,
        )
}

/// The candidates of groups are the repositories that the site neither takes nor excludes and
/// that a keyword matches.
proof fn lemma_groups_candidates(c: ConfigModel, groups: Seq<JsonModel>, repo: Seq<char>)
    ensures
        groups_candidates(c, groups).contains(repo) == (open_question(c, repo) && groups_match(
            c,
            groups,
            repo,
        )),
    decreases groups.len(),
{
    if groups.len() > 0 {
        let rest = groups.drop_last();
        let front = groups_candidates(c, rest);
        let last = group_candidates(c, groups.last());
        lemma_groups_candidates(c, rest, repo);
        lemma_joined(front, last, repo);
        if last.contains(repo) {
            assert(group_matches(c, groups[groups.len() - 1], repo));
        }
        if groups_match(c, rest, repo) {
            let i = choose|i: int| 0 <= i < rest.len() && group_matches(c, #[trigger] rest[i], repo);
            assert(group_matches(c, groups[i], repo));
        }
        if open_question(c, repo) && groups_match(c, groups, repo) {
            let i = choose|i: int|
                0 <= i < groups.len() && group_matches(c, #[trigger] groups[i], repo);
            if i < rest.len() {
                assert(group_matches(c, rest[i], repo));
            } else {
                assert(last[0] == repo);
            }
        }
    }
}

/// A list of two parts holds what the parts hold.
proof fn lemma_joined(a: Seq<Seq<char>>, b: Seq<Seq<char>>, x: Seq<char>)
    ensures
        (a + b).contains(x) == (a.contains(x) || b.contains(x)),
{
    if a.contains(x) {
        let i = choose|i: int| 0 <= i < a.len() && a[i] == x;
        assert((a + b)[i] == x);
    }
    if b.contains(x) {
        let i = choose|i: int| 0 <= i < b.len() && b[i] == x;
        assert((a + b)[a.len() + i] == x);
    }
}

/// The candidates of the first parts of a report.
proof fn lemma_part_candidates(c: ConfigModel, report: JsonModel, n: nat, repo: Seq<char>)
    ensures
        part_candidates(c, report, n).contains(repo) == (open_question(c, repo) && parts_match(
            c,
            report,
            n,
            repo,
        )),
    decreases n,
{
    if n > 0 {
        let m = (n - 1) as nat;
        let groups = fields::list_field(report, parts()[n - 1].0);
        lemma_part_candidates(c, report, m, repo);
        lemma_groups_candidates(c, groups, repo);
        lemma_joined(part_candidates(c, report, m), groups_candidates(c, groups), repo);
        if parts_match(c, report, m, repo) {
            let k = choose|k: int|
                0 <= k < m && groups_match(
                    c,
                    fields::list_field(report, (#[trigger] parts()[k]).0),
                    repo,
                );
            assert(0 <= k < n);
            assert(groups_match(c, fields::list_field(report, parts()[k].0), repo));
        }
        if groups_match(c, groups, repo) {
            assert(groups_match(c, fields::list_field(report, parts()[n - 1].0), repo));
        }
    }
}

/// Whether an event is of a repository that the site takes and of one of the kinds that
/// contributions have.
pub open spec fn taken(c: ConfigModel, e: EventModel) -> bool {
    rules::allowed(c, e.repo) && exists|k: int|
        0 <= k < parts().len() && e.event_type == (#[trigger] parts()[k]).1
}

proof fn lemma_part_events(c: ConfigModel, report: JsonModel, n: nat)
    requires
        n <= 4,
    ensures
        forall|i: int|
            0 <= i < part_events(c, report, n).len() ==> taken(
                c,
                #[trigger] part_events(c, report, n)[i],
            ),
    decreases n,
{
    if n > 0 {
        let m = (n - 1) as nat;
        let part = parts()[n - 1];
        let groups = fields::list_field(report, part.0);
        lemma_part_events(c, report, m);
        lemma_groups_events(c, part.1, groups);
        let front = part_events(c, report, m);
        let out = part_events(c, report, n);
        assert forall|i: int| 0 <= i < out.len() implies taken(c, #[trigger] out[i]) by {
            if i < front.len() {
                assert(out[i] == front[i]);
            } else {
                assert(out[i] == groups_events(c, part.1, groups)[i - front.len()]);
            }
        }
    }
}

/// Only repositories that the site takes give events. The candidates are exactly the
/// repositories of the report that the site neither takes nor excludes and that a keyword
/// matches, in ascending order, each once.
pub proof fn lemma_contributions(c: ConfigModel, graph: JsonModel)
    requires
        contributions(c, graph) is Ok,
    ensures
        forall|i: int|
            0 <= i < contributions(c, graph)->Ok_0.0.len() ==> taken(
                c,
                #[trigger] contributions(c, graph)->Ok_0.0[i],
            ),
        names::ascending(contributions(c, graph)->Ok_0.1),
        forall|repo: Seq<char>| #[trigger]
            contributions(c, graph)->Ok_0.1.contains(repo) == (open_question(c, repo)
                && parts_match(
                c,
                json::at_path(graph, seq!["data"@, "user"@, "contributionsCollection"@])->0,
                parts().len(),
                repo,
            )),
{
    let report = json::at_path(graph, seq!["data"@, "user"@, "contributionsCollection"@])->0;
    lemma_part_events(c, report, 4);
    let all = part_candidates(c, report, 4);
    names::lemma_sorted_names(all);
    assert forall|repo: Seq<char>| #[trigger]
        names::sorted_names(all).contains(repo) == (open_question(c, repo) && parts_match(
            c,
            report,
            parts().len(),
            repo,
        )) by {
        lemma_part_candidates(c, report, 4, repo);
        assert(names::sorted_names(all).contains(repo) == all.contains(repo));
    }
}

/// Whether an event is of a repository, and its thread has the given number there.
pub open spec fn in_thread(e: EventModel, repo: Seq<char>, number: int) -> bool {
    e.repo == repo && e.thread_id == repo + "#"@ + decimal::signed_decimal(number)
}

/// Whether an event tells what an item says that was opened: its id, its title, its link,
/// its time, its number and its state.
pub open spec fn tells_opened(e: EventModel, repo: Seq<char>, item: JsonModel) -> bool {
    &&& fields::has_text(item, "id"@, e.id)
    &&& fields::has_text(item, "title"@, e.title)
    &&& fields::has_text(item, "url"@, e.url)
    &&& fields::has_text(item, "createdAt"@, e.occurred_at)
    &&& fields::text_or_nothing(item, "state"@, e.status)
    &&& e.thread_title == e.title
    &&& e.thread_url == e.url
    &&& exists|n: int| #[trigger]
        fields::integer_or(item, "number"@, 0, n) && in_thread(e, repo, n)
}

/// Whether an event tells what a review says: its id, its link, its time and its state, and
/// the title, the link and the number of its pull request.
pub open spec fn tells_review(e: EventModel, repo: Seq<char>, review: JsonModel) -> bool {
    &&& fields::has_text(review, "id"@, e.id)
    &&& fields::has_text(review, "url"@, e.url)
    &&& fields::has_text(review, "createdAt"@, e.occurred_at)
    &&& fields::text_or_nothing(review, "state"@, e.status)
    &&& e.title == "Reviewed "@ + e.thread_title
    &&& exists|pr: JsonModel, n: int|
        json::holds(review, "pullRequest"@, pr) && fields::has_text(pr, "title"@, e.thread_title)
            && fields::has_text(pr, "url"@, e.thread_url) && #[trigger] fields::integer_or(
            pr,
            "number"@,
            0,
            n,
        ) && in_thread(e, repo, n)
}

/// Whether an event tells how many commits a user made to a repository on a day.
pub open spec fn tells_commits(
    e: EventModel,
    repo: Seq<char>,
    node: JsonModel,
    username: Seq<char>,
) -> bool {
    let day = calendar::day_part(e.occurred_at);
    &&& e.repo == repo
    &&& fields::has_text(node, "occurredAt"@, e.occurred_at)
    &&& e.thread_id == repo + ":commits:"@ + e.occurred_at
    &&& e.thread_title == e.title
    &&& e.thread_url == e.url
    &&& e.url == "https://github.com/"@ + repo + "/commits?author="@ + username + "&since="@ + day
        + "T00:00:00Z&until="@ + day + "T23:59:59Z"@
    &&& e.status.len() == 0
    &&& exists|n: int| #[trigger]
        fields::integer_or(node, "commitCount"@, 1, n) && e.id == repo + ":commit:"@
            + e.occurred_at + ":"@ + decimal::signed_decimal(n) && e.title
            == decimal::signed_decimal(n) + (if n == 1 {
            " commit to "@
        } else {
            " commits to "@
        }) + repo
}

/// An item that was opened gives the event that tells of it, and no other.
proof fn lemma_opened_event(kind: Seq<char>, repo: Seq<char>, item: JsonModel, e: EventModel)
    ensures
        opened_event(kind, repo, item) == Some(e) <==> e.event_type == kind && tells_opened(
            e,
            repo,
            item,
        ),
{
    let n = fields::integer_in(item, "number"@, 0);
    fields::lemma_text_field(item, "id"@, e.id);
    fields::lemma_text_field(item, "title"@, e.title);
    fields::lemma_text_field(item, "url"@, e.url);
    fields::lemma_text_field(item, "createdAt"@, e.occurred_at);
    fields::lemma_text_or_nothing(item, "state"@, e.status);
    fields::lemma_integer_or(item, "number"@, 0, n);
    if tells_opened(e, repo, item) && e.event_type == kind {
        let m = choose|m: int| #[trigger]
            fields::integer_or(item, "number"@, 0, m) && in_thread(e, repo, m);
        fields::lemma_integer_or(item, "number"@, 0, m);
        assert(opened_event(kind, repo, item)->0 =~= e);
    }
}

/// A review gives the event that tells of it, and no other.
proof fn lemma_review_event(kind: Seq<char>, repo: Seq<char>, review: JsonModel, e: EventModel)
    ensures
        review_event(kind, repo, review) == Some(e) <==> e.event_type == kind && tells_review(
            e,
            repo,
            review,
        ),
{
    fields::lemma_text_field(review, "id"@, e.id);
    fields::lemma_text_field(review, "url"@, e.url);
    fields::lemma_text_field(review, "createdAt"@, e.occurred_at);
    fields::lemma_text_or_nothing(review, "state"@, e.status);
    if let Some(pr) = json::field(review, "pullRequest"@) {
        let n = fields::integer_in(pr, "number"@, 0);
        fields::lemma_text_field(pr, "title"@, e.thread_title);
        fields::lemma_text_field(pr, "url"@, e.thread_url);
        fields::lemma_integer_or(pr, "number"@, 0, n);
        assert(json::holds(review, "pullRequest"@, pr));
        if tells_review(e, repo, review) && e.event_type == kind {
            let (p, m) = choose|p: JsonModel, m: int|
                json::holds(review, "pullRequest"@, p) && fields::has_text(
                    p,
                    "title"@,
                    e.thread_title,
                ) && fields::has_text(p, "url"@, e.thread_url) && #[trigger] fields::integer_or(
                    p,
                    "number"@,
                    0,
                    m,
                ) && in_thread(e, repo, m);
            fields::lemma_integer_or(pr, "number"@, 0, m);
            assert(review_event(kind, repo, review)->0 =~= e);
        }
    }
}

/// The commits of a day give the event that tells of them, and no other.
proof fn lemma_commit_event(
    kind: Seq<char>,
    repo: Seq<char>,
    node: JsonModel,
    username: Seq<char>,
    e: EventModel,
)
    ensures
        commit_event(kind, repo, node, username) == Some(e) <==> e.event_type == kind
            && tells_commits(e, repo, node, username),
{
    let n = fields::integer_in(node, "commitCount"@, 1);
    fields::lemma_text_field(node, "occurredAt"@, e.occurred_at);
    fields::lemma_integer_or(node, "commitCount"@, 1, n);
    reveal_strlit("");
    reveal_strlit(" commit");
    reveal_strlit("s");
    reveal_strlit(" to ");
    reveal_strlit(" commit to ");
    reveal_strlit(" commits to ");
    let count = decimal::signed_decimal(n);
    assert(commit_title(n, repo) =~= count + (if n == 1 {
        " commit to "@
    } else {
        " commits to "@
    }) + repo);
    if commit_event(kind, repo, node, username) is Some {
        assert(commit_event(kind, repo, node, username)->0.status.len() == 0);
    }
    if tells_commits(e, repo, node, username) && e.event_type == kind {
        let m = choose|m: int| #[trigger]
            fields::integer_or(node, "commitCount"@, 1, m) && e.id == repo + ":commit:"@
                + e.occurred_at + ":"@ + decimal::signed_decimal(m) && e.title
                == decimal::signed_decimal(m) + (if m == 1 {
                " commit to "@
            } else {
                " commits to "@
            }) + repo;
        fields::lemma_integer_or(node, "commitCount"@, 1, m);
        assert(e.status =~= ""@);
        assert(commit_event(kind, repo, node, username)->0 =~= e);
    }
}

/// A contribution of each kind gives the event that tells of what it holds, and no other.
pub proof fn lemma_node_event(
    repo: Seq<char>,
    node: JsonModel,
    username: Seq<char>,
    e: EventModel,
)
    ensures
        node_event("pull_request"@, repo, node, username) == Some(e) <==> e.event_type
            == "pull_request"@ && exists|item: JsonModel|
            json::holds(node, "pullRequest"@, item) && #[trigger] tells_opened(e, repo, item),
        node_event("issue"@, repo, node, username) == Some(e) <==> e.event_type == "issue"@
            && exists|item: JsonModel|
            json::holds(node, "issue"@, item) && #[trigger] tells_opened(e, repo, item),
        node_event("commit"@, repo, node, username) == Some(e) <==> e.event_type == "commit"@
            && tells_commits(e, repo, node, username),
        node_event("review"@, repo, node, username) == Some(e) <==> e.event_type == "review"@
            && exists|item: JsonModel|
            json::holds(node, "pullRequestReview"@, item) && #[trigger] tells_review(e, repo, item),
{
    reveal_strlit("pull_request");
    reveal_strlit("issue");
    reveal_strlit("commit");
    reveal_strlit("review");
    assert("issue"@.len() == 5 && "commit"@.len() == 6 && "review"@.len() == 6
        && "pull_request"@.len() == 12);
    assert("commit"@[0] != "review"@[0]);
    lemma_commit_event("commit"@, repo, node, username, e);
    if let Some(item) = json::field(node, "pullRequest"@) {
        lemma_opened_event("pull_request"@, repo, item, e);
        assert(json::holds(node, "pullRequest"@, item));
    }
    if let Some(item) = json::field(node, "issue"@) {
        lemma_opened_event("issue"@, repo, item, e);
        assert(json::holds(node, "issue"@, item));
    }
    if let Some(item) = json::field(node, "pullRequestReview"@) {
        lemma_review_event("review"@, repo, item, e);
        assert(json::holds(node, "pullRequestReview"@, item));
    }
}

/// Whether a reply holds a report.
pub open spec fn reported(graph: JsonModel, report: JsonModel) -> bool {
    exists|data: JsonModel, user: JsonModel|
        json::holds(graph, "data"@, data) && #[trigger] json::holds(data, "user"@, user)
            && #[trigger] json::holds(user, "contributionsCollection"@, report)
}

/// Whether a part of a report lists a group.
pub open spec fn lists(report: JsonModel, part: Seq<char>, group: JsonModel) -> bool {
    exists|groups: Seq<JsonModel>| #[trigger]
        json::holds(report, part, JsonModel::Array(groups)) && groups.contains(group)
}

/// Whether a group is of a repository.
pub open spec fn is_of(group: JsonModel, repo: Seq<char>) -> bool {
    exists|r: JsonModel|
        json::holds(group, "repository"@, r) && #[trigger] fields::has_text(
            r,
            "nameWithOwner"@,
            repo,
        )
}

/// Whether a group holds a contribution.
pub open spec fn contains_node(group: JsonModel, node: JsonModel) -> bool {
    exists|c: JsonModel, nodes: Seq<JsonModel>|
        json::holds(group, "contributions"@, c) && #[trigger] json::holds(
            c,
            "nodes"@,
            JsonModel::Array(nodes),
        ) && nodes.contains(node)
}

/// Whether an event tells of a contribution to its repository in a group of one part of a
/// report.
pub open spec fn tells_of(
    e: EventModel,
    report: JsonModel,
    username: Seq<char>,
    group: JsonModel,
    node: JsonModel,
) -> bool {
    &&& is_of(group, e.repo)
    &&& contains_node(group, node)
    &&& {
        ||| lists(report, "pullRequestContributionsByRepository"@, group) && e.event_type
            == "pull_request"@ && exists|item: JsonModel|
            json::holds(node, "pullRequest"@, item) && #[trigger] tells_opened(e, e.repo, item)
        ||| lists(report, "issueContributionsByRepository"@, group) && e.event_type == "issue"@
            && exists|item: JsonModel|
            json::holds(node, "issue"@, item) && #[trigger] tells_opened(e, e.repo, item)
        ||| lists(report, "commitContributionsByRepository"@, group) && e.event_type == "commit"@
            && tells_commits(e, e.repo, node, username)
        ||| lists(report, "pullRequestReviewContributionsByRepository"@, group) && e.event_type
            == "review"@ && exists|item: JsonModel|
            json::holds(node, "pullRequestReview"@, item) && #[trigger] tells_review(
                e,
                e.repo,
                item,
            )
    }
}

/// What list a part of a report gives.
proof fn lemma_lists(report: JsonModel, part: Seq<char>, group: JsonModel)
    ensures
        fields::list_field(report, part).contains(group) == lists(report, part, group),
{
    if let Some(JsonModel::Array(groups)) = json::field(report, part) {
        assert(json::holds(report, part, JsonModel::Array(groups)));
        if lists(report, part, group) {
            let other = choose|other: Seq<JsonModel>| #[trigger]
                json::holds(report, part, JsonModel::Array(other)) && other.contains(group);
            assert(other == groups);
        }
    } else {
        assert forall|groups: Seq<JsonModel>| !json::holds(
            report,
            part,
            JsonModel::Array(groups),
        ) by {}
    }
}

/// What repository and what contributions a group has.
proof fn lemma_group(group: JsonModel, repo: Seq<char>, node: JsonModel)
    ensures
        repo.len() > 0 ==> (group_repo(group) == repo <==> is_of(group, repo)),
        fields::list_at(group, seq!["contributions"@, "nodes"@]).contains(node) == contains_node(
            group,
            node,
        ),
{
    json::lemma_two_keys(group, "repository"@, "nameWithOwner"@, JsonModel::String(repo));
    let path = seq!["contributions"@, "nodes"@];
    if is_of(group, repo) {
        let r = choose|r: JsonModel|
            json::holds(group, "repository"@, r) && #[trigger] fields::has_text(
                r,
                "nameWithOwner"@,
                repo,
            );
        assert(json::holds(r, "nameWithOwner"@, JsonModel::String(repo)));
    }
    if group_repo(group) == repo && repo.len() > 0 {
        let r = choose|r: JsonModel|
            json::holds(group, "repository"@, r) && #[trigger] json::holds(
                r,
                "nameWithOwner"@,
                JsonModel::String(repo),
            );
        assert(fields::has_text(r, "nameWithOwner"@, repo));
    }
    if let Some(JsonModel::Array(nodes)) = json::at_path(group, path) {
        json::lemma_two_keys(group, "contributions"@, "nodes"@, JsonModel::Array(nodes));
    }
    if contains_node(group, node) {
        let (c, nodes) = choose|c: JsonModel, nodes: Seq<JsonModel>|
            json::holds(group, "contributions"@, c) && #[trigger] json::holds(
                c,
                "nodes"@,
                JsonModel::Array(nodes),
            ) && nodes.contains(node);
        json::lemma_two_keys(group, "contributions"@, "nodes"@, JsonModel::Array(nodes));
    }
}

/// Contributions behind others give their events behind those of the others.
pub proof fn lemma_node_events_concat(
    kind: Seq<char>,
    repo: Seq<char>,
    a: Seq<JsonModel>,
    b: Seq<JsonModel>,
    username: Seq<char>,
)
    ensures
        node_events(kind, repo, a + b, username) == node_events(kind, repo, a, username)
            + node_events(kind, repo, b, username),
    decreases b.len(),
{
    if b.len() == 0 {
        assert(a + b =~= a);
        assert(node_events(kind, repo, a, username) + node_events(kind, repo, b, username)
            =~= node_events(kind, repo, a, username));
    } else {
        lemma_node_events_concat(kind, repo, a, b.drop_last(), username);
        assert((a + b).drop_last() =~= a + b.drop_last());
        assert(node_events(kind, repo, a + b, username) =~= node_events(kind, repo, a, username)
            + node_events(kind, repo, b, username));
    }
}

/// Contributions give as many events as there are among them that give one, and exactly the
/// events that they give.
proof fn lemma_every_node(
    kind: Seq<char>,
    repo: Seq<char>,
    nodes: Seq<JsonModel>,
    username: Seq<char>,
    e: EventModel,
)
    ensures
        node_events(kind, repo, nodes, username).len() == nodes.filter(
            |node: JsonModel| node_event(kind, repo, node, username) is Some,
        ).len(),
        node_events(kind, repo, nodes, username).contains(e) <==> exists|node: JsonModel|
            nodes.contains(node) && #[trigger] node_event(kind, repo, node, username) == Some(e),
    decreases nodes.len(),
{
    reveal(Seq::filter);
    let out = node_events(kind, repo, nodes, username);
    if nodes.len() > 0 {
        let front = nodes.drop_last();
        let before = node_events(kind, repo, front, username);
        let last = nodes.last();
        lemma_every_node(kind, repo, front, username, e);
        if out.contains(e) {
            let k = choose|k: int| 0 <= k < out.len() && out[k] == e;
            if k < before.len() {
                assert(before[k] == e);
                let node = choose|node: JsonModel|
                    front.contains(node) && #[trigger] node_event(kind, repo, node, username)
                        == Some(e);
                let i = choose|i: int| 0 <= i < front.len() && front[i] == node;
                assert(nodes[i] == node);
            } else {
                assert(nodes[nodes.len() - 1] == last);
                assert(node_event(kind, repo, last, username) == Some(e));
            }
        }
        if exists|node: JsonModel|
            nodes.contains(node) && #[trigger] node_event(kind, repo, node, username) == Some(e) {
            let node = choose|node: JsonModel|
                nodes.contains(node) && #[trigger] node_event(kind, repo, node, username) == Some(
                    e,
                );
            let i = choose|i: int| 0 <= i < nodes.len() && nodes[i] == node;
            if i < front.len() {
                assert(front[i] == node);
                assert(before.contains(e));
                let k = choose|k: int| 0 <= k < before.len() && before[k] == e;
                assert(out[k] == e);
            } else {
                assert(out[before.len() as int] == e);
            }
        }
    }
}

/// Groups behind others give their events behind those of the others.
pub proof fn lemma_groups_events_concat(
    c: ConfigModel,
    kind: Seq<char>,
    a: Seq<JsonModel>,
    b: Seq<JsonModel>,
)
    ensures
        groups_events(c, kind, a + b) == groups_events(c, kind, a) + groups_events(c, kind, b),
    decreases b.len(),
{
    if b.len() == 0 {
        assert(a + b =~= a);
        assert(groups_events(c, kind, a) + groups_events(c, kind, b) =~= groups_events(
            c,
            kind,
            a,
        ));
    } else {
        lemma_groups_events_concat(c, kind, a, b.drop_last());
        assert((a + b).drop_last() =~= a + b.drop_last());
        assert(groups_events(c, kind, a + b) =~= groups_events(c, kind, a) + groups_events(
            c,
            kind,
            b,
        ));
    }
}

/// Groups give exactly the events of the contributions to repositories that the site takes.
proof fn lemma_every_group(
    c: ConfigModel,
    kind: Seq<char>,
    groups: Seq<JsonModel>,
    e: EventModel,
)
    ensures
        groups_events(c, kind, groups).contains(e) <==> exists|group: JsonModel, node: JsonModel|
            groups.contains(group) && e.repo.len() > 0 && rules::allowed(c, e.repo)
                && #[trigger] is_of(group, e.repo) && #[trigger] contains_node(group, node)
                && node_event(kind, e.repo, node, c.username) == Some(e),
    decreases groups.len(),
{
    let out = groups_events(c, kind, groups);
    if groups.len() > 0 {
        let front = groups.drop_last();
        let before = groups_events(c, kind, front);
        let group = groups.last();
        let last = group_events(c, kind, group);
        let repo = group_repo(group);
        let nodes = fields::list_at(group, seq!["contributions"@, "nodes"@]);
        lemma_every_group(c, kind, front, e);
        lemma_every_node(kind, repo, nodes, c.username, e);
        lemma_node_events(kind, repo, nodes, c.username);
        assert(groups[groups.len() - 1] == group);
        if out.contains(e) {
            let k = choose|k: int| 0 <= k < out.len() && out[k] == e;
            if k < before.len() {
                assert(before[k] == e);
                let (g, node) = choose|g: JsonModel, node: JsonModel|
                    front.contains(g) && e.repo.len() > 0 && rules::allowed(c, e.repo)
                        && #[trigger] is_of(g, e.repo) && #[trigger] contains_node(g, node)
                        && node_event(kind, e.repo, node, c.username) == Some(e);
                let i = choose|i: int| 0 <= i < front.len() && front[i] == g;
                assert(groups[i] == g);
                assert(groups.contains(g));
            } else {
                assert(last[k - before.len()] == e);
                assert(e.repo == repo);
                let node = choose|node: JsonModel|
                    nodes.contains(node) && #[trigger] node_event(kind, repo, node, c.username)
                        == Some(e);
                lemma_group(group, repo, node);
                assert(is_of(group, e.repo) && contains_node(group, node));
            }
        }
        if exists|g: JsonModel, node: JsonModel|
            groups.contains(g) && e.repo.len() > 0 && rules::allowed(c, e.repo) && #[trigger] is_of(
                g,
                e.repo,
            ) && #[trigger] contains_node(g, node) && node_event(kind, e.repo, node, c.username)
                == Some(e) {
            let (g, node) = choose|g: JsonModel, node: JsonModel|
                groups.contains(g) && e.repo.len() > 0 && rules::allowed(c, e.repo)
                    && #[trigger] is_of(g, e.repo) && #[trigger] contains_node(g, node)
                    && node_event(kind, e.repo, node, c.username) == Some(e);
            let i = choose|i: int| 0 <= i < groups.len() && groups[i] == g;
            if i < front.len() {
                assert(front[i] == g);
                assert(front.contains(g));
                assert(before.contains(e));
                let k = choose|k: int| 0 <= k < before.len() && before[k] == e;
                assert(out[k] == e);
            } else {
                lemma_group(group, e.repo, node);
                assert(last.contains(e));
                let k = choose|k: int| 0 <= k < last.len() && last[k] == e;
                assert(out[before.len() + k] == e);
            }
        }
    }
}

/// A report gives the events of its pull requests, then those of its issues, then those of
/// its commits and then those of its reviews.
pub proof fn lemma_parts_in_turn(c: ConfigModel, graph: JsonModel, report: JsonModel)
    requires
        reported(graph, report),
    ensures
        contributions(c, graph) is Ok,
        contributions(c, graph)->Ok_0.0 == groups_events(
            c,
            "pull_request"@,
            fields::list_field(report, "pullRequestContributionsByRepository"@),
        ) + groups_events(
            c,
            "issue"@,
            fields::list_field(report, "issueContributionsByRepository"@),
        ) + groups_events(
            c,
            "commit"@,
            fields::list_field(report, "commitContributionsByRepository"@),
        ) + groups_events(
            c,
            "review"@,
            fields::list_field(report, "pullRequestReviewContributionsByRepository"@),
        ),
{
    json::lemma_three_keys(graph, "data"@, "user"@, "contributionsCollection"@, report);
    reveal_with_fuel(part_events, 5);
    let a = groups_events(
        c,
        "pull_request"@,
        fields::list_field(report, "pullRequestContributionsByRepository"@),
    );
    assert(Seq::<EventModel>::empty() + a =~= a);
}

/// A report gives exactly the events that tell of its pull requests, issues, commits and
/// reviews in repositories that the site takes.
pub proof fn lemma_every_contribution(
    c: ConfigModel,
    graph: JsonModel,
    report: JsonModel,
    e: EventModel,
)
    requires
        reported(graph, report),
    ensures
        contributions(c, graph) is Ok,
        contributions(c, graph)->Ok_0.0.contains(e) <==> e.repo.len() > 0 && rules::allowed(
            c,
            e.repo,
        ) && exists|group: JsonModel, node: JsonModel|
            #![trigger is_of(group, e.repo), contains_node(group, node)]
            tells_of(e, report, c.username, group, node),
{
    let keys = seq![
        "pullRequestContributionsByRepository"@,
        "issueContributionsByRepository"@,
        "commitContributionsByRepository"@,
        "pullRequestReviewContributionsByRepository"@,
    ];
    let kinds = seq!["pull_request"@, "issue"@, "commit"@, "review"@];
    let p0 = groups_events(c, kinds[0], fields::list_field(report, keys[0]));
    let p1 = groups_events(c, kinds[1], fields::list_field(report, keys[1]));
    let p2 = groups_events(c, kinds[2], fields::list_field(report, keys[2]));
    let p3 = groups_events(c, kinds[3], fields::list_field(report, keys[3]));
    lemma_parts_in_turn(c, graph, report);
    let out = contributions(c, graph)->Ok_0.0;
    assert(out == p0 + p1 + p2 + p3);
    lemma_held(p0, p1, e);
    lemma_held(p0 + p1, p2, e);
    lemma_held(p0 + p1 + p2, p3, e);
    lemma_part_told(c, report, keys[0], kinds[0], e);
    lemma_part_told(c, report, keys[1], kinds[1], e);
    lemma_part_told(c, report, keys[2], kinds[2], e);
    lemma_part_told(c, report, keys[3], kinds[3], e);
    if out.contains(e) {
        let j: int = if p0.contains(e) {
            0
        } else if p1.contains(e) {
            1
        } else if p2.contains(e) {
            2
        } else {
            3
        };
        assert(part_told(c, report, keys[j], kinds[j], e));
        let (group, node) = choose|group: JsonModel, node: JsonModel|
            lists(report, keys[j], group) && #[trigger] is_of(group, e.repo)
                && #[trigger] contains_node(group, node) && node_event(
                kinds[j],
                e.repo,
                node,
                c.username,
            ) == Some(e);
        lemma_node_event(e.repo, node, c.username, e);
        assert(tells_of(e, report, c.username, group, node));
    }
    if e.repo.len() > 0 && rules::allowed(c, e.repo) && exists|group: JsonModel, node: JsonModel|
        #![trigger is_of(group, e.repo), contains_node(group, node)]
        tells_of(e, report, c.username, group, node) {
        let (group, node) = choose|group: JsonModel, node: JsonModel|
            #![trigger is_of(group, e.repo), contains_node(group, node)]
            tells_of(e, report, c.username, group, node);
        lemma_node_event(e.repo, node, c.username, e);
        assert(is_of(group, e.repo) && contains_node(group, node));
        assert(part_told(c, report, keys[0], kinds[0], e) || part_told(
            c,
            report,
            keys[1],
            kinds[1],
            e,
        ) || part_told(c, report, keys[2], kinds[2], e) || part_told(
            c,
            report,
            keys[3],
            kinds[3],
            e,
        ));
    }
}

/// Whether a part of a report tells of an event of a kind.
spec fn part_told(
    c: ConfigModel,
    report: JsonModel,
    part: Seq<char>,
    kind: Seq<char>,
    e: EventModel,
) -> bool {
    e.repo.len() > 0 && rules::allowed(c, e.repo) && exists|group: JsonModel, node: JsonModel|
        lists(report, part, group) && #[trigger] is_of(group, e.repo) && #[trigger] contains_node(
            group,
            node,
        ) && node_event(kind, e.repo, node, c.username) == Some(e)
}

proof fn lemma_part_told(
    c: ConfigModel,
    report: JsonModel,
    part: Seq<char>,
    kind: Seq<char>,
    e: EventModel,
)
    ensures
        groups_events(c, kind, fields::list_field(report, part)).contains(e) == part_told(
            c,
            report,
            part,
            kind,
            e,
        ),
{
    let groups = fields::list_field(report, part);
    lemma_every_group(c, kind, groups, e);
    if groups_events(c, kind, groups).contains(e) {
        let (group, node) = choose|group: JsonModel, node: JsonModel|
            groups.contains(group) && e.repo.len() > 0 && rules::allowed(c, e.repo)
                && #[trigger] is_of(group, e.repo) && #[trigger] contains_node(group, node)
                && node_event(kind, e.repo, node, c.username) == Some(e);
        lemma_lists(report, part, group);
        assert(lists(report, part, group) && is_of(group, e.repo) && contains_node(group, node));
    }
    if part_told(c, report, part, kind, e) {
        let (group, node) = choose|group: JsonModel, node: JsonModel|
            lists(report, part, group) && #[trigger] is_of(group, e.repo)
                && #[trigger] contains_node(group, node) && node_event(
                kind,
                e.repo,
                node,
                c.username,
            ) == Some(e);
        lemma_lists(report, part, group);
        assert(groups.contains(group) && is_of(group, e.repo) && contains_node(group, node));
    }
}

/// Events of two lists are those of one or the other.
proof fn lemma_held(a: Seq<EventModel>, b: Seq<EventModel>, e: EventModel)
    ensures
        (a + b).contains(e) == (a.contains(e) || b.contains(e)),
{
    if a.contains(e) {
        let i = choose|i: int| 0 <= i < a.len() && a[i] == e;
        assert((a + b)[i] == e);
    }
    if b.contains(e) {
        let i = choose|i: int| 0 <= i < b.len() && b[i] == e;
        assert((a + b)[a.len() + i] == e);
    }
}

// ---------------------------------------------------------------------------
// Laws of the keywords
// ---------------------------------------------------------------------------

/// Whether a repository has a topic.
pub open spec fn has_topic(repo: JsonModel, name: Seq<char>) -> bool {
    exists|topics: JsonModel, nodes: Seq<JsonModel>, node: JsonModel, topic: JsonModel|
        #![trigger json::holds(topics, "nodes"@, JsonModel::Array(nodes)), json::holds(node, "topic"@, topic)]
        json::holds(repo, "repositoryTopics"@, topics) && json::holds(
            topics,
            "nodes"@,
            JsonModel::Array(nodes),
        ) && nodes.contains(node) && json::holds(node, "topic"@, topic) && fields::has_text(
            topic,
            "name"@,
            name,
        )
}

/// The topics behind others give their words behind those of the others.
pub proof fn lemma_topic_words_concat(a: Seq<JsonModel>, b: Seq<JsonModel>)
    ensures
        topic_words(a + b) == topic_words(a) + topic_words(b),
    decreases b.len(),
{
    if b.len() == 0 {
        assert(a + b =~= a);
        assert(topic_words(a) + topic_words(b) =~= topic_words(a));
    } else {
        lemma_topic_words_concat(a, b.drop_last());
        assert((a + b).drop_last() =~= a + b.drop_last());
        assert(topic_words(a + b) =~= topic_words(a) + topic_words(b));
    }
}

/// The words by which a repository is known have its name, its description and each of its
/// topics.
pub proof fn lemma_repo_words(repo: JsonModel, w: Seq<char>)
    requires
        fields::has_text(repo, "nameWithOwner"@, w) || fields::has_text(repo, "description"@, w)
            || has_topic(repo, w),
    ensures
        text::has_text(repo_words(repo), w),
{
    let a = word(json::field(repo, "nameWithOwner"@));
    let b = word(json::field(repo, "description"@));
    let list = fields::list_at(repo, seq!["repositoryTopics"@, "nodes"@]);
    let d = topic_words(list);
    let blank = seq![' '];
    text::lemma_has_itself(w);
    text::lemma_has_text_in(seq![], w, blank, w);
    if fields::has_text(repo, "nameWithOwner"@, w) {
        assert(a == w + blank);
        text::lemma_has_text_in(seq![], a, b, w);
        text::lemma_has_text_in(seq![], a + b, d, w);
    } else if fields::has_text(repo, "description"@, w) {
        assert(b == w + blank);
        text::lemma_has_text_in(a, b, d, w);
    } else {
        let (topics, nodes, node, topic) = choose|
            topics: JsonModel,
            nodes: Seq<JsonModel>,
            node: JsonModel,
            topic: JsonModel,
        |
            #![trigger json::holds(topics, "nodes"@, JsonModel::Array(nodes)), json::holds(node, "topic"@, topic)]
            json::holds(repo, "repositoryTopics"@, topics) && json::holds(
                topics,
                "nodes"@,
                JsonModel::Array(nodes),
            ) && nodes.contains(node) && json::holds(node, "topic"@, topic) && fields::has_text(
                topic,
                "name"@,
                w,
            );
        json::lemma_two_keys(repo, "repositoryTopics"@, "nodes"@, JsonModel::Array(nodes));
        assert(list == nodes);
        json::lemma_two_keys(node, "topic"@, "name"@, JsonModel::String(w));
        assert(json::holds(topic, "name"@, JsonModel::String(w)));
        let i = choose|i: int| 0 <= i < nodes.len() && nodes[i] == node;
        let before = nodes.take(i);
        let after = nodes.skip(i + 1);
        reveal_with_fuel(topic_words, 2);
        assert(seq![node].drop_last() =~= seq![]);
        assert(topic_words(seq![node]) =~= w + blank);
        lemma_topic_words_concat(before, seq![node]);
        lemma_topic_words_concat(before + seq![node], after);
        assert(before + seq![node] + after =~= nodes);
        text::lemma_has_text_in(topic_words(before), w + blank, topic_words(after), w);
        text::lemma_has_text_in(a + b, d, seq![], w);
    }
}

/// Lower case leaves a text inside another inside it.
proof fn lemma_lowered_has(hay: Seq<char>, w: Seq<char>)
    requires
        text::has_text(hay, w),
    ensures
        text::has_text(text::ascii_lowered(hay), text::ascii_lowered(w)),
{
    text::lemma_has_text(hay, w);
    let (a, b) = choose|a: Seq<char>, b: Seq<char>| hay == #[trigger] (a + w + b);
    let (x, y, z) = (text::ascii_lowered(a), text::ascii_lowered(w), text::ascii_lowered(b));
    assert(text::ascii_lowered(hay) =~= x + y + z);
    text::lemma_has_text(text::ascii_lowered(hay), y);
}

/// A repository matches where its name, its description or one of its topics has one of the
/// keywords, whatever the case of the letters, and all of them are ASCII.
pub proof fn lemma_keyword_matches(
    repo: JsonModel,
    w: Seq<char>,
    keywords: Seq<Seq<char>>,
    i: int,
)
    requires
        fields::has_text(repo, "nameWithOwner"@, w) || fields::has_text(repo, "description"@, w)
            || has_topic(repo, w),
        0 <= i < keywords.len(),
        text::all_ascii(repo_words(repo)),
        text::all_ascii(keywords[i]),
        text::has_text(text::ascii_lowered(w), text::ascii_lowered(keywords[i])),
    ensures
        matches_keywords(Some(repo), keywords),
{
    let hay = lower_case(repo_words(repo));
    let low = keywords.map_values(|k: Seq<char>| lower_case(k));
    lemma_repo_words(repo, w);
    lemma_lowered_has(repo_words(repo), w);
    let needle = text::ascii_lowered(keywords[i]);
    text::lemma_has_text(hay, text::ascii_lowered(w));
    let (a, b) = choose|a: Seq<char>, b: Seq<char>|
        hay == #[trigger] (a + text::ascii_lowered(w) + b);
    text::lemma_has_text_in(a, text::ascii_lowered(w), b, needle);
    assert(low[i] == needle);
    assert(text::has_text(hay, low[i]));
}

/// Where no keyword is in the words of a repository, it does not match.
pub proof fn lemma_keyword_matches_not(repo: JsonModel, keywords: Seq<Seq<char>>)
    requires
        text::all_ascii(repo_words(repo)),
        forall|i: int|
            0 <= i < keywords.len() ==> text::all_ascii(#[trigger] keywords[i])
                && !text::has_text(
                text::ascii_lowered(repo_words(repo)),
                text::ascii_lowered(keywords[i]),
            ),
    ensures
        !matches_keywords(Some(repo), keywords),
{
    let low = keywords.map_values(|k: Seq<char>| lower_case(k));
    assert forall|i: int| 0 <= i < low.len() implies !text::has_text(
        lower_case(repo_words(repo)),
        #[trigger] low[i],
    ) by {
        assert(text::all_ascii(keywords[i]));
    }
}

/// The candidates of a report are exactly the repositories that one of its four parts lists,
/// that a keyword matches, and that the site neither takes nor excludes.
pub proof fn lemma_every_candidate(
    c: ConfigModel,
    graph: JsonModel,
    report: JsonModel,
    name: Seq<char>,
)
    requires
        reported(graph, report),
    ensures
        contributions(c, graph) is Ok,
        contributions(c, graph)->Ok_0.1.contains(name) <==> name.len() > 0 && !c.exclude.contains(
            name,
        ) && !rules::allowed(c, name) && exists|group: JsonModel, repo: JsonModel|
            (lists(report, "pullRequestContributionsByRepository"@, group) || lists(
                report,
                "issueContributionsByRepository"@,
                group,
            ) || lists(report, "commitContributionsByRepository"@, group) || lists(
                report,
                "pullRequestReviewContributionsByRepository"@,
                group,
            )) && #[trigger] json::holds(group, "repository"@, repo) && fields::has_text(
                repo,
                "nameWithOwner"@,
                name,
            ) && matches_keywords(Some(repo), c.keywords),
{
    json::lemma_three_keys(graph, "data"@, "user"@, "contributionsCollection"@, report);
    lemma_contributions(c, graph);
    let keys = seq![
        "pullRequestContributionsByRepository"@,
        "issueContributionsByRepository"@,
        "commitContributionsByRepository"@,
        "pullRequestReviewContributionsByRepository"@,
    ];
    assert(contributions(c, graph)->Ok_0.1.contains(name) == (open_question(c, name)
        && parts_match(c, report, 4, name)));
    if open_question(c, name) && parts_match(c, report, 4, name) {
        let k = choose|k: int|
            0 <= k < 4 && groups_match(
                c,
                fields::list_field(report, (#[trigger] parts()[k]).0),
                name,
            );
        assert(parts()[k].0 == keys[k]);
        let groups = fields::list_field(report, keys[k]);
        let i = choose|i: int| 0 <= i < groups.len() && group_matches(
            c,
            #[trigger] groups[i],
            name,
        );
        let group = groups[i];
        lemma_lists(report, keys[k], group);
        lemma_group(group, name, group);
        let r = choose|r: JsonModel|
            json::holds(group, "repository"@, r) && #[trigger] fields::has_text(
                r,
                "nameWithOwner"@,
                name,
            );
        assert(json::field(group, "repository"@) == Some(r));
    }
    if name.len() > 0 && exists|group: JsonModel, repo: JsonModel|
        (lists(report, keys[0], group) || lists(report, keys[1], group) || lists(
            report,
            keys[2],
            group,
        ) || lists(report, keys[3], group)) && #[trigger] json::holds(group, "repository"@, repo)
            && fields::has_text(repo, "nameWithOwner"@, name) && matches_keywords(
            Some(repo),
            c.keywords,
        ) {
        let (group, repo) = choose|group: JsonModel, repo: JsonModel|
            (lists(report, keys[0], group) || lists(report, keys[1], group) || lists(
                report,
                keys[2],
                group,
            ) || lists(report, keys[3], group)) && #[trigger] json::holds(
                group,
                "repository"@,
                repo,
            ) && fields::has_text(repo, "nameWithOwner"@, name) && matches_keywords(
                Some(repo),
                c.keywords,
            );
        let k: int = if lists(report, keys[0], group) {
            0
        } else if lists(report, keys[1], group) {
            1
        } else if lists(report, keys[2], group) {
            2
        } else {
            3
        };
        let groups = fields::list_field(report, keys[k]);
        lemma_lists(report, keys[k], group);
        assert(is_of(group, name));
        lemma_group(group, name, group);
        let i = choose|i: int| 0 <= i < groups.len() && groups[i] == group;
        assert(group_matches(c, groups[i], name));
        assert(parts()[k].0 == keys[k]);
        assert(groups_match(c, fields::list_field(report, parts()[k].0), name));
    }
}

} // verus!
