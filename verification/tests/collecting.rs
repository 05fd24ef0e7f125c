use btc_foss::calendar::{date_days, date_from_days};
use btc_foss::collect::{absorb, collect_files, finish_feed, start_feed};
use btc_foss::command::collect_options;
use btc_foss::collector::{
    fetch_comment_events, fetch_comment_events_for_range, Collector, RangePlan,
};
use btc_foss::config::Config;
use btc_foss::event::{is_newer, merge_events, sort_events, Event};
use btc_foss::feed::Feed;
use btc_foss::json::parse_json;
use btc_foss::names::NameSet;
use btc_foss::request::{url_encode, Channel, Request};
use btc_foss::search::CommentSearchPage;
use btc_foss::session::{collect_cmd, Session};

fn set(names: &[&str]) -> NameSet {
    NameSet::from_vec(names.iter().map(|n| n.to_string()).collect())
}

fn config() -> Config {
    Config {
        username: "me".into(),
        allowlist_orgs: set(&["b"]),
        allowlist: set(&["a/x", "b/y"]),
        exclude: set(&["b/out"]),
        ..Config::default()
    }
}

fn event(id: &str, occurred_at: &str) -> Event {
    Event {
        id: id.into(),
        event_type: "issue".into(),
        repo: "o/r".into(),
        title: "T".into(),
        url: "U".into(),
        occurred_at: occurred_at.into(),
        thread_id: "t".into(),
        thread_title: "T".into(),
        thread_url: "U".into(),
        status: String::new(),
    }
}

/// Carries a collection out and tells the requests that were made.
fn carry_out(
    config: &Config,
    mut collector: Collector,
    reply: &dyn Fn(&Request) -> String,
) -> (Result<Vec<Event>, String>, Vec<String>) {
    let mut made = Vec::new();
    while let Some(request) = collector.request(config) {
        made.push(format!("{:?} {}", request.channel, request.url));
        assert!(collector.can_step());
        let value = parse_json(&reply(&request)).unwrap();
        match collector.step(config, &value) {
            Ok(next) => collector = next,
            Err(e) => return (Err(e), made),
        }
    }
    assert!(!collector.can_step());
    (Ok(collector.into_events()), made)
}

fn search_url(query: &str, page: i64) -> String {
    format!(
        "https://api.github.com/search/issues?q={}&per_page=100&page={page}",
        url_encode(query)
    )
}

fn item(repo: &str, number: i64) -> String {
    format!(
        r#"{{"repository_url": "https://api.github.com/repos/{repo}", "number": {number}, "title": "T{number}", "html_url": "U"}}"#
    )
}

fn comments(ids: &[i64]) -> String {
    let list: Vec<String> = ids
        .iter()
        .map(|id| format!(r#"{{"user": {{"login": "me"}}, "created_at": "2026-05-02", "id": {id}}}"#))
        .collect();
    format!("[{}]", list.join(","))
}

#[test]
fn asks_scope_by_scope() {
    let cfg = config();
    let start = Collector::start(&cfg, "2026-05-01T00:00:00Z", "2026-05-04T00:00:00Z").unwrap();
    let org = "org:b commenter:me updated:2026-05-01..2026-05-04";
    let repo = "repo:a/x commenter:me updated:2026-05-01..2026-05-04";
    let (found, made) = carry_out(&cfg, start, &|r| {
        if r.url == search_url(org, 1) {
            format!(
                r#"{{"total_count": 101, "items": [{}, {}, {}]}}"#,
                item("b/one", 1),
                item("b/out", 2),
                item("other/z", 3)
            )
        } else if r.url == search_url(org, 2) {
            format!(r#"{{"total_count": 101, "items": [{}]}}"#, item("b/two", 4))
        } else if r.url == search_url(repo, 1) {
            r#"{"total_count": 0, "items": []}"#.into()
        } else if r.url.contains("b/one") && r.url.ends_with("page=1") {
            comments(&(0..100).collect::<Vec<_>>())
        } else if r.url.contains("b/one") {
            comments(&[100, 101])
        } else if r.channel == Channel::Public {
            comments(&[200])
        } else {
            r#"{"message": "Forbidden"}"#.into()
        }
    });
    let ids: Vec<String> = found.unwrap().into_iter().map(|e| e.id).collect();
    let mut expected: Vec<String> = (0..102).map(|i| i.to_string()).collect();
    expected.push("200".into());
    assert_eq!(ids, expected);
    let thread = |repo: &str, n: i64, p: i64| {
        format!("https://api.github.com/repos/{repo}/issues/{n}/comments?per_page=100&page={p}")
    };
    assert_eq!(
        made,
        vec![
            format!("Rest {}", search_url(org, 1)),
            format!("Rest {}", thread("b/one", 1, 1)),
            format!("Rest {}", thread("b/one", 1, 2)),
            format!("Rest {}", search_url(org, 2)),
            format!("Rest {}", thread("b/two", 4, 1)),
            format!("Public {}", thread("b/two", 4, 1)),
            format!("Rest {}", search_url(repo, 1)),
        ]
    );
}

#[test]
fn splits_crowded_ranges_and_covers_every_day() {
    let cfg = Config { username: "me".into(), allowlist: set(&["a/x"]), ..Config::default() };
    let first = date_days("2026-05-01").unwrap();
    let last = date_days("2026-06-15").unwrap();
    let start = Collector::start(&cfg, "2026-05-01", "2026-06-15").unwrap();
    let crowded = |a: i64, b: i64| b - a >= 7 || (a <= first + 20 && first + 20 <= b && b > a);
    let day = |text: &str| date_days(text).unwrap();
    let range_of = |url: &str| {
        let at = url.find("updated%3A").unwrap() + "updated%3A".len();
        (day(&url[at..at + 10]), day(&url[at + 12..at + 22]))
    };
    let (found, made) = carry_out(&cfg, start, &|r| {
        let (a, b) = range_of(&r.url);
        format!(r#"{{"total_count": {}}}"#, if crowded(a, b) { 1000 } else { 999 })
    });
    assert!(found.unwrap().is_empty());
    let mut next = first;
    for line in &made {
        let (a, b) = range_of(line);
        if !crowded(a, b) && line.ends_with("page=1") {
            assert_eq!(a, next);
            next = b + 1;
        }
    }
    assert_eq!(next, last + 1);
}

#[test]
fn tells_of_a_crowded_day() {
    let cfg = Config { username: "me".into(), allowlist: set(&["a/x"]), ..Config::default() };
    let start = Collector::start(&cfg, "2026-05-01", "2026-05-02").unwrap();
    let (found, made) = carry_out(&cfg, start, &|_| r#"{"total_count": 1234}"#.into());
    assert_eq!(made.len(), 2);
    assert_eq!(
        found.unwrap_err(),
        "comment search for `repo:a/x commenter:me updated:2026-05-01..2026-05-01` returned 1234 threads in one day; narrow the scope to avoid GitHub search caps"
    );
}

#[test]
fn tells_of_a_thread_without_comments() {
    let cfg = config();
    let start = Collector::start(&cfg, "2026-05-01", "2026-05-01").unwrap();
    let (found, _) = carry_out(&cfg, start, &|r| {
        if r.url.contains("/search/") {
            format!(r#"{{"total_count": 1, "items": [{}]}}"#, item("b/one", 1))
        } else {
            "null".into()
        }
    });
    assert_eq!(
        found.unwrap_err(),
        "GitHub issue comments returned non-array response for https://api.github.com/repos/b/one/issues/1/comments?per_page=100&page=1"
    );
}

#[test]
fn starts_between_two_days() {
    let cfg = config();
    assert_eq!(
        Collector::start(&cfg, "soon", "2026-05-01").unwrap_err(),
        "invalid comment search start date: soon"
    );
    assert_eq!(Collector::start(&cfg, "2026-05-01", "?").unwrap_err(), "invalid current date");
    let over = Collector::start(&cfg, "2026-05-02", "2026-05-01").unwrap();
    assert!(over.request(&cfg).is_none());
    let live = fetch_comment_events(&cfg, "1999-01-01").unwrap();
    let url = live.request(&cfg).unwrap().url;
    assert!(url.contains("updated%3A1999-01-01.."), "{url}");
    assert_eq!(
        fetch_comment_events(&cfg, "x").unwrap_err(),
        "invalid comment search start date: x"
    );
}

#[test]
fn plans_ranges() {
    let page = |n: i64| CommentSearchPage { issue_count: n, threads: vec![], has_next: false };
    let plan = |a: i64, b: i64, n: i64| fetch_comment_events_for_range("s", "u", a, b, &page(n));
    assert!(matches!(plan(5, 4, 5000), Ok(RangePlan::Nothing)));
    assert!(matches!(plan(4, 4, 999), Ok(RangePlan::Harvest)));
    assert!(matches!(plan(4, 9, 1000), Ok(RangePlan::Split(6))));
    assert!(matches!(plan(4, 5, 1000), Ok(RangePlan::Split(4))));
    assert!(matches!(plan(-5, -4, 1000), Ok(RangePlan::Split(-5))));
    assert_eq!(
        plan(0, 0, 1000).unwrap_err(),
        format!(
            "comment search for `s commenter:u updated:{0}..{0}` returned 1000 threads in one day; narrow the scope to avoid GitHub search caps",
            date_from_days(0)
        )
    );
}

#[test]
fn merging_replaces_by_id_and_sorts_by_id() {
    let mut events = vec![event("c", "1"), event("a", "2"), event("c", "3")];
    merge_events(&mut events, vec![event("b", "4"), event("a", "5"), event("b", "6")]);
    let pairs: Vec<(&str, &str)> =
        events.iter().map(|e| (e.id.as_str(), e.occurred_at.as_str())).collect();
    assert_eq!(pairs, vec![("a", "5"), ("b", "6"), ("c", "3")]);
    let again: Vec<Event> = vec![event("b", "4"), event("a", "5"), event("b", "6")];
    let before = events.clone();
    merge_events(&mut events, again);
    assert_eq!(events, before);
}

#[test]
fn merging_in_turn_is_merging_at_once() {
    let first = vec![event("b", "1"), event("a", "2")];
    let second = vec![event("c", "3"), event("a", "4")];
    let mut in_turn = vec![event("c", "0")];
    merge_events(&mut in_turn, first.clone());
    merge_events(&mut in_turn, second.clone());
    let mut at_once = vec![event("c", "0")];
    merge_events(&mut at_once, first.into_iter().chain(second).collect());
    assert_eq!(in_turn, at_once);
}

#[test]
fn sorting_puts_the_newest_first() {
    let mut events = vec![event("b", "1"), event("a", "1"), event("c", "3"), event("d", "2")];
    sort_events(&mut events);
    let ids: Vec<&str> = events.iter().map(|e| e.id.as_str()).collect();
    assert_eq!(ids, vec!["c", "d", "a", "b"]);
    assert!(is_newer(&events[0], &events[1]));
    assert!(is_newer(&events[2], &events[3]));
    assert!(!is_newer(&events[3], &events[3]));
}

#[test]
fn goes_on_from_the_last_feed() {
    let cfg = config();
    let fresh = start_feed(&cfg, None, "now").unwrap();
    assert_eq!(fresh.username, "me");
    assert_eq!(fresh.generated_at, "now");
    assert!(fresh.events.is_empty());
    let state = r#"{"generated_at": "then", "username": "other", "events": [{"id": "a"}]}"#;
    let old = start_feed(&cfg, Some(state), "now").unwrap();
    assert_eq!(old.username, "other");
    assert_eq!(old.generated_at, "now");
    assert_eq!(old.events.len(), 1);
    assert_eq!(start_feed(&cfg, Some("?"), "now").unwrap_err(), "invalid JSON value");
    let empty = Feed::default();
    assert!(empty.username.is_empty() && empty.generated_at.is_empty() && empty.events.is_empty());
}

#[test]
fn takes_reports_and_comments_in() {
    let cfg = Config { keywords: vec!["x".into()], ..config() };
    let mut feed = start_feed(&cfg, None, "now").unwrap();
    feed.events.push(event("old", "2026-04-30"));
    feed.events.push(event("i", "2026-04-01"));
    let mut candidates = NameSet::new();
    let graph = parse_json(
        r#"{"data": {"user": {"contributionsCollection": {"issueContributionsByRepository": [
            {"repository": {"nameWithOwner": "a/x"}, "contributions": {"nodes": [
                {"issue": {"id": "i", "title": "T", "url": "U", "createdAt": "2026-05-03"}}]}},
            {"repository": {"nameWithOwner": "q/x"}, "contributions": {"nodes": []}}]}}}}"#,
    )
    .unwrap();
    absorb(&cfg, &mut feed, &mut candidates, &graph).unwrap();
    assert_eq!(candidates.len(), 1);
    assert_eq!(candidates.get(0), "q/x");
    let ids: Vec<&str> = feed.events.iter().map(|e| e.id.as_str()).collect();
    assert_eq!(ids, vec!["i", "old"]);
    let empty = parse_json("{}").unwrap();
    assert!(absorb(&cfg, &mut feed, &mut candidates, &empty).is_err());
    assert_eq!(feed.events.len(), 2);
    finish_feed(&mut feed, vec![event("c", "2026-05-04"), event("d", "2026-05-01")], "2026-05-01");
    let ids: Vec<&str> = feed.events.iter().map(|e| e.id.as_str()).collect();
    assert_eq!(ids, vec!["c", "i", "d"]);
}

fn report(id: &str, created: &str) -> String {
    format!(
        r#"{{"data": {{"user": {{"contributionsCollection": {{"issueContributionsByRepository": [
            {{"repository": {{"nameWithOwner": "a/x"}}, "contributions": {{"nodes": [
                {{"issue": {{"id": "{id}", "title": "{created}", "url": "U", "createdAt": "{created}"}}}}]}}}},
            {{"repository": {{"nameWithOwner": "q/{id}"}}, "contributions": {{"nodes": []}}}}]}}}}}}}}"#
    )
}

#[test]
fn carries_a_whole_collection_out() {
    let cfg = Config { keywords: vec!["Q".into()], ..config() };
    let state = r#"{"username": "me", "events": [
        {"id": "kept", "occurred_at": "2026-05-10"}, {"id": "old", "occurred_at": "2026-04-10"},
        {"id": "one", "occurred_at": "2026-05-11", "title": "stale"}]}"#;
    let windows = vec![
        ("2026-05-01".to_string(), "2026-06-01".to_string()),
        ("2026-04-01".to_string(), "2026-05-01".to_string()),
    ];
    let mut session =
        Session::start(&cfg, Some(state), "now", "2026-05-01", windows).unwrap();
    let mut made = Vec::new();
    while let Some(request) = session.request(&cfg) {
        assert!(session.can_step());
        let body = request.body.clone().unwrap_or_default();
        let text = if body.contains("\"from\":\"2026-05-01\",\"to\":\"2026-06-01\"") {
            report("two", "2026-05-12")
        } else if body.contains("\"from\":\"2026-04-01\",\"to\":\"2026-05-01\"") {
            report("one", "2026-05-09")
        } else if request.url.contains("/search/") && request.url.contains("org%3Ab") {
            format!(r#"{{"total_count": 1, "items": [{}]}}"#, item("b/one", 1))
        } else if request.url.contains("/search/") {
            "{}".into()
        } else {
            comments(&[7])
        };
        made.push(format!("{:?}", request.channel));
        session = session.step(&cfg, &parse_json(&text).unwrap(), "2026-05-03").unwrap();
    }
    assert!(!session.can_step());
    assert_eq!(made, vec!["Graph", "Graph", "Rest", "Rest", "Rest"]);
    let (feed, candidates) = session.finish();
    assert_eq!(feed.generated_at, "now");
    let ids: Vec<&str> = feed.events.iter().map(|e| e.id.as_str()).collect();
    assert_eq!(ids, vec!["two", "kept", "one", "7"]);
    assert_eq!(feed.events[2].title, "2026-05-09");
    assert_eq!(candidates.len(), 2);
    assert_eq!(candidates.get(0), "q/one");

    let options = collect_options(&[], None);
    let files = collect_files(&cfg, &options, &feed, &candidates);
    let names: Vec<&str> = files.iter().map(|f| f.name.as_str()).collect();
    assert_eq!(names, vec!["public/feed.json", ".cache/feed.json", ".cache/candidates.md"]);
    assert_eq!(files[0].body, feed.to_json());
    assert_eq!(files[1].body, feed.to_json());
    assert!(files[2].body.ends_with("- [ ] `q/two` - https://github.com/q/two\n"));
    assert_eq!(collect_files(&cfg, &options, &feed, &NameSet::new()).len(), 2);
}

#[test]
fn a_collection_stops_at_the_first_error() {
    let cfg = config();
    let windows = || vec![("a".to_string(), "b".to_string())];
    assert_eq!(
        Session::start(&cfg, Some("?"), "now", "2026-05-01", windows()).unwrap_err(),
        "invalid JSON value"
    );
    let session = Session::start(&cfg, None, "now", "2026-05-01", windows()).unwrap();
    assert_eq!(
        session.step(&cfg, &parse_json("{}").unwrap(), "2026-05-03").unwrap_err(),
        "missing contributionsCollection in GraphQL response"
    );
    let session = Session::start(&cfg, None, "now", "soon", windows()).unwrap();
    assert_eq!(
        session
            .step(&cfg, &parse_json(&report("x", "2026-05-02")).unwrap(), "2026-05-03")
            .unwrap_err(),
        "invalid comment search start date: soon"
    );
    let session = Session::start(&cfg, None, "now", "2026-05-01", windows()).unwrap();
    let session = session
        .step(&cfg, &parse_json(&report("x", "2026-05-02")).unwrap(), "2026-05-03")
        .unwrap();
    let session =
        session.step(&cfg, &parse_json(r#"{"total_count": 1}"#).unwrap(), "later").unwrap();
    assert!(session.request(&cfg).unwrap().url.contains("repo%3Aa%2Fx"));
}

#[test]
fn a_collection_starts_now() {
    let cfg = Config { bootstrap_months: 13, ..config() };
    let session = collect_cmd(&cfg, None).unwrap();
    let request = session.request(&cfg).unwrap();
    assert_eq!(request.channel, Channel::Graph);
    let (feed, candidates) = session.finish();
    assert!(feed.events.is_empty() && candidates.is_empty());
    assert!(feed.generated_at.as_str() > "2026-01-01");
    assert!(request.body.unwrap().contains("\"login\":\"me\""));
}
