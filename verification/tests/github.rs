use btc_foss::candidates::{
    candidate_issues_request, candidate_report, find_candidate_issue, update_candidate_issue,
};
use btc_foss::config::Config;
use btc_foss::contributions::{
    commit_day_url, event_from_node, extract_contributions, mentions_any, repo_matches_keywords,
    words_of,
};
use btc_foss::event::Event;
use btc_foss::json::{parse_json, Json};
use btc_foss::names::NameSet;
use btc_foss::request::{fetch_contributions, Channel, Request, CONTRIBUTIONS_QUERY};
use btc_foss::search::{
    fetch_comment_search_page, fetch_thread_comment_events, fetch_thread_comments_page,
    parse_comment_search_page, repo_from_api_url, CommentThread,
};

fn set(names: &[&str]) -> NameSet {
    NameSet::from_vec(names.iter().map(|n| n.to_string()).collect())
}

fn fields(e: &Event) -> Vec<&str> {
    vec![
        &e.id,
        &e.event_type,
        &e.repo,
        &e.title,
        &e.url,
        &e.occurred_at,
        &e.thread_id,
        &e.thread_title,
        &e.thread_url,
        &e.status,
    ]
}

#[test]
fn reads_pull_requests_and_issues() {
    let node = parse_json(
        r#"{"pullRequest": {"id": "P", "number": 7.9, "title": "T", "url": "U", "createdAt": "C", "state": "OPEN"},
            "issue": {"id": "I", "title": "T", "url": "U", "createdAt": "C"}}"#,
    )
    .unwrap();
    let pr = event_from_node("pull_request", "o/r", &node, "me").unwrap();
    assert_eq!(
        fields(&pr),
        vec!["P", "pull_request", "o/r", "T", "U", "C", "o/r#7", "T", "U", "OPEN"]
    );
    let issue = event_from_node("issue", "o/r", &node, "me").unwrap();
    assert_eq!(
        fields(&issue),
        vec!["I", "issue", "o/r", "T", "U", "C", "o/r#0", "T", "U", ""]
    );
    assert!(event_from_node("review", "o/r", &node, "me").is_none());
    assert!(event_from_node("comment", "o/r", &node, "me").is_none());
    for missing in ["id", "title", "url", "createdAt"] {
        let text = r#"{"issue": {"id": "I", "title": "T", "url": "U", "createdAt": "C"}}"#
            .replace(&format!("\"{missing}\""), "\"other\"");
        let node = parse_json(&text).unwrap();
        assert!(event_from_node("issue", "o/r", &node, "me").is_none());
    }
}

#[test]
fn reads_commits() {
    let node = parse_json(r#"{"occurredAt": "2026-05-20T07:00:00Z", "commitCount": 3}"#).unwrap();
    let e = event_from_node("commit", "o/r", &node, "me").unwrap();
    let url = "https://github.com/o/r/commits?author=me&since=2026-05-20T00:00:00Z&until=2026-05-20T23:59:59Z";
    assert_eq!(
        fields(&e),
        vec![
            "o/r:commit:2026-05-20T07:00:00Z:3",
            "commit",
            "o/r",
            "3 commits to o/r",
            url,
            "2026-05-20T07:00:00Z",
            "o/r:commits:2026-05-20T07:00:00Z",
            "3 commits to o/r",
            url,
            ""
        ]
    );
    let node = parse_json(r#"{"occurredAt": "short"}"#).unwrap();
    let e = event_from_node("commit", "o/r", &node, "me").unwrap();
    assert_eq!(e.title, "1 commit to o/r");
    assert_eq!(
        commit_day_url("o/r", "me", "short"),
        "https://github.com/o/r/commits?author=me&since=shortT00:00:00Z&until=shortT23:59:59Z"
    );
    assert!(event_from_node("commit", "o/r", &parse_json("{}").unwrap(), "me").is_none());
}

#[test]
fn reads_reviews() {
    let node = parse_json(
        r#"{"pullRequestReview": {"id": "R", "url": "U", "createdAt": "C", "state": "APPROVED",
            "pullRequest": {"number": 11, "title": "T", "url": "V"}}}"#,
    )
    .unwrap();
    let e = event_from_node("review", "o/r", &node, "me").unwrap();
    assert_eq!(
        fields(&e),
        vec!["R", "review", "o/r", "Reviewed T", "U", "C", "o/r#11", "T", "V", "APPROVED"]
    );
    let bare = parse_json(r#"{"pullRequestReview": {"id": "R", "url": "U", "createdAt": "C"}}"#);
    assert!(event_from_node("review", "o/r", &bare.unwrap(), "me").is_none());
}

#[test]
fn keywords_match_in_any_case() {
    let repo = parse_json(
        r#"{"nameWithOwner": "O/Wallet", "description": "Électrum Σ",
            "repositoryTopics": {"nodes": [{"topic": {"name": "LIGHTNING"}}, {"topic": {}}, 3]}}"#,
    )
    .unwrap();
    assert_eq!(words_of(&repo), "O/Wallet \u{c9}lectrum \u{3a3} LIGHTNING ");
    let matches = |k: &str| repo_matches_keywords(Some(&repo), &[k.to_string()]);
    assert!(matches("wallet"));
    assert!(matches("WALLET \u{e9}LECTRUM"));
    assert!(matches("lightning"));
    assert!(matches("\u{3c3}"));
    assert!(matches(""));
    assert!(!matches("bitcoin"));
    assert!(!repo_matches_keywords(Some(&repo), &[]));
    assert!(!repo_matches_keywords(None, &["".to_string()]));
    assert!(mentions_any("abc", &["x".to_string(), "bc".to_string()]));
    assert!(!mentions_any("ABC", &["bc".to_string()]));
}

#[test]
fn keywords_of_joined_lists_match_in_any_ascii_case() {
    let repo = |name: &str| parse_json(&format!("{{\"nameWithOwner\": \"{name}\"}}")).unwrap();
    let (lower, upper) = (repo("o/bitcoin-kit"), repo("O/BITCOIN-Kit"));
    let list = |words: &[&str]| words.iter().map(|w| w.to_string()).collect::<Vec<_>>();
    let (hit, miss) = (list(&["x", "Bitcoin"]), list(&["lightning", "LN"]));
    for r in [&lower, &upper] {
        for keyword in ["bitcoin", "BITCOIN", "bItCoIn-K"] {
            assert!(repo_matches_keywords(Some(r), &list(&[keyword])));
        }
        assert!(repo_matches_keywords(Some(r), &hit));
        assert!(!repo_matches_keywords(Some(r), &miss));
        assert!(repo_matches_keywords(Some(r), &[hit.clone(), miss.clone()].concat()));
        assert!(repo_matches_keywords(Some(r), &[miss.clone(), hit.clone()].concat()));
        assert!(!repo_matches_keywords(Some(r), &[miss.clone(), miss.clone()].concat()));
        assert!(!repo_matches_keywords(Some(r), &[]));
    }
    assert!(!repo_matches_keywords(None, &hit));
}

#[test]
fn candidates_are_neither_taken_nor_excluded() {
    let cfg = Config {
        username: "me".into(),
        allowlist: set(&["o/taken"]),
        exclude: set(&["o/excluded"]),
        keywords: vec!["Bitcoin".into()],
        ..Config::default()
    };
    let group = |repo: &str, text: &str| {
        format!(
            r#"{{"repository": {{"nameWithOwner": "{repo}", "description": "{text}"}},
                "contributions": {{"nodes": [{{"occurredAt": "2026-05-20T07:00:00Z"}}, {{}}]}}}}"#
        )
    };
    let graph = parse_json(&format!(
        r#"{{"data": {{"user": {{"contributionsCollection": {{
            "commitContributionsByRepository": [{}, {}, {}, {}, {}, {}, {{}}]}}}}}}}}"#,
        group("o/z", "a BITCOIN tool"),
        group("o/taken", "bitcoin"),
        group("o/excluded", "bitcoin"),
        group("o/other", "no match"),
        group("o/b", "bitcoin"),
        group("o/z", "bitcoin"),
    ))
    .unwrap();
    let (events, candidates) = extract_contributions(&cfg, &graph).unwrap();
    assert_eq!(events.len(), 1);
    assert_eq!(events[0].repo, "o/taken");
    assert_eq!(candidates.len(), 2);
    assert_eq!(candidates.get(0), "o/b");
    assert_eq!(candidates.get(1), "o/z");
    assert_eq!(
        extract_contributions(&cfg, &parse_json("{\"data\": null}").unwrap()).unwrap_err(),
        "missing contributionsCollection in GraphQL response"
    );
    assert_eq!(
        candidate_report(&cfg, &candidates),
        "# Bitcoin FOSS candidate repositories\n\n\
         Discovered from public GitHub activity for `me` using Bitcoin-only keywords.\n\
         Curate candidates by adding approved repositories to `config/site.toml` `allowlist` or approved organizations to `allowlist_orgs`.\n\n\
         - [ ] `o/b` - https://github.com/o/b\n\
         - [ ] `o/z` - https://github.com/o/z\n"
    );
}

#[test]
fn events_come_in_the_order_of_the_parts() {
    let cfg = Config { allowlist: set(&["o/r"]), ..Config::default() };
    let part = |nodes: &str| {
        format!(r#"[{{"repository": {{"nameWithOwner": "o/r"}}, "contributions": {{"nodes": [{nodes}]}}}}]"#)
    };
    let opened = |k: &str, id: &str| {
        format!(r#"{{"{k}": {{"id": "{id}", "title": "T", "url": "U", "createdAt": "C"}}}}"#)
    };
    let graph = parse_json(&format!(
        r#"{{"data": {{"user": {{"contributionsCollection": {{
            "issueContributionsByRepository": {},
            "pullRequestContributionsByRepository": {}}}}}}}}}"#,
        part(&opened("issue", "i")),
        part(&format!("{}, {}", opened("pullRequest", "p1"), opened("pullRequest", "p2"))),
    ))
    .unwrap();
    let (events, _) = extract_contributions(&cfg, &graph).unwrap();
    let ids: Vec<&str> = events.iter().map(|e| e.id.as_str()).collect();
    assert_eq!(ids, vec!["p1", "p2", "i"]);
}

#[test]
fn makes_requests() {
    let r = fetch_contributions("me", "2026-01-01T00:00:00Z", "a\"b");
    assert_eq!(r.channel, Channel::Graph);
    let body = r.body.as_deref().unwrap();
    let value = parse_json(body).unwrap();
    assert_eq!(value.get("query").and_then(Json::string), Some(CONTRIBUTIONS_QUERY));
    assert_eq!(value.get_path(&["variables", "login"]).and_then(Json::string), Some("me"));
    assert_eq!(
        value.get_path(&["variables", "from"]).and_then(Json::string),
        Some("2026-01-01T00:00:00Z")
    );
    assert_eq!(value.get_path(&["variables", "to"]).and_then(Json::string), Some("a\"b"));
    assert_eq!(
        r.curl_args("T"),
        vec![
            "-sS",
            "-X",
            "POST",
            "-H",
            "Authorization: bearer T",
            "-H",
            "Content-Type: application/json",
            "-d",
            body,
            "https://api.github.com/graphql"
        ]
    );
    assert_eq!(r.status_failure("exit status: 6"), "curl failed with status exit status: 6");
    assert_eq!(
        r.read_reply("{\"errors\": null}").unwrap_err(),
        "GitHub GraphQL returned errors: {\"errors\": null}"
    );
    assert!(r.read_reply("{\"data\": 1}").is_ok());
    assert_eq!(r.launch_failure("not found"), "failed to run curl: not found");
    assert_eq!(r.read_reply("oops").unwrap_err(), "invalid JSON value");
}

#[test]
fn makes_rest_requests() {
    let r = fetch_comment_search_page("org:a b", 3);
    let url = "https://api.github.com/search/issues?q=org%3Aa%20b&per_page=100&page=3";
    assert_eq!(
        r.curl_args("T"),
        vec![
            "-sS",
            "-X",
            "GET",
            "-H",
            "Authorization: bearer T",
            "-H",
            "Accept: application/vnd.github+json",
            "-H",
            "X-GitHub-Api-Version: 2022-11-28",
            url
        ]
    );
    assert_eq!(
        r.status_failure("exit status: 6"),
        format!("curl GET {url} failed: exit status: 6")
    );
    assert!(r.read_reply("{\"errors\": 1}").is_ok());
    assert_eq!(r.launch_failure("not found"), "not found");
    let r = fetch_thread_comments_page(Channel::Public, "o/r", 7, 2);
    assert_eq!(
        r.curl_args("T"),
        vec![
            "-sS",
            "-X",
            "GET",
            "-H",
            "Accept: application/vnd.github+json",
            "-H",
            "X-GitHub-Api-Version: 2022-11-28",
            "https://api.github.com/repos/o/r/issues/7/comments?per_page=100&page=2"
        ]
    );
    let r = Request {
        channel: Channel::Rest,
        method: "PATCH".into(),
        url: "u".into(),
        body: Some("b".into()),
    };
    let args = r.curl_args("T");
    assert_eq!(args[9..], ["-H", "Content-Type: application/json", "-d", "b", "u"]);
}

#[test]
fn reads_search_pages() {
    let value = parse_json(
        r#"{"total_count": 250, "items": [
            {"repository_url": "https://api.github.com/repos/o/r", "number": 7, "title": "T", "html_url": "U"},
            {"repository_url": "https://example.org/o/r", "number": 7, "title": "T", "html_url": "U"},
            {"repository_url": "https://api.github.com/repos/o/r", "number": 0, "title": "T", "html_url": "U"},
            {"repository_url": "https://api.github.com/repos/o/r", "number": 7, "title": "", "html_url": "U"},
            {"repository_url": "https://api.github.com/repos/o/r", "number": 7, "title": "T"},
            {"repository_url": "https://api.github.com/repos/", "number": 7, "title": "T", "html_url": "U"},
            3]}"#,
    )
    .unwrap();
    let page = parse_comment_search_page(&value, 1).unwrap();
    assert_eq!(page.issue_count, 250);
    assert_eq!(page.threads.len(), 1);
    assert_eq!(page.threads[0].repo, "o/r");
    assert_eq!(page.threads[0].number, 7);
    assert!(page.has_next);
    assert!(parse_comment_search_page(&value, 2).unwrap().has_next);
    assert!(!parse_comment_search_page(&value, 3).unwrap().has_next);
    let many = parse_json(r#"{"total_count": 5000}"#).unwrap();
    assert!(parse_comment_search_page(&many, 9).unwrap().has_next);
    assert!(!parse_comment_search_page(&many, 10).unwrap().has_next);
    let none = parse_comment_search_page(&parse_json("[]").unwrap(), 1).unwrap();
    assert!(none.issue_count == 0 && none.threads.is_empty() && !none.has_next);
    assert_eq!(repo_from_api_url("https://api.github.com/repos/a/b").as_deref(), Some("a/b"));
    assert!(repo_from_api_url("https://api.github.com/repo/a/b").is_none());
}

#[test]
fn reads_comments_of_the_user() {
    let cfg = Config { username: "me".into(), ..Config::default() };
    let thread = CommentThread {
        repo: "o/r".into(),
        number: 7,
        title: "T".into(),
        url: "U".into(),
    };
    let value = parse_json(
        r#"[{"user": {"login": "me"}, "created_at": "2026-05-02", "id": 3042915384, "html_url": "H"},
            {"user": {"login": "you"}, "created_at": "2026-05-03", "id": 2},
            {"user": {"login": "me"}, "created_at": "2026-04-30", "id": 3},
            {"user": {"login": "me"}, "id": 4},
            {"user": {"login": "me"}, "created_at": "2026-05-01", "id": "x"}]"#,
    )
    .unwrap();
    let events =
        fetch_thread_comment_events(&cfg, &thread, value.array().unwrap(), "2026-05-01");
    assert_eq!(events.len(), 2);
    assert_eq!(
        fields(&events[0]),
        vec!["3042915384", "comment", "o/r", "Commented on T", "H", "2026-05-02", "o/r#7", "T", "U", ""]
    );
    assert_eq!(events[1].id, "x");
    assert_eq!(events[1].url, "");
}

#[test]
fn writes_the_candidate_issue() {
    let list = candidate_issues_request("me/site");
    assert_eq!(
        list.url,
        "https://api.github.com/repos/me/site/issues?state=open&labels=btc-foss-candidates"
    );
    assert_eq!(list.method, "GET");
    let issues = parse_json(
        r#"[{"title": "Other", "number": 1}, {"title": "Bitcoin FOSS repository candidates", "number": 12},
            {"title": "Bitcoin FOSS repository candidates", "number": 13}]"#,
    )
    .unwrap();
    assert_eq!(find_candidate_issue(&issues), Some(12));
    let r = update_candidate_issue("me/site", &issues, "line\n\"two\"");
    assert_eq!(r.method, "PATCH");
    assert_eq!(r.url, "https://api.github.com/repos/me/site/issues/12");
    let payload = "{\"title\":\"Bitcoin FOSS repository candidates\",\"body\":\"line\\n\\\"two\\\"\",\"labels\":[\"btc-foss-candidates\"]}";
    assert_eq!(r.body.as_deref(), Some(payload));
    let value = parse_json(payload).unwrap();
    assert_eq!(value.get("body").and_then(Json::string), Some("line\n\"two\""));
    assert_eq!(
        value.get("labels").and_then(Json::array).and_then(|l| l[0].string()),
        Some("btc-foss-candidates")
    );
    let none = parse_json("{}").unwrap();
    assert_eq!(find_candidate_issue(&none), None);
    let r = update_candidate_issue("me/site", &none, "x");
    assert_eq!(r.method, "POST");
    assert_eq!(r.url, "https://api.github.com/repos/me/site/issues");
    let unnumbered = parse_json(r#"[{"title": "Bitcoin FOSS repository candidates"}]"#).unwrap();
    assert_eq!(find_candidate_issue(&unnumbered), Some(0));
}
