use btc_foss::calendar::{date_days, date_from_days, is_rfc3339_utc};
use btc_foss::clock::contribution_windows;
use btc_foss::config::Config;
use btc_foss::contributions::extract_contributions;
use btc_foss::event::{merge_events, prune_events_before, Event};
use btc_foss::json::{parse_json, Json};
use btc_foss::names::NameSet;
use btc_foss::rules::{comment_search_scopes, repo_allowed};
use btc_foss::search::comment_search_query_text;
use btc_foss::toml::parse_toml_array;

fn set(names: &[&str]) -> NameSet {
    NameSet::from_vec(names.iter().map(|n| n.to_string()).collect())
}

#[test]
fn parses_config_arrays() {
    let items = parse_toml_array(r#"["bitcoin", "hwi"]"#).unwrap();
    assert_eq!(items, vec!["bitcoin", "hwi"]);
}

#[test]
fn repo_allowed_supports_orgs_and_excludes() {
    let cfg = Config {
        allowlist_orgs: set(&["bitcoindevkit"]),
        allowlist: set(&["bitcoin/bitcoin"]),
        exclude: set(&["bitcoindevkit/noise"]),
        ..Config::default()
    };

    assert!(repo_allowed(&cfg, "bitcoindevkit/bdk_wallet"));
    assert!(repo_allowed(&cfg, "bitcoin/bitcoin"));
    assert!(!repo_allowed(&cfg, "bitcoindevkit/noise"));
    assert!(!repo_allowed(&cfg, "other/repo"));
}

#[test]
fn comment_scopes_use_orgs_without_duplicate_repo_scopes() {
    let cfg = Config {
        allowlist_orgs: set(&["bitcoindevkit"]),
        allowlist: set(&["bitcoin/bitcoin", "bitcoindevkit/bdk_wallet"]),
        ..Config::default()
    };
    let scopes = comment_search_scopes(&cfg);

    assert!(scopes.contains("org:bitcoindevkit"));
    assert!(scopes.contains("repo:bitcoin/bitcoin"));
    assert!(!scopes.contains("repo:bitcoindevkit/bdk_wallet"));
}

#[test]
fn comment_search_uses_bounded_date_ranges() {
    let start = date_days("2026-05-01T00:00:00Z").unwrap();
    let end = date_days("2026-05-27T23:59:59Z").unwrap();

    assert_eq!(date_from_days(start), "2026-05-01");
    assert_eq!(
        comment_search_query_text("org:bitcoindevkit", "noahjoeris", start, end),
        "org:bitcoindevkit commenter:noahjoeris updated:2026-05-01..2026-05-27"
    );
}

#[test]
fn extracts_org_allowlisted_contribution() {
    let cfg = Config {
        username: "noahjoeris".into(),
        allowlist_orgs: set(&["bitcoindevkit"]),
        ..Config::default()
    };
    let graph = parse_json(
        r#"{
          "data": {
            "user": {
              "contributionsCollection": {
                "pullRequestContributionsByRepository": [{
                  "repository": {
                    "nameWithOwner": "bitcoindevkit/bdk_wallet",
                    "description": "wallet",
                    "repositoryTopics": { "nodes": [] }
                  },
                  "contributions": {
                    "nodes": [{
                      "pullRequest": {
                        "id": "pr-1",
                        "number": 490,
                        "title": "Improve wallet signing",
                        "url": "https://github.com/bitcoindevkit/bdk_wallet/pull/490",
                        "createdAt": "2026-05-12T08:00:00Z",
                        "state": "OPEN",
                        "closed": false,
                        "merged": false
                      }
                    }]
                  }
                }],
                "issueContributionsByRepository": [],
                "commitContributionsByRepository": [],
                "pullRequestReviewContributionsByRepository": []
              }
            }
          }
        }"#,
    )
    .unwrap();

    let (events, candidates) = extract_contributions(&cfg, &graph).unwrap();

    assert!(candidates.is_empty());
    assert_eq!(events.len(), 1);
    assert_eq!(events[0].repo, "bitcoindevkit/bdk_wallet");
    assert_eq!(events[0].thread_id, "bitcoindevkit/bdk_wallet#490");
    assert_eq!(events[0].status, "OPEN");
}

#[test]
fn merges_by_event_id() {
    let mut existing = vec![Event {
        id: "a".into(),
        event_type: "issue".into(),
        repo: "o/r".into(),
        title: "old".into(),
        url: "u".into(),
        occurred_at: "2026-01-01T00:00:00Z".into(),
        thread_id: "t".into(),
        thread_title: "t".into(),
        thread_url: "u".into(),
        status: String::new(),
    }];
    let mut replacement = existing[0].clone();
    replacement.title = "new".into();
    merge_events(&mut existing, vec![replacement]);
    assert_eq!(existing.len(), 1);
    assert_eq!(existing[0].title, "new");
}

#[test]
fn splits_long_collection_windows() {
    let windows = contribution_windows(24, "2026-05-15T00:00:00Z");
    assert_eq!(windows.len(), 4);
    assert_eq!(windows[0].1, "2026-05-15T00:00:00Z");
    assert!(windows.iter().all(|(start, end)| start < end));
}

#[test]
fn prunes_events_before_collection_window() {
    let mut events = vec![
        Event {
            id: "old".into(),
            event_type: "comment".into(),
            repo: "bitcoin/bitcoin".into(),
            title: "old".into(),
            url: "u".into(),
            occurred_at: "2025-05-14T23:59:59Z".into(),
            thread_id: "t".into(),
            thread_title: "t".into(),
            thread_url: "u".into(),
            status: String::new(),
        },
        Event {
            id: "new".into(),
            event_type: "review".into(),
            repo: "bitcoin/bitcoin".into(),
            title: "new".into(),
            url: "u".into(),
            occurred_at: "2025-05-15T00:00:00Z".into(),
            thread_id: "t".into(),
            thread_title: "t".into(),
            thread_url: "u".into(),
            status: String::new(),
        },
    ];
    prune_events_before(&mut events, "2025-05-15T00:00:00Z");
    assert_eq!(events.len(), 1);
    assert_eq!(events[0].id, "new");
}

#[test]
fn validates_utc_timestamp_shape() {
    assert!(is_rfc3339_utc("2026-05-27T11:10:47Z"));
    assert!(!is_rfc3339_utc("2026-99-27T11:10:47Z"));
    assert!(!is_rfc3339_utc("2026-05-27 11:10:47Z"));
}

#[test]
fn reads_the_kinds_of_json_values() {
    let value = parse_json(r#"{"a": [null, true, -1.5e3, "xé\n"], "b": {"c": "d"}}"#).unwrap();
    let items = value.get("a").and_then(Json::array).unwrap();
    assert_eq!(items.len(), 4);
    assert_eq!(items[2].number(), Some("-1.5e3"));
    assert_eq!(items[3].string(), Some("x\u{e9}\n"));
    assert_eq!(value.get_path(&["b", "c"]).and_then(Json::string), Some("d"));
    assert!(value.get_path(&["b", "x"]).is_none());
}
