use btc_foss::assets::{bitcoin_logo_svg, render_bitcoin_theme_css, render_css, render_js};
use btc_foss::command::{
    collect_options, fixture_cmd, flag, parse_command, render_options, usage, validate_feed_path,
    validate_path, Command,
};
use btc_foss::config::Config;
use btc_foss::event::Event;
use btc_foss::feed::Feed;
use btc_foss::html::{
    event_type_count_label, group_key, group_kind, group_title, icon, row_title_cell, select, stat,
    status_badge,
};
use btc_foss::page::render_html;
use btc_foss::json::parse_json;
use btc_foss::site::{render_cmd, write_local_preview_files, SiteFile};
use btc_foss::validate::{required_string, string_field, validate_feed_cmd};

fn event(id: &str, kind: &str, repo: &str, occurred_at: &str) -> Event {
    Event {
        id: id.into(),
        event_type: kind.into(),
        repo: repo.into(),
        title: format!("title {id}"),
        url: format!("https://github.com/{id}"),
        occurred_at: occurred_at.into(),
        thread_id: "t".into(),
        thread_title: format!("thread {id}"),
        thread_url: "U".into(),
        status: String::new(),
    }
}

fn args(list: &[&str]) -> Vec<String> {
    list.iter().map(|s| s.to_string()).collect()
}

#[test]
fn names_counts_and_kinds() {
    for (kind, label, sign) in [
        ("pull_request", "pull requests", "⑂"),
        ("review", "reviews", "✓"),
        ("commit", "commits", "●"),
        ("comment", "comments", "↩"),
        ("issue", "issues", "!"),
        ("mixed", "mixed", "⋯"),
        ("other", "events", "•"),
    ] {
        assert_eq!(event_type_count_label(kind), label);
        assert_eq!(icon(kind), sign);
    }
}

#[test]
fn writes_small_parts() {
    let mut out = String::from("x");
    stat(&mut out, "a_b<", 12);
    assert_eq!(out, "x<div><strong>12</strong><span>a b&lt;</span></div>\n");
    let mut out = String::new();
    select(&mut out, "n\"", "L&", &args(&["b\"", "a"]));
    assert_eq!(
        out,
        "<label>L&amp;<select name=\"n&quot;\"><option value=\"\">All</option>\n<option value=\"b&quot;\">b\"</option>\n<option value=\"a\">a</option>\n</select></label>\n"
    );
    assert_eq!(status_badge(""), "");
    assert_eq!(status_badge("<O>"), " <span class=\"btc-status\">&lt;O&gt;</span>");
}

#[test]
fn describes_groups() {
    let a = event("a", "issue", "o/r", "2026-05-01T10:00:00Z");
    let b = event("b", "review", "o/r", "2026-05-01T09:00:00Z");
    assert_eq!(group_key(&a), "o/r:2026-05-01");
    assert_eq!(group_key(&event("c", "issue", "o/r", "now")), "o/r:now");
    assert_eq!(group_kind(&[&a, &a]), "issue");
    assert_eq!(group_kind(&[&a, &b]), "mixed");
    assert_eq!(group_title(&[&a]), "thread a");
    assert_eq!(group_title(&[&a, &b]), "2 activities");
    assert_eq!(
        row_title_cell(&[&a], "T<"),
        "<span class=\"btc-row-title\"><a href=\"https://github.com/a\">T&lt;</a></span>"
    );
    assert_eq!(
        row_title_cell(&[&a, &b], "T<"),
        "<span class=\"btc-row-title\"><span class=\"btc-row-title-text\">T&lt;</span></span>"
    );
}

#[test]
fn every_event_is_shown_once_in_order() {
    let mut events = Vec::new();
    for i in 0..40 {
        let day = format!("2026-05-{:02}T{:02}:00:00Z", 1 + i * 7 % 9, i % 24);
        events.push(event(&format!("e{i}"), "issue", ["o/r", "a/b"][i % 2], &day));
    }
    let feed = Feed { generated_at: "g".into(), username: "u".into(), events };
    let html = render_html(&Config::default(), &feed);
    for e in &feed.events {
        assert_eq!(html.matches(&format!("data-title=\"{}\"", e.title)).count(), 1);
    }
    assert_eq!(html.matches("<details").count(), 18);
    for group in html.split("<details").skip(1) {
        let times: Vec<&str> =
            group.split("</span><time datetime=\"").skip(1).map(|t| &t[..20]).collect();
        assert!(times.windows(2).all(|w| w[0] >= w[1]));
    }
}

#[test]
fn groups_stand_by_the_event_that_came_first_in_the_feed() {
    let feed = Feed {
        generated_at: "g".into(),
        username: "u".into(),
        events: vec![
            event("x1", "issue", "o/x", "2026-05-01T01:00:00Z"),
            event("y", "issue", "o/y", "2026-05-01T02:00:00Z"),
            event("x2", "issue", "o/x", "2026-05-01T03:00:00Z"),
            event("w", "issue", "o/w", "2026-05-01T01:00:00Z"),
            event("v", "issue", "o/v", "\u{e9}\u{e9}\u{e9}"),
        ],
    };
    let html = render_html(&Config::default(), &feed);
    let repos: Vec<&str> =
        html.split("data-repo=\"").skip(1).map(|t| t.split('"').next().unwrap()).collect();
    assert_eq!(repos, vec!["o/v", "o/y", "o/w", "o/x"]);
    assert!(html.contains("data-repo=\"o/v\" data-type=\"issue\" data-year=\"\u{e9}\u{e9}\""));
    assert!(html.contains("<option value=\"\u{e9}\u{e9}\">\u{e9}\u{e9}</option>\n<option value=\"2026\">"));
    assert!(html.contains("<div><strong>5</strong><span>Events</span></div>"));
    assert!(html.contains("<div><strong>4</strong><span>Repos</span></div>"));
}

#[test]
fn lists_the_files_of_the_site() {
    let cfg = Config { base_path: "//sub/dir/".into(), ..Config::default() };
    let feed = Feed::default();
    let names = |files: &[SiteFile]| -> Vec<String> {
        files.iter().map(|f| f.name.clone()).collect()
    };
    let files = render_cmd(&cfg, &feed, true);
    assert_eq!(
        names(&files),
        vec!["index.html", "theme-bitcoin.css", "btc_foss.css", "btc_foss.js"]
    );
    assert_eq!(files[0].body, render_html(&cfg, &feed));
    assert_eq!(files[1].body, render_bitcoin_theme_css());
    assert_eq!(files[2].body, render_css());
    assert_eq!(files[3].body, render_js());
    let files = render_cmd(&cfg, &feed, false);
    assert_eq!(files[4].name, "feed.json");
    assert_eq!(files[4].body, feed.to_json());
    let (dir, files) = write_local_preview_files(&cfg, &feed, "page").unwrap();
    assert_eq!(dir, "sub/dir");
    assert_eq!(
        names(&files),
        vec!["index.html", "theme-bitcoin.css", "btc_foss.css", "btc_foss.js", "feed.json"]
    );
    assert_eq!(files[0].body, "page");
    let root = Config { base_path: "/".into(), ..Config::default() };
    assert!(write_local_preview_files(&root, &feed, "page").is_none());
    assert!(bitcoin_logo_svg().starts_with("<img class=\"btc-logo\""));
    assert!(render_js().starts_with("(function () {"));
    assert!(render_css().contains(".btc-"));
    assert!(render_bitcoin_theme_css().starts_with("html[data-theme=\"bitcoin\"],"));
}

#[test]
fn reads_the_command_line() {
    for (name, command) in [
        ("collect", Command::Collect),
        ("render", Command::Render),
        ("validate", Command::Validate),
        ("validate-feed", Command::ValidateFeed),
        ("fixture", Command::Fixture),
    ] {
        assert_eq!(parse_command(&args(&[name, "x"])), Ok(command));
    }
    let message = "usage: btc-contribs <collect|render|validate|validate-feed|fixture> [--config PATH] [--feed PATH] [--state PATH] [--out PATH]";
    assert_eq!(usage(), Err(message.to_string()));
    assert_eq!(parse_command(&[]), Err(message.to_string()));
    assert_eq!(parse_command(&args(&["Collect"])), Err(message.to_string()));
    let list = args(&["--a", "1", "--b", "--a", "2", "--c"]);
    assert_eq!(flag(&list, "--a").as_deref(), Some("1"));
    assert_eq!(flag(&list, "--b").as_deref(), Some("--a"));
    assert_eq!(flag(&list, "--c"), None);
    assert_eq!(flag(&[], "--c"), None);
}

#[test]
fn reads_options() {
    let o = collect_options(&[], None);
    assert_eq!(o.config_path, "config/site.toml");
    assert_eq!(o.state_path, ".cache/feed.json");
    assert_eq!(o.out_path, "public/feed.json");
    assert_eq!(o.candidates_path, ".cache/candidates.md");
    assert!(!o.full);
    let list = args(&["--out", "o", "--state", "s", "--config", "c", "--candidates", "d", "--full"]);
    let o = collect_options(&list, None);
    assert_eq!((o.config_path.as_str(), o.state_path.as_str()), ("c", "s"));
    assert_eq!((o.out_path.as_str(), o.candidates_path.as_str()), ("o", "d"));
    assert!(o.full);
    assert!(collect_options(&[], Some("1")).full);
    assert!(collect_options(&[], Some("true")).full);
    assert!(!collect_options(&[], Some("yes")).full);
    let r = render_options(&args(&["--feed", "f"]));
    assert_eq!(r.config_path, "config/site.toml");
    assert_eq!(r.feed_path, "f");
    assert_eq!(r.out_dir, "public");
    assert_eq!(render_options(&[]).feed_path, "public/feed.json");
    assert_eq!(validate_path(&[]), "config/site.toml");
    assert_eq!(validate_feed_path(&args(&["--feed", "f"])), "f");
    assert_eq!(
        fixture_cmd(&args(&["--out", "o"])),
        vec!["--config", "config/site.toml", "--feed", "fixtures/feed.json", "--out", "o"]
    );
}

fn feed_with(change: &str, to: &str) -> String {
    let mut e = event("id", "issue", "o/r", "2026-05-01T10:00:00Z");
    e.thread_url = "V".into();
    let feed = Feed { generated_at: "g".into(), username: "u".into(), events: vec![e] };
    let text = feed.to_json();
    assert!(text.contains(change), "{change}");
    text.replacen(change, to, 1)
}

#[test]
fn a_feed_that_was_written_passes() {
    assert_eq!(validate_feed_cmd(&feed_with("\"g\"", "\"h\"")), Ok(()));
    let none = Feed { generated_at: "g".into(), username: "u".into(), events: vec![] };
    assert_eq!(validate_feed_cmd(&none.to_json()), Ok(()));
    assert_eq!(none.to_json(), "{\n  \"generated_at\": \"g\",\n  \"username\": \"u\",\n  \"events\": [\n\n  ]\n}\n");
}

#[test]
fn tells_the_first_problem_of_a_feed() {
    let problem = |change: &str, to: &str| validate_feed_cmd(&feed_with(change, to)).unwrap_err();
    assert_eq!(validate_feed_cmd("[").unwrap_err(), "invalid JSON value");
    assert_eq!(problem("generated_at", "x"), "missing string field generated_at");
    assert_eq!(problem("\"u\"", "\"\""), "empty string field username");
    assert_eq!(problem("\"events\": [", "\"x\": ["), "feed events must be an array");
    for key in [
        "id", "event_type", "repo", "title", "url", "occurred_at", "thread_id", "thread_title",
        "thread_url", "status",
    ] {
        assert_eq!(
            problem(&format!("\"{key}\""), "\"x\""),
            format!("event 0: missing string field {key}")
        );
    }
    assert_eq!(problem("\"o/r\"", "\"\""), "event 0: empty string field repo");
    assert_eq!(problem("\"issue\"", "\"mixed\""), "event 0: unsupported event_type mixed");
    assert_eq!(
        problem("https://github.com/", "http://github.com/"),
        "event 0: url must point to github.com"
    );
    assert_eq!(
        problem("2026-05-01T10:00:00Z", "2026-05-01"),
        "event 0: occurred_at must be RFC3339-like UTC"
    );
    let second = feed_with("\n    }\n", "\n    }, {}\n");
    assert_eq!(validate_feed_cmd(&second).unwrap_err(), "event 1: missing string field id");
}

#[test]
fn reads_required_strings() {
    let value = parse_json(r#"{"a": {"b": "c", "d": ""}}"#).unwrap();
    assert_eq!(string_field(&value, &["a", "b"]), Ok("c"));
    assert_eq!(string_field(&value, &["a", "d"]), Ok(""));
    assert_eq!(required_string(&value, &["a", "d"]).unwrap_err(), "empty string field a.d");
    assert_eq!(required_string(&value, &["a", "x"]).unwrap_err(), "missing string field a.x");
    assert_eq!(string_field(&value, &["a"]).unwrap_err(), "missing string field a");
    assert_eq!(string_field(&value, &[]).unwrap_err(), "missing string field ");
}
