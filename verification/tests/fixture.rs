use btc_foss::config::Config;
use btc_foss::feed::Feed;
use btc_foss::json::{parse_json, Json};
use btc_foss::names::NameSet;
use btc_foss::page::render_html;
use btc_foss::validate::validate_feed_cmd;

const FIXTURE: &str = r#"{
  "generated_at": "2026-05-27T11:10:47Z",
  "username": "noahjoeris",
  "events": [
    {
      "id": "bitcoindevkit/bdk_wallet:commit:2026-05-20T07:00:00Z:3",
      "event_type": "commit",
      "repo": "bitcoindevkit/bdk_wallet",
      "title": "3 commits to bitcoindevkit/bdk_wallet",
      "url": "https://github.com/bitcoindevkit/bdk_wallet/commits?author=noahjoeris&since=2026-05-20T00:00:00Z&until=2026-05-20T23:59:59Z",
      "occurred_at": "2026-05-20T07:00:00Z",
      "thread_id": "bitcoindevkit/bdk_wallet:commits:2026-05-20T07:00:00Z",
      "thread_title": "3 commits to bitcoindevkit/bdk_wallet",
      "thread_url": "https://github.com/bitcoindevkit/bdk_wallet/commits?author=noahjoeris&since=2026-05-20T00:00:00Z&until=2026-05-20T23:59:59Z",
      "status": ""
    },
    {
      "id": "pr-1",
      "event_type": "pull_request",
      "repo": "wizardsardine/bhwi",
      "title": "Support \"quoted\" <names> & more",
      "url": "https://github.com/wizardsardine/bhwi/pull/12",
      "occurred_at": "2026-05-12T08:00:00Z",
      "thread_id": "wizardsardine/bhwi#12",
      "thread_title": "Support \"quoted\" <names> & more",
      "thread_url": "https://github.com/wizardsardine/bhwi/pull/12",
      "status": "OPEN"
    },
    {
      "id": "review-1",
      "event_type": "review",
      "repo": "wizardsardine/bhwi",
      "title": "Reviewed Add tests",
      "url": "https://github.com/wizardsardine/bhwi/pull/11#pullrequestreview-1",
      "occurred_at": "2026-05-12T09:30:00Z",
      "thread_id": "wizardsardine/bhwi#11",
      "thread_title": "Add tests",
      "thread_url": "https://github.com/wizardsardine/bhwi/pull/11",
      "status": "APPROVED"
    }
  ]
}
"#;

#[test]
fn feed_round_trip_fixture() {
    let feed = Feed::from_json(FIXTURE).unwrap();
    assert!(feed.events.len() >= 3);
    assert!(feed
        .events
        .iter()
        .any(|event| event.event_type == "commit" && event.url.contains("/commits?author=")));
    let reparsed = parse_json(&feed.to_json()).unwrap();
    assert_eq!(
        reparsed.get("username").and_then(Json::string),
        Some("noahjoeris")
    );
    assert_eq!(feed.to_json(), FIXTURE);
}

#[test]
fn validates_feed_fixture() {
    validate_feed_cmd(FIXTURE).unwrap();
}

#[test]
fn renders_static_page() {
    let cfg = Config {
        username: "noahjoeris".into(),
        title: "Bitcoin FOSS Contributions".into(),
        base_path: "/btc_foss/".into(),
        site_root: "https://noahjoeris.github.io".into(),
        bootstrap_months: 24,
        allowlist_orgs: NameSet::from_vec(vec!["rust-bitcoin".into(), "bitcoindevkit".into()]),
        allowlist: NameSet::new(),
        keywords: vec!["bitcoin".into()],
        exclude: NameSet::new(),
    };
    let feed = Feed::from_json(FIXTURE).unwrap();
    let html = render_html(&cfg, &feed);
    assert!(html.contains("data-theme=\"bitcoin\""));
    assert!(html.contains("/btc_foss/theme-bitcoin.css"));
    assert!(html.contains("<span>commits</span>"));
    assert!(html.contains("<span>pull requests</span>"));
    assert!(html.contains("feed.json"));
    assert!(html.contains("wizardsardine/bhwi"));
    assert!(html.contains("bitcoindevkit/bdk_wallet"));
}

#[test]
fn renders_the_whole_page() {
    let cfg = Config {
        username: "noahjoeris".into(),
        title: "A <b> & c".into(),
        base_path: "/btc_foss/".into(),
        site_root: "https://noahjoeris.github.io//".into(),
        ..Config::default()
    };
    let feed = Feed::from_json(FIXTURE).unwrap();
    let expected = r##"<!DOCTYPE html>
<html lang="en" data-theme="bitcoin"><head><meta charset="UTF-8">
<meta name="viewport" content="width=device-width, initial-scale=1">
<link rel="icon" type="image/svg+xml" href="https://upload.wikimedia.org/wikipedia/commons/4/46/Bitcoin.svg">
<link rel="canonical" href="https://noahjoeris.github.io/btc_foss/">
<link rel="stylesheet" href="/btc_foss/theme-bitcoin.css">
<link rel="stylesheet" href="/btc_foss/btc_foss.css">
<title>A &lt;b&gt; &amp; c</title></head><body>
<header><div class="markdown-heading"><h1 class="heading-element">noahjoeris</h1></div><p><a href="https://github.com/noahjoeris">GitHub</a><a href="/btc_foss/feed.json">Feed JSON</a></p></header>
<main class="btc-page">
<h1><img class="btc-logo" src="https://upload.wikimedia.org/wikipedia/commons/4/46/Bitcoin.svg" alt="Bitcoin">A &lt;b&gt; &amp; c</h1>
<p class="btc-muted">Public GitHub activity for <a href="https://github.com/noahjoeris">noahjoeris</a>. Updated <time datetime="2026-05-27T11:10:47Z">2026-05-27T11:10:47Z</time>. <a href="/btc_foss/feed.json">feed.json</a></p>
<section class="btc-stats" aria-label="Contribution summary">
<div><strong>3</strong><span>Events</span></div>
<div><strong>2</strong><span>Repos</span></div>
<div><strong>1</strong><span>commits</span></div>
<div><strong>1</strong><span>pull requests</span></div>
<div><strong>1</strong><span>reviews</span></div>
</section>
<form class="btc-filters" id="btc-filters">
<label>Repository<select name="repo"><option value="">All</option>
<option value="bitcoindevkit/bdk_wallet">bitcoindevkit/bdk_wallet</option>
<option value="wizardsardine/bhwi">wizardsardine/bhwi</option>
</select></label>
<label>Type<select name="type"><option value="">All</option>
<option value="commit">commit</option>
<option value="pull_request">pull_request</option>
<option value="review">review</option>
</select></label>
<label>Year<select name="year"><option value="">All</option>
<option value="2026">2026</option>
</select></label>
<a class="btc-reset" href="/btc_foss/">Reset</a></form>
<div class="btc-timeline" id="btc-timeline">
<details class="btc-thread" data-repo="bitcoindevkit/bdk_wallet" data-type="commit" data-year="2026">
<summary><span class="btc-icon">●</span><span class="btc-row-title"><a href="https://github.com/bitcoindevkit/bdk_wallet/commits?author=noahjoeris&amp;since=2026-05-20T00:00:00Z&amp;until=2026-05-20T23:59:59Z">3 commits to bitcoindevkit/bdk_wallet</a></span><span class="btc-row-repo">bitcoindevkit/bdk_wallet</span><time class="btc-row-date" datetime="2026-05-20T07:00:00Z">2026-05-20</time><span class="btc-row-kind">commit</span></summary>
<div class="btc-thread-detail">
<ul>
<li data-type="commit" data-title="3 commits to bitcoindevkit/bdk_wallet" data-url="https://github.com/bitcoindevkit/bdk_wallet/commits?author=noahjoeris&amp;since=2026-05-20T00:00:00Z&amp;until=2026-05-20T23:59:59Z"><span class="btc-detail-icon">●</span><time datetime="2026-05-20T07:00:00Z">2026-05-20</time> <span class="btc-kind">commit</span> <a href="https://github.com/bitcoindevkit/bdk_wallet/commits?author=noahjoeris&amp;since=2026-05-20T00:00:00Z&amp;until=2026-05-20T23:59:59Z">3 commits to bitcoindevkit/bdk_wallet</a></li>
</ul></div></details>
<details class="btc-thread" data-repo="wizardsardine/bhwi" data-type="mixed" data-year="2026">
<summary><span class="btc-icon">⋯</span><span class="btc-row-title"><span class="btc-row-title-text">2 activities</span></span><span class="btc-row-repo">wizardsardine/bhwi</span><time class="btc-row-date" datetime="2026-05-12T09:30:00Z">2026-05-12</time><span class="btc-row-kind">mixed</span></summary>
<div class="btc-thread-detail">
<ul>
<li data-type="review" data-title="Reviewed Add tests" data-url="https://github.com/wizardsardine/bhwi/pull/11#pullrequestreview-1"><span class="btc-detail-icon">✓</span><time datetime="2026-05-12T09:30:00Z">2026-05-12</time> <span class="btc-kind">review</span> <a href="https://github.com/wizardsardine/bhwi/pull/11#pullrequestreview-1">Reviewed Add tests</a> <span class="btc-status">APPROVED</span></li>
<li data-type="pull_request" data-title="Support &quot;quoted&quot; &lt;names&gt; &amp; more" data-url="https://github.com/wizardsardine/bhwi/pull/12"><span class="btc-detail-icon">⑂</span><time datetime="2026-05-12T08:00:00Z">2026-05-12</time> <span class="btc-kind">pull request</span> <a href="https://github.com/wizardsardine/bhwi/pull/12">Support "quoted" &lt;names&gt; &amp; more</a> <span class="btc-status">OPEN</span></li>
</ul></div></details>
</div></main><footer><p><a href="https://github.com/noahjoeris">noahjoeris</a> - <a href="/btc_foss/feed.json">feed.json</a></p></footer>
<script defer src="/btc_foss/btc_foss.js"></script>
</body></html>
"##;
    assert_eq!(render_html(&cfg, &feed), expected);
}
