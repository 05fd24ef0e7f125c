use btc_foss::config::Config;
use btc_foss::names::NameSet;
use btc_foss::rules::{comment_search_scopes, repo_allowed, repo_owner_allowed, validate_cmd};
use btc_foss::toml::{logical_toml_lines, parse_toml_array, parse_toml_string};

fn names(set: &NameSet) -> Vec<String> {
    (0..set.len()).map(|i| set.get(i).to_string()).collect()
}

#[test]
fn reads_a_configuration() {
    let raw = r#"
# The site.
username = "noahjoeris" # the user
title = "A \"title\" \\ here"
[table]
site_root="https://example.org"
  base_path =   "/x/"
bootstrap_months = 24
allowlist_orgs = ["rust-bitcoin", "bitcoindevkit", "rust-bitcoin"]
allowlist = [
  "bitcoin/bitcoin",

  "a/\"b",
]
keywords = ["Bitcoin", "bip", "Bitcoin"]
exclude = []
unknown = whatever
no value here
"#;
    let cfg = Config::from_toml(raw).unwrap();
    assert_eq!(cfg.username, "noahjoeris");
    assert_eq!(cfg.title, "A \"title\" \\ here");
    assert_eq!(cfg.site_root, "https://example.org");
    assert_eq!(cfg.base_path, "/x/");
    assert_eq!(cfg.bootstrap_months, 24);
    assert_eq!(names(&cfg.allowlist_orgs), vec!["bitcoindevkit", "rust-bitcoin"]);
    assert_eq!(names(&cfg.allowlist), vec!["a/\"b", "bitcoin/bitcoin"]);
    assert_eq!(cfg.keywords, vec!["Bitcoin", "bip", "Bitcoin"]);
    assert!(cfg.exclude.is_empty());
}

#[test]
fn starts_from_defaults() {
    let cfg = Config::from_toml("username = \"u\"").unwrap();
    assert_eq!(cfg.title, "Bitcoin FOSS Contributions");
    assert_eq!(cfg.base_path, "/btc_foss/");
    assert_eq!(cfg.site_root, "https://noahjoeris.github.io");
    assert_eq!(cfg.bootstrap_months, 5);
    assert!(cfg.allowlist.is_empty() && cfg.allowlist_orgs.is_empty() && cfg.exclude.is_empty());
    assert!(cfg.keywords.is_empty());
    let blank = Config::default();
    assert_eq!(blank.username, "");
    assert_eq!(blank.bootstrap_months, 0);
}

#[test]
fn the_last_setting_counts() {
    let cfg = Config::from_toml("username = \"a\"\nusername = \"b\"").unwrap();
    assert_eq!(cfg.username, "b");
}

#[test]
fn tells_what_is_wrong_with_a_configuration() {
    let error = |raw: &str| Config::from_toml(raw).unwrap_err();
    assert_eq!(error(""), "config/site.toml must set username");
    assert_eq!(error("username = \"\""), "config/site.toml must set username");
    assert_eq!(error("username = bare"), "expected TOML string, got bare");
    assert_eq!(error("username = \""), "expected TOML string, got \"");
    assert_eq!(error("bootstrap_months = \"5\""), "invalid bootstrap_months");
    assert_eq!(error("bootstrap_months = 9223372036854775808"), "invalid bootstrap_months");
    assert_eq!(error("keywords = \"a\""), "expected TOML string array, got \"a\"");
    assert_eq!(
        error("exclude = [\n\"a\""),
        "expected TOML string array, got [ \"a\""
    );
    // The first error counts.
    assert_eq!(error("title = x\nusername = y"), "expected TOML string, got x");
    // A number sign starts a comment, in quotes too.
    assert_eq!(error("username = \"a#b\""), "expected TOML string, got \"a");
}

#[test]
fn joins_the_lines_of_arrays() {
    assert_eq!(
        logical_toml_lines("  a = 1 \n\n b = [\n 1,\n\n 2 ] \nc = [3]\nd [\ne = [\nx"),
        vec!["a = 1", "b = [ 1,  2 ]", "c = [3]", "d [", "e = [ x"]
    );
    assert!(logical_toml_lines(" \n\t\n").is_empty());
}

#[test]
fn reads_strings_and_arrays() {
    assert_eq!(parse_toml_string(" \"a\\nb\" ").unwrap(), "a\nb");
    assert_eq!(parse_toml_string("\"\"").unwrap(), "");
    assert!(parse_toml_string("\"").is_err());
    assert!(parse_toml_string("a\"").is_err());
    assert!(parse_toml_array(" [] ").unwrap().is_empty());
    assert_eq!(
        parse_toml_array(r#"[ "a", 1, "b\"\\\n" "", "open ]"#).unwrap(),
        vec!["a", "b\"\\n", ""]
    );
    assert!(parse_toml_array("[").is_err());
    assert!(parse_toml_array("]").is_err());
    assert!(parse_toml_array("").is_err());
    assert_eq!(parse_toml_array("[\"a\\").unwrap_err(), "expected TOML string array, got [\"a\\");
}

#[test]
fn checks_a_configuration() {
    assert_eq!(validate_cmd("username = \"u\""), Ok(()));
    assert_eq!(validate_cmd("username = \"u\"\nbase_path = \"/\""), Ok(()));
    for path in ["", "x/", "/x", "x"] {
        assert_eq!(
            validate_cmd(&format!("username = \"u\"\nbase_path = \"{path}\"")),
            Err("base_path must start and end with '/'".to_string())
        );
    }
    assert_eq!(validate_cmd(""), Err("config/site.toml must set username".to_string()));
}

#[test]
fn owners_match_in_any_case() {
    let cfg = Config {
        allowlist_orgs: NameSet::from_vec(vec!["BitcoinDevKit".into(), "\u{c9}x".into()]),
        ..Config::default()
    };
    assert!(repo_owner_allowed(&cfg, "bitcoindevkit/x"));
    assert!(repo_owner_allowed(&cfg, "BITCOINDEVKIT/"));
    assert!(!repo_owner_allowed(&cfg, "bitcoindevkit"));
    assert!(!repo_owner_allowed(&cfg, "a/bitcoindevkit"));
    assert!(repo_owner_allowed(&cfg, "\u{c9}X/y"));
    assert!(!repo_owner_allowed(&cfg, "\u{e9}x/y"));
}

#[test]
fn every_allowed_repository_has_a_scope() {
    let cfg = Config {
        allowlist_orgs: NameSet::from_vec(vec!["b".into(), "a".into()]),
        allowlist: NameSet::from_vec(vec!["z/q".into(), "A/q".into(), "plain".into()]),
        exclude: NameSet::from_vec(vec!["a/x".into(), "z/q".into()]),
        ..Config::default()
    };
    assert_eq!(
        names(&comment_search_scopes(&cfg)),
        vec!["org:a", "org:b", "repo:plain", "repo:z/q"]
    );
    assert!(repo_allowed(&cfg, "plain"));
    assert!(repo_allowed(&cfg, "A/q"));
    assert!(!repo_allowed(&cfg, "z/q"));
    assert!(!repo_allowed(&cfg, "a/x"));
}

#[test]
fn name_sets_are_sorted_and_without_doubles() {
    let mut set = NameSet::from_vec(vec!["b".into(), "a".into(), "b".into(), "\u{e9}".into()]);
    assert_eq!(names(&set), vec!["a", "b", "\u{e9}"]);
    set.insert("ab");
    set.insert("a");
    assert_eq!(names(&set), vec!["a", "ab", "b", "\u{e9}"]);
    let other = NameSet::from_vec(vec!["c".into(), "ab".into()]);
    set.extend(&other);
    assert_eq!(names(&set), vec!["a", "ab", "b", "c", "\u{e9}"]);
    assert!(set.contains("c") && !set.contains("d"));
    assert!(NameSet::new().is_empty() && NameSet::default().is_empty());
}

#[test]
fn escaped_strings_are_read_back() {
    let escape = |s: &str| s.replace('\\', "\\\\").replace('"', "\\\"");
    let items = ["", "plain", "a \"b\"", "c:\\d", "\\\\\"\\", "x, [y]", "line\nbreak", "\\\""];
    for item in items {
        let quoted = format!("\"{}\"", escape(item));
        assert_eq!(parse_toml_string(&quoted).unwrap(), item);
        assert_eq!(parse_toml_array(&format!("[{quoted}]")).unwrap(), vec![item]);
    }
    let list: Vec<String> = items.iter().map(|item| format!("\"{}\"", escape(item))).collect();
    assert_eq!(parse_toml_array(&format!("[{}]", list.join(", "))).unwrap(), items);
    // A backslash before an `n` comes back in an array, but not in a string.
    let quoted = format!("\"{}\"", escape("a\\nb"));
    assert_eq!(parse_toml_array(&format!("[{quoted}]")).unwrap(), vec!["a\\nb"]);
    assert_eq!(parse_toml_string(&quoted).unwrap(), "a\\\nb");
}

#[test]
fn joining_the_lines_of_arrays_drops_only_white_space() {
    let unspaced = |s: &str| s.chars().filter(|c| !c.is_whitespace()).collect::<String>();
    for raw in [
        "",
        " \n\t\r\n",
        "a = 1\r\n\r\nb = [\r\n  \"x y\",\n\n \"z\" ]\nc\n",
        "open = [\n1,\n\n2",
        "[t]\nx = [1]\ny = [\n]\n]\n",
        "\u{a0}k = [\u{3000}\nv\u{2003}w\n]",
    ] {
        let lines = logical_toml_lines(raw);
        assert_eq!(unspaced(&lines.concat()), unspaced(raw));
        assert!(lines.iter().all(|line| !line.is_empty()));
    }
}
