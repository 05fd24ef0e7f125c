//! The command line.

use crate::text;
use crate::text::{owned, same_text};
use vstd::prelude::*;

verus! {

/// What the program is asked to do.
#[derive(Clone, Copy, Debug, PartialEq, Eq, Structural)]
pub enum Command {
    Collect,
    Render,
    Validate,
    ValidateFeed,
    Fixture,
}

/// The command of a name.
pub open spec fn named_command(name: Seq<char>) -> Option<Command> {
    if name == "collect"@ {
        Some(Command::Collect)
    } else if name == "render"@ {
        Some(Command::Render)
    } else if name == "validate"@ {
        Some(Command::Validate)
    } else if name == "validate-feed"@ {
        Some(Command::ValidateFeed)
    } else if name == "fixture"@ {
        Some(Command::Fixture)
    } else {
        None
    }
}

/// How the program is used.
pub const USAGE: &'static str = "usage: btc-contribs <collect|render|validate|validate-feed|fixture> [--config PATH] [--feed PATH] [--state PATH] [--out PATH]";

/// The error that tells how the program is used.
pub fn usage() -> (out: Result<(), String>)
    ensures
        out matches Err(e) && e@ == USAGE@,
{
    Err(owned(USAGE))
}

/// The command that arguments ask for, by the first of them. Without one, or with another
/// one, the error tells how the program is used.
pub fn parse_command(args: &[String]) -> (out: Result<Command, String>)
    ensures
        match out {
            Ok(c) => args@.len() > 0 && named_command(args@[0]@) == Some(c),
            Err(e) => (args@.len() == 0 || named_command(args@[0]@) is None) && e@ == USAGE@,
        },
{
    if args.len() == 0 {
        return Err(owned(USAGE));
    }
    let name = args[0].as_str();
    if same_text(name, "collect") {
        Ok(Command::Collect)
    } else if same_text(name, "render") {
        Ok(Command::Render)
    } else if same_text(name, "validate") {
        Ok(Command::Validate)
    } else if same_text(name, "validate-feed") {
        Ok(Command::ValidateFeed)
    } else if same_text(name, "fixture") {
        Ok(Command::Fixture)
    } else {
        Err(owned(USAGE))
    }
}

// ---------------------------------------------------------------------------
// Flags
// ---------------------------------------------------------------------------

/// What follows the first argument of a name.
pub open spec fn flag_value(args: Seq<Seq<char>>, name: Seq<char>) -> Option<Seq<char>>
    decreases args.len(),
{
    if args.len() < 2 {
        None
    } else if args[0] == name {
        Some(args[1])
    } else {
        flag_value(args.skip(1), name)
    }
}

/// What follows the first argument of a name.
pub fn flag(args: &[String], name: &str) -> (out: Option<String>)
    ensures
        match out {
            Some(s) => flag_value(text::texts(args@), name@) == Some(s@),
            None => flag_value(text::texts(args@), name@) is None,
        },
{
    let ghost all = text::texts(args@);
    assert(all.skip(0) =~= all);
    let mut i: usize = 0;
    while i < args.len() && args.len() - i >= 2
        invariant
            i <= args@.len(),
            all == text::texts(args@),
            flag_value(all.skip(i as int), name@) == flag_value(all, name@),
        decreases args.len() - i,
    {
        assert(all.skip(i as int)[0] == args@[i as int]@);
        assert(all.skip(i as int)[1] == args@[i + 1]@);
        assert(all.skip(i as int).skip(1) =~= all.skip(i + 1));
        if same_text(args[i].as_str(), name) {
            return Some(owned(args[i + 1].as_str()));
        }
        i += 1;
    }
    None
}

/// What follows the first argument of a name, or a text in place of it.
pub open spec fn flag_or(args: Seq<Seq<char>>, name: Seq<char>, default: Seq<char>) -> Seq<char> {
    match flag_value(args, name) {
        Some(s) => s,
        None => default,
    }
}

fn flag_with_default(args: &[String], name: &str, default: &str) -> (out: String)
    ensures
        out@ == flag_or(text::texts(args@), name@, default@),
{
    match flag(args, name) {
        Some(s) => s,
        None => owned(default),
    }
}

// ---------------------------------------------------------------------------
// Options
// ---------------------------------------------------------------------------

/// The options of a collection.
#[derive(Debug)]
pub struct CollectOptions {
    pub config_path: String,
    pub state_path: String,
    pub out_path: String,
    pub candidates_path: String,
    pub full: bool,
}

/// Whether the environment asks for a full collection.
pub open spec fn asks_full(variable: Option<Seq<char>>) -> bool {
    variable == Some("1"@) || variable == Some("true"@)
}

/// The options of a collection. It is full where a flag or the environment asks for it.
pub fn collect_options(args: &[String], full_variable: Option<&str>) -> (out: CollectOptions)
    ensures
        ({
            let a = text::texts(args@);
            &&& out.config_path@ == flag_or(a, "--config"@, "config/site.toml"@)
            &&& out.state_path@ == flag_or(a, "--state"@, ".cache/feed.json"@)
            &&& out.out_path@ == flag_or(a, "--out"@, "public/feed.json"@)
            &&& out.candidates_path@ == flag_or(a, "--candidates"@, ".cache/candidates.md"@)
            &&& out.full == (a.contains("--full"@) || asks_full(
                match full_variable {
                    Some(v) => Some(v@),
                    None => None,
                },
            ))
        }),
{
    let ghost a = text::texts(args@);
    let mut full = match full_variable {
        Some(v) => same_text(v, "1") || same_text(v, "true"),
        None => false,
    };
    let ghost asked = full;
    for i in 0..args.len()
        invariant
            a == text::texts(args@),
            full == (asked || exists|j: int| 0 <= j < i && #[trigger] a[j] == "--full"@),
    {
        assert(a[i as int] == args@[i as int]@);
        if same_text(args[i].as_str(), "--full") {
            full = true;
        }
    }
    CollectOptions {
        config_path: flag_with_default(args, "--config", "config/site.toml"),
        state_path: flag_with_default(args, "--state", ".cache/feed.json"),
        out_path: flag_with_default(args, "--out", "public/feed.json"),
        candidates_path: flag_with_default(args, "--candidates", ".cache/candidates.md"),
        full,
    }
}

/// The options of a rendering.
#[derive(Debug)]
pub struct RenderOptions {
    pub config_path: String,
    pub feed_path: String,
    pub out_dir: String,
}

/// The options of a rendering.
pub fn render_options(args: &[String]) -> (out: RenderOptions)
    ensures
        out.config_path@ == flag_or(text::texts(args@), "--config"@, "config/site.toml"@),
        out.feed_path@ == flag_or(text::texts(args@), "--feed"@, "public/feed.json"@),
        out.out_dir@ == flag_or(text::texts(args@), "--out"@, "public"@),
{
    RenderOptions {
        config_path: flag_with_default(args, "--config", "config/site.toml"),
        feed_path: flag_with_default(args, "--feed", "public/feed.json"),
        out_dir: flag_with_default(args, "--out", "public"),
    }
}

/// The path of the configuration that is checked.
pub fn validate_path(args: &[String]) -> (out: String)
    ensures
        out@ == flag_or(text::texts(args@), "--config"@, "config/site.toml"@),
{
    flag_with_default(args, "--config", "config/site.toml")
}

/// The path of the feed that is checked.
pub fn validate_feed_path(args: &[String]) -> (out: String)
    ensures
        out@ == flag_or(text::texts(args@), "--feed"@, "public/feed.json"@),
{
    flag_with_default(args, "--feed", "public/feed.json")
}

/// The arguments with which the fixture is rendered.
pub open spec fn fixture_args(args: Seq<Seq<char>>) -> Seq<Seq<char>> {
    seq![
        "--config"@,
        flag_or(args, "--config"@, "config/site.toml"@),
        "--feed"@,
        flag_or(args, "--feed"@, "fixtures/feed.json"@),
        "--out"@,
        flag_or(args, "--out"@, "public"@),
    ]
}

/// The arguments with which the fixture is rendered.
pub fn fixture_cmd(args: &[String]) -> (out: Vec<String>)
    ensures
        text::texts(out@) == fixture_args(text::texts(args@)),
{
    let mut out: Vec<String> = Vec::new();
    out.push(owned("--config"));
    out.push(flag_with_default(args, "--config", "config/site.toml"));
    out.push(owned("--feed"));
    out.push(flag_with_default(args, "--feed", "fixtures/feed.json"));
    out.push(owned("--out"));
    out.push(flag_with_default(args, "--out", "public"));
    assert(text::texts(out@) =~= fixture_args(text::texts(args@)));
    out
}

// ---------------------------------------------------------------------------
// Laws
// ---------------------------------------------------------------------------

/// Each command has its name, and other names have none.
pub proof fn lemma_commands(name: Seq<char>)
    ensures
        named_command("collect"@) == Some(Command::Collect),
        named_command("render"@) == Some(Command::Render),
        named_command("validate"@) == Some(Command::Validate),
        named_command("validate-feed"@) == Some(Command::ValidateFeed),
        named_command("fixture"@) == Some(Command::Fixture),
        name != "collect"@ && name != "render"@ && name != "validate"@ && name
            != "validate-feed"@ && name != "fixture"@ ==> named_command(name) is None,
{
    reveal_strlit("collect");
    reveal_strlit("render");
    reveal_strlit("validate");
    reveal_strlit("validate-feed");
    reveal_strlit("fixture");
    assert("collect"@.len() == 7 && "collect"@[0] == 'c');
    assert("render"@.len() == 6);
    assert("validate"@.len() == 8);
    assert("validate-feed"@.len() == 13);
    assert("fixture"@.len() == 7 && "fixture"@[0] == 'f');
}

/// A flag has the value that stands behind its first occurrence, wherever that is, and none
/// where the flag does not occur or stands last.
pub proof fn lemma_flag_value(
    before: Seq<Seq<char>>,
    name: Seq<char>,
    value: Seq<char>,
    after: Seq<Seq<char>>,
)
    requires
        !before.contains(name),
    ensures
        flag_value(before + (seq![name, value] + after), name) == Some(value),
        flag_value(before, name) is None,
        flag_value(before.push(name), name) is None,
    decreases before.len(),
{
    let all = before + (seq![name, value] + after);
    if before.len() > 0 {
        let rest = before.skip(1);
        assert(before.contains(before[0]));
        assert(!rest.contains(name)) by {
            if rest.contains(name) {
                let i = choose|i: int| 0 <= i < rest.len() && rest[i] == name;
                assert(before[i + 1] == name);
            }
        }
        lemma_flag_value(rest, name, value, after);
        assert(all.skip(1) =~= rest + (seq![name, value] + after));
        assert(before.push(name).skip(1) =~= rest.push(name));
    } else {
        assert(all[0] == name && all[1] == value);
    }
}

/// Where a flag is not given, its default counts.
pub proof fn lemma_flag_default(
    before: Seq<Seq<char>>,
    name: Seq<char>,
    value: Seq<char>,
    after: Seq<Seq<char>>,
    default: Seq<char>,
)
    requires
        !before.contains(name),
    ensures
        flag_or(before + (seq![name, value] + after), name, default) == value,
        flag_or(before, name, default) == default,
{
    lemma_flag_value(before, name, value, after);
}

/// A full collection is asked for by `1` and by `true`, and by nothing else.
pub proof fn lemma_asks_full(value: Seq<char>)
    ensures
        asks_full(Some(value)) <==> value == "1"@ || value == "true"@,
        !asks_full(None),
{
}

/// The fixture is rendered with the given paths, or else with the configuration of the site,
/// the feed of the fixture and the public directory.
pub proof fn lemma_fixture_args(args: Seq<Seq<char>>)
    ensures
        flag_or(fixture_args(args), "--config"@, ""@) == flag_or(
            args,
            "--config"@,
            "config/site.toml"@,
        ),
        fixture_args(args).len() == 6,
        fixture_args(args)[0] == "--config"@,
        fixture_args(args)[1] == flag_or(args, "--config"@, "config/site.toml"@),
        fixture_args(args)[2] == "--feed"@,
        fixture_args(args)[3] == flag_or(args, "--feed"@, "fixtures/feed.json"@),
        fixture_args(args)[4] == "--out"@,
        fixture_args(args)[5] == flag_or(args, "--out"@, "public"@),
{
}

} // verus!
