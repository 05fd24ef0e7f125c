//! The configuration of the site and its rules on repositories.

use crate::decimal;
use crate::decimal::parse_i64;
use crate::names;
use crate::names::NameSet;
use crate::text;
use crate::text::{
    before_first, owned, same_text, split_once, starts_with, trim,
};
use crate::toml;
use crate::toml::{logical_toml_lines, parse_toml_array, parse_toml_string};
use vstd::prelude::*;

verus! {

/// What the site is made of and which repositories it takes.
#[derive(Debug)]
pub struct Config {
    pub username: String,
    pub title: String,
    pub base_path: String,
    pub site_root: String,
    pub bootstrap_months: i64,
    pub allowlist_orgs: NameSet,
    pub allowlist: NameSet,
    pub keywords: Vec<String>,
    pub exclude: NameSet,
}

/// The mathematical value of a configuration. Its sets are lists in ascending order.
#[verifier::ext_equal]
pub struct ConfigModel {
    pub username: Seq<char>,
    pub title: Seq<char>,
    pub base_path: Seq<char>,
    pub site_root: Seq<char>,
    pub bootstrap_months: int,
    pub allowlist_orgs: Seq<Seq<char>>,
    pub allowlist: Seq<Seq<char>>,
    pub keywords: Seq<Seq<char>>,
    pub exclude: Seq<Seq<char>>,
}

impl View for Config {
    type V = ConfigModel;

    open spec fn view(&self) -> ConfigModel {
        ConfigModel {
            username: self.username@,
            title: self.title@,
            base_path: self.base_path@,
            site_root: self.site_root@,
            bootstrap_months: self.bootstrap_months as int,
            allowlist_orgs: self.allowlist_orgs.listing(),
            allowlist: self.allowlist.listing(),
            keywords: text::texts(self.keywords@),
            exclude: self.exclude.listing(),
        }
    }
}

/// The configuration in which nothing is set.
pub open spec fn blank() -> ConfigModel {
    ConfigModel {
        username: ""@,
        title: ""@,
        base_path: ""@,
        site_root: ""@,
        bootstrap_months: 0,
        allowlist_orgs: seq![],
        allowlist: seq![],
        keywords: seq![],
        exclude: seq![],
    }
}

/// The configuration that a file starts from.
pub open spec fn initial() -> ConfigModel {
    ConfigModel {
        title: "Bitcoin FOSS Contributions"@,
        base_path: "/btc_foss/"@,
        site_root: "https://noahjoeris.github.io"@,
        bootstrap_months: 5,
        ..blank()
    }
}

impl Default for Config {
    fn default() -> (out: Config)
        ensures
            out@ == blank(),
            out.valid(),
    {
        let out = Config {
            username: owned(""),
            title: owned(""),
            base_path: owned(""),
            site_root: owned(""),
            bootstrap_months: 0,
            allowlist_orgs: NameSet::new(),
            allowlist: NameSet::new(),
            keywords: Vec::new(),
            exclude: NameSet::new(),
        };
        assert(out@ =~= blank());
        out
    }
}

// ---------------------------------------------------------------------------
// Reading
// ---------------------------------------------------------------------------

/// The key and the value of a line. A comment, a table header and a line without a value
/// have none.
pub open spec fn entry(line: Seq<char>) -> Option<(Seq<char>, Seq<char>)> {
    let content = text::trimmed(line.take(text::first_index(line, '#')));
    if content.len() == 0 || content[0] == '[' {
        None
    } else {
        match text::split_at_first(content, '=') {
            Some((key, value)) => Some((text::trimmed(key), text::trimmed(value))),
            None => None,
        }
    }
}

/// The configuration with one key set. Keys that it does not know change nothing.
pub open spec fn with_entry(c: ConfigModel, key: Seq<char>, value: Seq<char>) -> Result<
    ConfigModel,
    Seq<char>,
> {
    if key == "username"@ {
        match toml::toml_string(value) {
            Ok(s) => Ok(ConfigModel { username: s, ..c }),
            Err(e) => Err(e),
        }
    } else if key == "title"@ {
        match toml::toml_string(value) {
            Ok(s) => Ok(ConfigModel { title: s, ..c }),
            Err(e) => Err(e),
        }
    } else if key == "base_path"@ {
        match toml::toml_string(value) {
            Ok(s) => Ok(ConfigModel { base_path: s, ..c }),
            Err(e) => Err(e),
        }
    } else if key == "site_root"@ {
        match toml::toml_string(value) {
            Ok(s) => Ok(ConfigModel { site_root: s, ..c }),
            Err(e) => Err(e),
        }
    } else if key == "bootstrap_months"@ {
        match decimal::i64_value(value) {
            Some(n) => Ok(ConfigModel { bootstrap_months: n, ..c }),
            None => Err("invalid bootstrap_months"@),
        }
    } else if key == "allowlist_orgs"@ {
        match toml::toml_array(value) {
            Ok(v) => Ok(ConfigModel { allowlist_orgs: names::sorted_names(v), ..c }),
            Err(e) => Err(e),
        }
    } else if key == "allowlist"@ {
        match toml::toml_array(value) {
            Ok(v) => Ok(ConfigModel { allowlist: names::sorted_names(v), ..c }),
            Err(e) => Err(e),
        }
    } else if key == "keywords"@ {
        match toml::toml_array(value) {
            Ok(v) => Ok(ConfigModel { keywords: v, ..c }),
            Err(e) => Err(e),
        }
    } else if key == "exclude"@ {
        match toml::toml_array(value) {
            Ok(v) => Ok(ConfigModel { exclude: names::sorted_names(v), ..c }),
            Err(e) => Err(e),
        }
    } else {
        Ok(c)
    }
}

/// The configuration after a line.
pub open spec fn with_line(c: ConfigModel, line: Seq<char>) -> Result<ConfigModel, Seq<char>> {
    match entry(line) {
        Some((key, value)) => with_entry(c, key, value),
        None => Ok(c),
    }
}

/// The configuration after lines, or the first error among them.
pub open spec fn with_lines(c: ConfigModel, lines: Seq<Seq<char>>) -> Result<ConfigModel, Seq<char>>
    decreases lines.len(),
{
    if lines.len() == 0 {
        Ok(c)
    } else {
        match with_lines(c, lines.drop_last()) {
            Ok(front) => with_line(front, lines.last()),
            Err(e) => Err(e),
        }
    }
}

/// The configuration that a file holds.
pub open spec fn read_config(raw: Seq<char>) -> Result<ConfigModel, Seq<char>> {
    match with_lines(initial(), toml::logical(text::lines_of(raw))) {
        Ok(c) => if c.username.len() == 0 {
            Err("config/site.toml must set username"@)
        } else {
            Ok(c)
        },
        Err(e) => Err(e),
    }
}

/// What a result holds, seen as a value.
pub open spec fn config_outcome(out: Result<Config, String>) -> Result<ConfigModel, Seq<char>> {
    match out {
        Ok(c) => Ok(c@),
        Err(e) => Err(e@),
    }
}

/// An error stays the outcome, whatever lines follow.
proof fn lemma_error_stays(c: ConfigModel, lines: Seq<Seq<char>>, k: int)
    requires
        0 <= k <= lines.len(),
        with_lines(c, lines.take(k)) is Err,
    ensures
        with_lines(c, lines) == with_lines(c, lines.take(k)),
    decreases lines.len(),
{
    if k == lines.len() {
        assert(lines.take(k) =~= lines);
    } else {
        assert(lines.drop_last().take(k) =~= lines.take(k));
        lemma_error_stays(c, lines.drop_last(), k);
    }
}

/// Reads the key and the value of a line.
fn read_entry(line: &str) -> (out: Option<(String, String)>)
    ensures
        match out {
            Some((key, value)) => entry(line@) == Some((key@, value@)),
            None => entry(line@) is None,
        },
{
    let content = trim(before_first(line, '#').as_str());
    proof {
        reveal_strlit("[");
    }
    if content.as_str().is_empty() {
        return None;
    }
    if starts_with(content.as_str(), "[") {
        assert(content@[0] == "["@[0]);
        return None;
    }
    assert(content@[0] != '[') by {
        if content@[0] == '[' {
            assert("["@ =~= content@.subrange(0, 1));
        }
    }
    match split_once(content.as_str(), '=') {
        Some((key, value)) => Some((trim(key.as_str()), trim(value.as_str()))),
        None => None,
    }
}

impl Config {
    /// Whether the sets are in order.
    pub open spec fn valid(&self) -> bool {
        self.allowlist_orgs.valid() && self.allowlist.valid() && self.exclude.valid()
    }

    /// Sets one key.
    fn set(self, key: &str, value: &str) -> (out: Result<Config, String>)
        requires
            self.valid(),
        ensures
            config_outcome(out) == with_entry(self@, key@, value@),
            out matches Ok(c) ==> c.valid(),
    {
        let mut cfg = self;
        let ghost before = cfg@;
        if same_text(key, "username") {
            cfg.username = parse_toml_string(value)?;
            assert(cfg@ =~= (ConfigModel { username: cfg.username@, ..before }));
        } else if same_text(key, "title") {
            cfg.title = parse_toml_string(value)?;
            assert(cfg@ =~= (ConfigModel { title: cfg.title@, ..before }));
        } else if same_text(key, "base_path") {
            cfg.base_path = parse_toml_string(value)?;
            assert(cfg@ =~= (ConfigModel { base_path: cfg.base_path@, ..before }));
        } else if same_text(key, "site_root") {
            cfg.site_root = parse_toml_string(value)?;
            assert(cfg@ =~= (ConfigModel { site_root: cfg.site_root@, ..before }));
        } else if same_text(key, "bootstrap_months") {
            match parse_i64(value) {
                Some(n) => {
                    cfg.bootstrap_months = n;
                    assert(cfg@ =~= (ConfigModel { bootstrap_months: n as int, ..before }));
                },
                None => {
                    return Err(owned("invalid bootstrap_months"));
                },
            }
        } else if same_text(key, "allowlist_orgs") {
            let list = parse_toml_array(value)?;
            cfg.allowlist_orgs = NameSet::from_vec(list);
            assert(cfg@ =~= (ConfigModel {
                allowlist_orgs: cfg.allowlist_orgs.listing(),
                ..before
            }));
        } else if same_text(key, "allowlist") {
            let list = parse_toml_array(value)?;
            cfg.allowlist = NameSet::from_vec(list);
            assert(cfg@ =~= (ConfigModel { allowlist: cfg.allowlist.listing(), ..before }));
        } else if same_text(key, "keywords") {
            cfg.keywords = parse_toml_array(value)?;
            assert(cfg@ =~= (ConfigModel { keywords: text::texts(cfg.keywords@), ..before }));
        } else if same_text(key, "exclude") {
            let list = parse_toml_array(value)?;
            cfg.exclude = NameSet::from_vec(list);
            assert(cfg@ =~= (ConfigModel { exclude: cfg.exclude.listing(), ..before }));
        }
        Ok(cfg)
    }

    /// Reads the configuration that a file holds. The file must set a user name.
    pub fn from_toml(raw: &str) -> (out: Result<Config, String>)
        ensures
            config_outcome(out) == read_config(raw@),
            out matches Ok(c) ==> c.valid(),
    {
        let lines = logical_toml_lines(raw);
        let ghost all = toml::logical(text::lines_of(raw@));
        let mut cfg = Config::default();
        cfg.title = owned("Bitcoin FOSS Contributions");
        cfg.base_path = owned("/btc_foss/");
        cfg.site_root = owned("https://noahjoeris.github.io");
        cfg.bootstrap_months = 5;
        assert(cfg@ =~= initial());
        assert(all.take(0) =~= seq![]);
        for i in 0..lines.len()
            invariant
                text::texts(lines@) == all,
                cfg.valid(),
                all == toml::logical(text::lines_of(raw@)),
                with_lines(initial(), all.take(i as int)) == Ok::<_, Seq<char>>(cfg@),
        {
            assert(all[i as int] == lines@[i as int]@);
            assert(all.take(i + 1).drop_last() =~= all.take(i as int));
            if let Some((key, value)) = read_entry(lines[i].as_str()) {
                match cfg.set(key.as_str(), value.as_str()) {
                    Ok(next) => {
                        cfg = next;
                    },
                    Err(e) => {
                        proof {
                            lemma_error_stays(initial(), all, i + 1);
                        }
                        return Err(e);
                    },
                }
            }
        }
        assert(all.take(all.len() as int) =~= all);
        if cfg.username.as_str().is_empty() {
            return Err(owned("config/site.toml must set username"));
        }
        Ok(cfg)
    }
}

// ---------------------------------------------------------------------------
// Laws
// ---------------------------------------------------------------------------

/// Whether a list has the given names, each once and in ascending order.
pub open spec fn has_names(list: Seq<Seq<char>>, names: Seq<Seq<char>>) -> bool {
    names::ascending(list) && forall|x: Seq<char>| #[trigger]
        list.contains(x) <==> names.contains(x)
}

/// A key of names takes just the names of its array, and changes nothing else. The keywords
/// stay in the order of the array.
pub proof fn lemma_name_keys(c: ConfigModel, value: Seq<char>, v: Seq<Seq<char>>)
    requires
        toml::toml_array(value) == Ok::<Seq<Seq<char>>, Seq<char>>(v),
    ensures
        with_entry(c, "exclude"@, value) matches Ok(d) && has_names(d.exclude, v) && d == (
        ConfigModel { exclude: d.exclude, ..c }),
        with_entry(c, "allowlist"@, value) matches Ok(d) && has_names(d.allowlist, v) && d == (
        ConfigModel { allowlist: d.allowlist, ..c }),
        with_entry(c, "allowlist_orgs"@, value) matches Ok(d) && has_names(d.allowlist_orgs, v)
            && d == (ConfigModel { allowlist_orgs: d.allowlist_orgs, ..c }),
        with_entry(c, "keywords"@, value) matches Ok(d) && d.keywords == v && d == (ConfigModel {
            keywords: d.keywords,
            ..c
        }),
{
    lemma_keys_differ();
    names::lemma_sorted_names(v);
}

/// A key of a text takes the string, and changes nothing else.
pub proof fn lemma_text_keys(c: ConfigModel, value: Seq<char>, s: Seq<char>)
    requires
        toml::toml_string(value) == Ok::<Seq<char>, Seq<char>>(s),
    ensures
        with_entry(c, "username"@, value) == Ok::<ConfigModel, Seq<char>>(
            ConfigModel { username: s, ..c },
        ),
        with_entry(c, "title"@, value) == Ok::<ConfigModel, Seq<char>>(
            ConfigModel { title: s, ..c },
        ),
        with_entry(c, "base_path"@, value) == Ok::<ConfigModel, Seq<char>>(
            ConfigModel { base_path: s, ..c },
        ),
        with_entry(c, "site_root"@, value) == Ok::<ConfigModel, Seq<char>>(
            ConfigModel { site_root: s, ..c },
        ),
{
    lemma_keys_differ();
}

/// The number of months takes the integer, and changes nothing else.
pub proof fn lemma_months_key(c: ConfigModel, n: int)
    requires
        i64::MIN <= n <= i64::MAX,
    ensures
        with_entry(c, "bootstrap_months"@, decimal::signed_decimal(n)) == Ok::<
            ConfigModel,
            Seq<char>,
        >(ConfigModel { bootstrap_months: n, ..c }),
{
    lemma_keys_differ();
    decimal::lemma_signed_read_back(n);
}

/// A value of the wrong form is an error.
pub proof fn lemma_wrong_values(c: ConfigModel, key: Seq<char>, value: Seq<char>)
    ensures
        toml::toml_array(value) is Err && (key == "exclude"@ || key == "allowlist"@ || key
            == "allowlist_orgs"@ || key == "keywords"@) ==> with_entry(c, key, value) == Err::<
            ConfigModel,
            Seq<char>,
        >(toml::toml_array(value)->Err_0),
        toml::toml_string(value) is Err && (key == "username"@ || key == "title"@ || key
            == "base_path"@ || key == "site_root"@) ==> with_entry(c, key, value) == Err::<
            ConfigModel,
            Seq<char>,
        >(toml::toml_string(value)->Err_0),
        decimal::i64_value(value) is None ==> with_entry(c, "bootstrap_months"@, value) == Err::<
            ConfigModel,
            Seq<char>,
        >("invalid bootstrap_months"@),
        !known_key(key) ==> with_entry(c, key, value) == Ok::<ConfigModel, Seq<char>>(c),
{
    lemma_keys_differ();
}

/// Whether a key is one that a configuration may set.
pub open spec fn known_key(key: Seq<char>) -> bool {
    key == "username"@ || key == "title"@ || key == "base_path"@ || key == "site_root"@ || key
        == "bootstrap_months"@ || key == "allowlist_orgs"@ || key == "allowlist"@ || key
        == "keywords"@ || key == "exclude"@
}

/// The keys differ from each other.
proof fn lemma_keys_differ()
    ensures
        "username"@ != "title"@,
        "username"@ != "base_path"@,
        "username"@ != "site_root"@,
        "username"@ != "bootstrap_months"@,
        "username"@ != "allowlist_orgs"@,
        "username"@ != "allowlist"@,
        "username"@ != "keywords"@,
        "username"@ != "exclude"@,
        "title"@ != "base_path"@,
        "title"@ != "site_root"@,
        "title"@ != "bootstrap_months"@,
        "title"@ != "allowlist_orgs"@,
        "title"@ != "allowlist"@,
        "title"@ != "keywords"@,
        "title"@ != "exclude"@,
        "base_path"@ != "site_root"@,
        "base_path"@ != "bootstrap_months"@,
        "base_path"@ != "allowlist_orgs"@,
        "base_path"@ != "allowlist"@,
        "base_path"@ != "keywords"@,
        "base_path"@ != "exclude"@,
        "site_root"@ != "bootstrap_months"@,
        "site_root"@ != "allowlist_orgs"@,
        "site_root"@ != "allowlist"@,
        "site_root"@ != "keywords"@,
        "site_root"@ != "exclude"@,
        "bootstrap_months"@ != "allowlist_orgs"@,
        "bootstrap_months"@ != "allowlist"@,
        "bootstrap_months"@ != "keywords"@,
        "bootstrap_months"@ != "exclude"@,
        "allowlist_orgs"@ != "allowlist"@,
        "allowlist_orgs"@ != "keywords"@,
        "allowlist_orgs"@ != "exclude"@,
        "allowlist"@ != "keywords"@,
        "allowlist"@ != "exclude"@,
        "keywords"@ != "exclude"@,
{
    reveal_strlit("username");
    reveal_strlit("title");
    reveal_strlit("base_path");
    reveal_strlit("site_root");
    reveal_strlit("bootstrap_months");
    reveal_strlit("allowlist_orgs");
    reveal_strlit("allowlist");
    reveal_strlit("keywords");
    reveal_strlit("exclude");
    assert("username"@[0] == 'u' && "username"@.len() == 8);
    assert("title"@[0] == 't');
    assert("base_path"@[0] == 'b' && "base_path"@.len() == 9);
    assert("site_root"@[0] == 's');
    assert("bootstrap_months"@[0] == 'b' && "bootstrap_months"@.len() == 16);
    assert("allowlist_orgs"@[0] == 'a' && "allowlist_orgs"@.len() == 14);
    assert("allowlist"@[0] == 'a' && "allowlist"@.len() == 9);
    assert("keywords"@[0] == 'k');
    assert("exclude"@[0] == 'e');
}

/// A line with a key, an equals sign and a value sets the key to the value. White space
/// around them does not matter.
pub proof fn lemma_entry(key: Seq<char>, value: Seq<char>)
    requires
        key.len() > 0,
        key[0] != '[',
        !text::is_space(key[0]) && !text::is_space(key.last()),
        !key.contains('=') && !key.contains('#'),
        value.len() > 0,
        !text::is_space(value[0]) && !text::is_space(value.last()),
        !value.contains('#'),
    ensures
        entry(key + (seq![' '] + (seq!['='] + (seq![' '] + value)))) == Some((key, value)),
        entry(key + (seq!['='] + value)) == Some((key, value)),
{
    let blank = seq![' '];
    let none = Seq::<char>::empty();
    let wide = key + (blank + (seq!['='] + (blank + value)));
    let tight = key + (seq!['='] + value);
    assert(wide =~= (key + blank) + (seq!['='] + (blank + value)));
    lemma_content(key, blank, blank, value);
    lemma_content(key, none, none, value);
    assert(key + none =~= key);
    assert(none + value =~= value);
    text::lemma_trimmed(none, key, blank);
    text::lemma_trimmed(none, key, none);
    text::lemma_trimmed(blank, value, none);
    text::lemma_trimmed(none, value, none);
    assert(none + key + blank =~= key + blank);
    assert(none + key + none =~= key);
    assert(blank + value + none =~= blank + value);
    assert(none + value + none =~= value);
}

/// How a line is split.
proof fn lemma_content(key: Seq<char>, a: Seq<char>, b: Seq<char>, value: Seq<char>)
    requires
        key.len() > 0,
        key[0] != '[',
        !text::is_space(key[0]),
        !key.contains('=') && !key.contains('#'),
        value.len() > 0,
        !text::is_space(value.last()),
        !value.contains('#'),
        a == seq![' '] || a.len() == 0,
        b == seq![' '] || b.len() == 0,
    ensures
        entry((key + a) + (seq!['='] + (b + value))) == Some(
            (text::trimmed(key + a), text::trimmed(b + value)),
        ),
{
    let front = key + a;
    let back = b + value;
    let line = front + (seq!['='] + back);
    assert(!front.contains('=')) by {
        if front.contains('=') {
            let i = choose|i: int| 0 <= i < front.len() && front[i] == '=';
            if i < key.len() {
                assert(key[i] == '=');
            }
        }
    }
    assert(!line.contains('#')) by {
        if line.contains('#') {
            let i = choose|i: int| 0 <= i < line.len() && line[i] == '#';
            if i < key.len() {
                assert(key[i] == '#');
            } else if i >= front.len() + 1 + b.len() {
                assert(value[i - front.len() - 1 - b.len()] == '#');
            }
        }
    }
    text::lemma_split(line, '#', seq![]);
    assert(line.take(line.len() as int) =~= line);
    text::lemma_trimmed(seq![], line, seq![]);
    assert(line[0] == key[0] && line.last() == value.last());
    assert(Seq::<char>::empty() + line + Seq::<char>::empty() =~= line);
    text::lemma_split(front, '=', back);
}

/// What follows a number sign is a comment.
pub proof fn lemma_comment(line: Seq<char>, comment: Seq<char>)
    requires
        !line.contains('#'),
    ensures
        entry(line + (seq!['#'] + comment)) == entry(line),
        entry(seq!['#'] + comment) is None,
{
    let s = line + (seq!['#'] + comment);
    text::lemma_split(line, '#', comment);
    assert(s.take(line.len() as int) =~= line);
    assert(line.take(line.len() as int) =~= line);
    let none = Seq::<char>::empty();
    text::lemma_split(none, '#', comment);
    assert(none + (seq!['#'] + comment) =~= seq!['#'] + comment);
    assert((seq!['#'] + comment).take(0) =~= none);
    text::lemma_trimmed(none, none, none);
    assert(none + none + none =~= none);
}

/// Lines are read one after another: those of a second list from where the first one left
/// off.
pub proof fn lemma_lines_in_turn(c: ConfigModel, a: Seq<Seq<char>>, b: Seq<Seq<char>>)
    ensures
        with_lines(c, a + b) == match with_lines(c, a) {
            Ok(d) => with_lines(d, b),
            Err(e) => Err(e),
        },
        with_lines(c, seq![]) == Ok::<ConfigModel, Seq<char>>(c),
    decreases b.len(),
{
    if b.len() == 0 {
        assert(a + b =~= a);
    } else {
        lemma_lines_in_turn(c, a, b.drop_last());
        assert((a + b).drop_last() =~= a + b.drop_last());
    }
}

/// A line that sets a key has the effect of the key and the value, and a line that sets none
/// has no effect.
pub proof fn lemma_line(c: ConfigModel, line: Seq<char>)
    ensures
        match entry(line) {
            Some((key, value)) => with_lines(c, seq![line]) == with_entry(c, key, value),
            None => with_lines(c, seq![line]) == Ok::<ConfigModel, Seq<char>>(c),
        },
{
    reveal_with_fuel(with_lines, 2);
    assert(seq![line].drop_last() =~= seq![]);
}

/// A file is read line by line from the defaults on, and must set a user name.
pub proof fn lemma_read_config(raw: Seq<char>)
    ensures
        ({
            let start = ConfigModel {
                username: ""@,
                title: "Bitcoin FOSS Contributions"@,
                base_path: "/btc_foss/"@,
                site_root: "https://noahjoeris.github.io"@,
                bootstrap_months: 5,
                allowlist_orgs: seq![],
                allowlist: seq![],
                keywords: seq![],
                exclude: seq![],
            };
            match with_lines(start, toml::logical(text::lines_of(raw))) {
                Ok(c) => read_config(raw) == if c.username.len() > 0 {
                    Ok::<ConfigModel, Seq<char>>(c)
                } else {
                    Err("config/site.toml must set username"@)
                },
                Err(e) => read_config(raw) == Err::<ConfigModel, Seq<char>>(e),
            }
        }),
{
}

} // verus!
