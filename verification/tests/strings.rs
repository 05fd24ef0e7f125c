use btc_foss::calendar::short_date;
use btc_foss::feed::json_escape;
use btc_foss::html::{html, html_attr};
use btc_foss::json::{parse_json, Json};
use btc_foss::request::url_encode;
use btc_foss::text::{
    before_first, contains_char, contains_text, eq_ignore_ascii_case, lines, owned,
    prefix_of_bytes, replace_char, replace_pair, same_text, split_once, starts_with, strip_prefix,
    text_less, trim, trim_end_matches, trim_matches, Class,
};
use btc_foss::toml::unescape_json_string;

const SAMPLES: &[&str] = &[
    "",
    " ",
    "a",
    "A",
    "/",
    "//",
    "/a/",
    "a/b/c",
    "abc",
    "abd",
    "ab",
    "\u{a0} x \u{2003}",
    "line one\nline two\r\n\r\nlast",
    "ends with newline\n",
    "\n",
    "\r\n",
    "lone \r return",
    "\u{e9}t\u{e9} \u{1f600} \u{7ff}\u{800}\u{ffff}\u{10000}",
    "2026-05-27T11:10:47Z",
    "2026-05-2\u{e9}T",
    "\\\"\\n\\\\",
    "\\\\\\n",
    "a & b < c > d \" e ' f &amp;",
];

#[test]
fn white_space_is_that_of_char() {
    for code in 0..=0x10ffffu32 {
        if let Some(c) = char::from_u32(code) {
            assert_eq!(Class::Space.has(c), c.is_whitespace(), "{code:x}");
        }
    }
}

#[test]
fn trims_like_str() {
    for s in SAMPLES {
        assert_eq!(trim(s), s.trim());
        assert_eq!(trim_end_matches(s, Class::Only('/')), s.trim_end_matches('/'));
        assert_eq!(trim_matches(s, Class::Only('/')), s.trim_matches('/'));
    }
}

#[test]
fn splits_like_str() {
    for s in SAMPLES {
        assert_eq!(lines(s), s.lines().collect::<Vec<_>>());
        for c in ['/', 'b', '\n', '\u{e9}'] {
            assert_eq!(
                split_once(s, c),
                s.split_once(c).map(|(a, b)| (a.to_string(), b.to_string()))
            );
            assert_eq!(before_first(s, c), s.split(c).next().unwrap_or(""));
            assert_eq!(contains_char(s, c), s.contains(c));
        }
    }
}

#[test]
fn compares_like_str() {
    for a in SAMPLES {
        assert_eq!(owned(a), *a);
        for b in SAMPLES {
            assert_eq!(same_text(a, b), a == b);
            assert_eq!(text_less(a, b), a < b);
            assert_eq!(eq_ignore_ascii_case(a, b), a.eq_ignore_ascii_case(b));
            assert_eq!(contains_text(a, b), a.contains(b));
            assert_eq!(starts_with(a, b), a.starts_with(b));
            assert_eq!(
                strip_prefix(a, b),
                a.strip_prefix(b).map(|rest| rest.to_string())
            );
        }
    }
}

#[test]
fn replaces_like_str() {
    for s in SAMPLES {
        assert_eq!(replace_char(s, 'a', ' '), s.replace('a', " "));
        assert_eq!(replace_pair(s, '\\', '\\', '\\'), s.replace("\\\\", "\\"));
        assert_eq!(replace_pair(s, '/', '/', 'x'), s.replace("//", "x"));
        assert_eq!(
            unescape_json_string(s),
            s.replace("\\\"", "\"").replace("\\n", "\n").replace("\\\\", "\\")
        );
    }
    // A backslash that comes out of one replacement takes part in the next.
    assert_eq!(unescape_json_string(r"\\n"), "\\\n");
}

#[test]
fn takes_prefixes_of_bytes_like_str() {
    for s in SAMPLES {
        for n in 0..24 {
            assert_eq!(
                prefix_of_bytes(s, n),
                s.get(0..n).map(|p| p.to_string()),
                "{s:?} {n}"
            );
        }
        assert_eq!(short_date(s), s.get(0..10).unwrap_or(s));
    }
}

#[test]
fn escapes_markup() {
    for s in SAMPLES {
        let text = s.replace('&', "&amp;").replace('<', "&lt;").replace('>', "&gt;");
        assert_eq!(html(s), text);
        assert_eq!(html_attr(s), text.replace('"', "&quot;"));
        assert!(!html(s).contains('<') && !html(s).contains('>'));
        assert!(!html_attr(s).contains('"'));
    }
}

#[test]
fn encodes_queries() {
    assert_eq!(url_encode("aZ09-._~"), "aZ09-._~");
    assert_eq!(
        url_encode("org:a b/c\u{e9}\u{20ac}\u{1f600}"),
        "org%3Aa%20b%2Fc%C3%A9%E2%82%AC%F0%9F%98%80"
    );
    for s in SAMPLES {
        let mut expected = String::new();
        for b in s.bytes() {
            if b.is_ascii_alphanumeric() || matches!(b, b'-' | b'.' | b'_' | b'~') {
                expected.push(b as char);
            } else {
                expected.push_str(&format!("%{b:02X}"));
            }
        }
        assert_eq!(url_encode(s), expected);
        assert!(url_encode(s).chars().all(|c| c.is_ascii_alphanumeric() || "-._~%".contains(c)));
    }
}

#[test]
fn escapes_json_strings() {
    assert_eq!(
        json_escape("\" \\ \n \r \t \u{0} \u{1f} \u{7f} \u{9f} \u{a0} \u{e9}"),
        "\\\" \\\\ \\n \\r \\t \\u0000 \\u001f \\u007f \\u009f \u{a0} \u{e9}"
    );
    for code in 0..=0x10ffffu32 {
        if let Some(c) = char::from_u32(code) {
            let out = json_escape(&c.to_string());
            let kept = !c.is_control() && c != '"' && c != '\\';
            assert_eq!(out == c.to_string(), kept, "{code:x}");
        }
    }
}

#[test]
fn escaped_strings_read_back() {
    let mut all = String::new();
    for code in 0..=0x2ffffu32 {
        if let Some(c) = char::from_u32(code) {
            all.push(c);
        }
    }
    for s in SAMPLES.iter().copied().chain([all.as_str()]) {
        let text = format!("\"{}\"", json_escape(s));
        assert_eq!(parse_json(&text).unwrap().string(), Some(s));
    }
}

fn error_of(text: &str) -> String {
    match parse_json(text) {
        Ok(_) => panic!("{text:?} was read"),
        Err(e) => e,
    }
}

#[test]
fn reads_what_the_grammar_allows() {
    assert_eq!(
        parse_json("\"\\u00e9\\/\\b\\f\\ud83d!\"").unwrap().string(),
        Some("\u{e9}/\u{8}\u{c}!")
    );
    let twice = parse_json(r#"{"a": "x", "a": "y"}"#).unwrap();
    assert_eq!(twice.get("a").and_then(Json::string), Some("y"));
    assert!(matches!(parse_json(" null ").unwrap(), Json::Null));
    assert!(matches!(parse_json("false").unwrap(), Json::Bool(())));
    assert!(matches!(parse_json("true").unwrap(), Json::Bool(())));
    assert_eq!(parse_json("[]").unwrap().array().unwrap().len(), 0);
    assert_eq!(parse_json("[1, 2,]").unwrap().array().unwrap().len(), 2);
    assert!(parse_json("{\"a\": 1,}").unwrap().get("a").is_some());
    assert!(parse_json("{}").unwrap().get("a").is_none());
    assert!(parse_json("3").unwrap().array().is_none());
    assert!(parse_json("3").unwrap().string().is_none());
    assert!(parse_json("3").unwrap().get("a").is_none());
    assert!(parse_json("\"3\"").unwrap().number().is_none());
    assert_eq!(parse_json("-0.5e+3").unwrap().number(), Some("-0.5e+3"));
}

#[test]
fn tells_what_is_wrong_with_a_text() {
    assert_eq!(error_of("1 x"), "trailing JSON input");
    assert_eq!(error_of(""), "invalid JSON value");
    assert_eq!(error_of("[x]"), "invalid JSON value");
    assert_eq!(error_of("nul"), "expected null");
    assert_eq!(error_of("tru!"), "expected true");
    assert_eq!(error_of("falsy"), "expected false");
    assert_eq!(error_of("\"open"), "unterminated string");
    assert_eq!(error_of("\"\\"), "unterminated escape");
    assert_eq!(error_of("\"\\x\""), "invalid escape x");
    assert_eq!(error_of("\"\\u12g4\""), "invalid unicode escape");
    assert_eq!(error_of("[1 2]"), "expected ',' or ']'");
    assert_eq!(error_of("{\"a\": 1 \"b\""), "expected ',' or '}'");
    assert_eq!(error_of("{\"a\" 1}"), "expected :");
    assert_eq!(error_of("{a: 1}"), "expected \"");
    assert_eq!(error_of("--1"), "invalid number --1");
    assert_eq!(error_of("1e"), "invalid number 1e");
    assert_eq!(error_of("-"), "invalid number -");
}

#[test]
fn white_space_around_json_changes_nothing_and_more_is_refused() {
    let texts = [
        "null", "true", "false", "\"a \\\" b\"", "[]", "[1, [2,],]", "{}", "{\"a\": {\"b\": 1},}",
        "0", "-1.5e3", " 7 ",
    ];
    for text in texts {
        let value = format!("{:?}", parse_json(text).unwrap());
        for ws in ["", " ", "\t", "\r\n", " \n\t\r "] {
            let spaced = parse_json(&format!("{ws}{text}{ws}")).unwrap();
            assert_eq!(format!("{spaced:?}"), value);
            for more in ["x", "x1", "]", "\"", "\u{a0}"] {
                assert_eq!(
                    parse_json(&format!("{text}{ws}{more}")).unwrap_err(),
                    "trailing JSON input"
                );
            }
        }
        assert_eq!(parse_json(&format!("{text} 1")).unwrap_err(), "trailing JSON input");
    }
    assert_eq!(parse_json("null1").unwrap_err(), "trailing JSON input");
    assert_eq!(parse_json("\"a\"1").unwrap_err(), "trailing JSON input");
    assert!(parse_json("1 2").is_err());
    assert!(parse_json("12").is_ok());
}

#[test]
fn encoded_texts_are_decoded_to_themselves() {
    for s in SAMPLES.iter().copied().chain(["a b&c=d/\u{e9}\u{1f600}%20~_-.", "\u{0}\u{7f}"]) {
        let encoded = url_encode(s);
        let bytes = encoded.as_bytes();
        let mut decoded = Vec::new();
        let mut i = 0;
        while i < bytes.len() {
            if bytes[i] == b'%' {
                let digits = &encoded[i + 1..i + 3];
                assert_eq!(digits, digits.to_ascii_uppercase());
                decoded.push(u8::from_str_radix(digits, 16).unwrap());
                i += 3;
            } else {
                decoded.push(bytes[i]);
                i += 1;
            }
        }
        assert_eq!(String::from_utf8(decoded).unwrap(), s);
    }
}

#[test]
fn entities_stand_for_the_text() {
    let undo = |s: &str| {
        s.replace("&quot;", "\"")
            .replace("&lt;", "<")
            .replace("&gt;", ">")
            .replace("&amp;", "&")
    };
    let more = ["<a href=\"x\">&amp;</a>", "&lt;", "&&amp;quot;", "&a<m>p;\""];
    for s in SAMPLES.iter().copied().chain(more) {
        assert_eq!(undo(&html(s)), s);
        assert_eq!(undo(&html_attr(s)), s);
    }
    assert_eq!(html("&lt;\"<>"), "&amp;lt;\"&lt;&gt;");
}
