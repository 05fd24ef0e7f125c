use btc_foss::decimal::{decimal_text, padded_text, parse_i64, signed_text};
use btc_foss::fields::integer_of_field;
use btc_foss::json::parse_json;
use btc_foss::number::{as_integer, as_rounded_text};
use btc_foss::search::json_id_string;

const NUMERALS: &[&str] = &[
    "0",
    "-0",
    "1",
    "-1",
    "0.4",
    "0.5",
    "0.50000000000000001",
    "0.5000000000000001",
    "1.5",
    "2.5",
    "3.5",
    "-0.5",
    "-1.5",
    "-2.5",
    "4503599627370495.5",
    "4503599627370496.5",
    "4503599627370497.5",
    "9007199254740991",
    "9007199254740992",
    "9007199254740993",
    "9007199254740995",
    "9223372036854775807",
    "9223372036854775808",
    "-9223372036854775808",
    "-9223372036854775809",
    "18446744073709551615",
    "1e15",
    "1e21",
    "123456789012345678901234567890",
    "1e22",
    "1e23",
    "1.7976931348623157e308",
    "1.7976931348623158e308",
    "1.7976931348623159e308",
    "1e309",
    "-1e309",
    "1e400",
    "4.9e-324",
    "2.4703282292062327e-324",
    "2.4703282292062328e-324",
    "2.2250738585072011e-308",
    "1e-400",
    "3042915384",
    "490",
    "1.",
    ".5",
    "5e0",
    "5E+2",
    "5e-1",
    "00012",
    "1e5",
    "0.000001e6",
    "99999999999999999999e-19",
    "1e99999999999999999999",
    "0e99999999999999999999",
    "1e-99999999999999999999",
];

#[test]
fn integers_are_those_of_the_float() {
    for s in NUMERALS {
        let f: f64 = s.parse().unwrap();
        assert_eq!(as_integer(s), f as i64, "{s}");
    }
}

#[test]
fn rounding_is_that_of_the_float() {
    for s in NUMERALS {
        let f: f64 = s.parse().unwrap();
        assert_eq!(as_rounded_text(s), format!("{f:.0}"), "{s}");
    }
}

#[test]
fn many_numerals_agree_with_the_float() {
    let mut state: u64 = 0x2545_f491_4f6c_dd1d;
    for _ in 0..3000 {
        let mut next = || {
            state = state.wrapping_mul(6364136223846793005).wrapping_add(1442695040888963407);
            state >> 16
        };
        let whole = next() % [10, 100_000, 1 << 40, u64::MAX >> 17][(next() % 4) as usize];
        let frac = next() % 1_000_000_007;
        let exp = next() as i64 % 40 - 20;
        let sign = if next() % 2 == 0 { "" } else { "-" };
        let s = format!("{sign}{whole}.{frac}e{exp}");
        let f: f64 = s.parse().unwrap();
        assert_eq!(as_integer(&s), f as i64, "{s}");
        assert_eq!(as_rounded_text(&s), format!("{f:.0}"), "{s}");
    }
}

#[test]
fn reads_integers_like_parse() {
    for s in [
        "", "+", "-", "0", "+5", "-5", "007", "9223372036854775807", "9223372036854775808",
        "-9223372036854775808", "-9223372036854775809", " 1", "1 ", "1a", "--1", "\u{661}",
    ] {
        assert_eq!(parse_i64(s), s.parse::<i64>().ok(), "{s:?}");
    }
}

#[test]
fn writes_integers_like_format() {
    for n in [0, 1, 9, 10, 99, 12345, i64::MAX, -1, -10, i64::MIN] {
        assert_eq!(signed_text(n), format!("{n}"));
        assert_eq!(padded_text(n, 2), format!("{n:02}"));
        assert_eq!(padded_text(n, 4), format!("{n:04}"));
    }
    assert_eq!(decimal_text(u64::MAX), "18446744073709551615");
}

#[test]
fn reads_ids_and_number_fields() {
    let value = parse_json(
        r#"{"a": "x-1", "b": 3042915384, "c": 2.5, "d": null, "e": 1e3, "f": "7"}"#,
    )
    .unwrap();
    assert_eq!(json_id_string(value.get("a")), "x-1");
    assert_eq!(json_id_string(value.get("b")), "3042915384");
    assert_eq!(json_id_string(value.get("c")), "2");
    assert_eq!(json_id_string(value.get("d")), "");
    assert_eq!(json_id_string(value.get("z")), "");
    assert_eq!(integer_of_field(&value, "e", 7), 1000);
    assert_eq!(integer_of_field(&value, "c", 7), 2);
    assert_eq!(integer_of_field(&value, "f", 7), 7);
    assert_eq!(integer_of_field(&value, "z", -1), -1);
}
