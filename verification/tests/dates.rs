use btc_foss::calendar::{
    civil_from_days, date_days, date_from_days, days_from_civil, is_rfc3339_utc, timestamp_secs,
    unix_to_rfc3339,
};
use btc_foss::clock::{
    contribution_windows, contribution_windows_at, is_countable, months_ago_rfc3339,
    months_before, now_rfc3339, now_secs, signed_secs,
};

#[test]
fn days_and_dates_are_inverse() {
    let mut expected = (0i64, 1i64, 1i64);
    let lengths = |y: i64| {
        let leap = y % 4 == 0 && (y % 100 != 0 || y % 400 == 0);
        [31, if leap { 29 } else { 28 }, 31, 30, 31, 30, 31, 31, 30, 31, 30, 31]
    };
    for days in -719_528i64..100_000 {
        let (y, m, d) = civil_from_days(days);
        assert_eq!((y, m, d), expected);
        assert_eq!(days_from_civil(y, m, d), days);
        if d < lengths(y)[(m - 1) as usize] {
            expected.2 += 1;
        } else if m < 12 {
            expected = (y, m + 1, 1);
        } else {
            expected = (y + 1, 1, 1);
        }
    }
}

#[test]
fn days_run_on_beyond_the_months() {
    assert_eq!(days_from_civil(2026, 5, 32), days_from_civil(2026, 6, 1));
    assert_eq!(days_from_civil(2026, 5, 0), days_from_civil(2026, 4, 30));
    assert_eq!(days_from_civil(2026, 13, 1), days_from_civil(2026, 3, 1) + 306);
    assert_eq!(days_from_civil(2026, 0, 1), days_from_civil(2025, 12, 1));
    assert_eq!(days_from_civil(2026, -11, 1), days_from_civil(2025, 3, 1) - 60);
}

#[test]
fn writes_timestamps() {
    assert_eq!(unix_to_rfc3339(0), "1970-01-01T00:00:00Z");
    assert_eq!(unix_to_rfc3339(-1), "1969-12-31T23:59:59Z");
    assert_eq!(unix_to_rfc3339(951_782_400), "2000-02-29T00:00:00Z");
    assert_eq!(unix_to_rfc3339(1_779_880_247), "2026-05-27T11:10:47Z");
    assert_eq!(unix_to_rfc3339(253_402_300_800), "10000-01-01T00:00:00Z");
    assert_eq!(unix_to_rfc3339(-62_167_219_201), "-001-12-31T23:59:59Z");
    assert_eq!(date_from_days(20_600), "2026-05-27");
    assert_eq!(date_from_days(-719_528), "0000-01-01");
    assert_eq!(date_from_days(-719_529), "-001-12-31");
    assert_eq!(date_from_days(2_932_896), "9999-12-31");
    assert_eq!(date_from_days(2_932_897), "10000-01-01");
}

#[test]
fn reads_dates() {
    assert_eq!(date_days("1970-01-01"), Some(0));
    assert_eq!(date_days("2026-05-27T11:10:47Z"), Some(20_600));
    assert_eq!(date_days("2026-02-31"), Some(days_from_civil(2026, 3, 3)));
    assert_eq!(date_days("+026-05-27"), Some(days_from_civil(26, 5, 27)));
    assert_eq!(date_days("-026-05-27"), Some(days_from_civil(-26, 5, 27)));
    assert_eq!(date_days("2026-00-10"), None);
    assert_eq!(date_days("2026-13-10"), None);
    assert_eq!(date_days("2026-12-00"), None);
    assert_eq!(date_days("2026-12-32"), None);
    assert_eq!(date_days("2026/12/10"), None);
    assert_eq!(date_days("2026-1-10"), None);
    assert_eq!(date_days("20\u{e9}-12-10"), None);
    assert_eq!(date_days(""), None);
}

#[test]
fn checks_timestamps() {
    assert!(is_rfc3339_utc("2026-02-31T23:59:59Z"));
    for s in [
        "2026-00-27T11:10:47Z",
        "2026-13-27T11:10:47Z",
        "2026-05-00T11:10:47Z",
        "2026-05-32T11:10:47Z",
        "2026-05-27T24:10:47Z",
        "2026-05-27T11:60:47Z",
        "2026-05-27T11:10:60Z",
        "2026-05-27T11:10:47",
        "2026-05-27T11:10:47z",
        "2026-05-27T11:10:47+",
        "2026-05-27T11:10:4aZ",
        "20\u{e9}-05-27T11:10:47Z",
        "2026-05-27T11:10:47Z ",
        "",
    ] {
        assert!(!is_rfc3339_utc(s), "{s:?}");
    }
}

#[test]
fn written_times_are_checked_and_ordered() {
    let mut last = String::new();
    for i in 0..500i64 {
        let text = unix_to_rfc3339(i * 98_765_431);
        assert!(is_rfc3339_utc(&text));
        assert!(last < text);
        assert_eq!(date_days(&text), Some(i * 98_765_431 / 86_400));
        last = text;
    }
}

#[test]
fn goes_back_by_months() {
    assert_eq!(months_before(1_779_880_247, 0), "2026-05-27T11:10:47Z");
    assert_eq!(months_before(1_779_880_247, 1), "2026-04-26T11:10:47Z");
    assert_eq!(months_before(1_779_880_247, -1), "2026-06-27T11:10:47Z");
    assert!(is_countable(24));
    assert!(is_countable(i64::MAX / 2_678_400));
    assert!(!is_countable(i64::MAX / 2_678_400 + 1));
    assert!(!is_countable(i64::MIN));
}

#[test]
fn reads_the_clock() {
    let before = std::time::SystemTime::now()
        .duration_since(std::time::UNIX_EPOCH)
        .unwrap()
        .as_secs() as i64;
    let now = now_secs();
    let after = std::time::SystemTime::now()
        .duration_since(std::time::UNIX_EPOCH)
        .unwrap()
        .as_secs() as i64;
    assert!(before <= now && now <= after);
    assert!(unix_to_rfc3339(before) <= now_rfc3339());
    assert!(months_ago_rfc3339(1) < now_rfc3339());
    assert!(months_ago_rfc3339(1) >= months_before(before, 1));
}

#[test]
fn readings_of_the_clock_wrap_around() {
    for reading in [0, 1_779_880_247, i64::MAX as u64, 1 << 63, u64::MAX] {
        assert_eq!(signed_secs(reading), reading as i64);
    }
    assert_eq!(signed_secs(1 << 63), i64::MIN);
    assert_eq!(signed_secs(u64::MAX), -1);
}

#[test]
fn windows_join_and_cover_the_span() {
    let now = 1_779_880_247;
    let windows = contribution_windows_at(now, 15, "end");
    let at = |m: i64| months_before(now, m);
    assert_eq!(
        windows,
        vec![
            (at(6), "end".to_string()),
            (at(12), at(6)),
            (at(15), at(12)),
        ]
    );
    assert_eq!(contribution_windows_at(now, 12, "end").len(), 2);
    assert_eq!(
        contribution_windows_at(now, -3, "end"),
        vec![(at(1), "end".to_string())]
    );
    let live = contribution_windows(13, "end");
    assert_eq!(live.len(), 3);
    for pair in live.windows(2) {
        assert_eq!(pair[1].1, pair[0].0);
        assert!(pair[1].0 < pair[1].1);
    }
}

#[test]
fn windows_up_to_a_timestamp_do_not_rest_on_the_clock() {
    let pair = |a: &str, b: &str| (a.to_string(), b.to_string());
    assert_eq!(
        contribution_windows(8, "2026-05-15T00:00:00Z"),
        vec![
            pair("2025-11-10T00:00:00Z", "2026-05-15T00:00:00Z"),
            pair("2025-09-09T00:00:00Z", "2025-11-10T00:00:00Z"),
        ]
    );
    assert_eq!(
        contribution_windows(1, "1971-02-03T04:05:06Z"),
        vec![pair("1971-01-03T04:05:06Z", "1971-02-03T04:05:06Z")]
    );
    for months in [0, -3, i64::MIN] {
        assert_eq!(
            contribution_windows(months, "2026-02-31T23:59:59Z"),
            vec![pair("2026-01-31T23:59:59Z", "2026-02-31T23:59:59Z")]
        );
        assert_eq!(contribution_windows(months, "end").len(), 1);
    }
    for to in ["1900-03-01T00:00:00Z", "2026-05-15T00:00:00Z", "9999-12-31T23:59:59Z"] {
        let windows = contribution_windows(12_000, to);
        assert_eq!(windows.len(), 2000);
        assert!(windows.iter().all(|(start, end)| start < end));
    }
    let now = now_rfc3339();
    assert!(contribution_windows(24, &now)
        .iter()
        .all(|(start, end)| start < end));
}

#[test]
fn reads_timestamps() {
    assert_eq!(timestamp_secs("1970-01-01T00:00:00Z"), Some(0));
    assert_eq!(timestamp_secs("2026-05-27T11:10:47Z"), Some(1_779_880_247));
    assert_eq!(timestamp_secs("0000-01-01T00:00:00Z"), Some(-62_167_219_200));
    assert_eq!(timestamp_secs("9999-12-31T23:59:59Z"), Some(253_402_300_799));
    assert_eq!(
        timestamp_secs("2026-02-31T00:00:00Z"),
        timestamp_secs("2026-03-03T00:00:00Z")
    );
    assert_eq!(timestamp_secs("2026-05-27"), None);
    assert_eq!(timestamp_secs("2026-05-27T24:00:00Z"), None);
    assert_eq!(timestamp_secs(""), None);
    for i in -40..40i64 {
        let secs = i * 1_234_567_891;
        assert_eq!(timestamp_secs(&unix_to_rfc3339(secs)), Some(secs));
    }
}
