//! The system clock and the windows of time that are collected.

use crate::calendar;
use crate::calendar::{timestamp_secs, unix_to_rfc3339};
use crate::text;
use crate::text::owned;
use vstd::prelude::*;

verus! {

/// The seconds of a month of 31 days.
pub const MONTH_SECS: i64 = 2_678_400;

/// The months that one window covers at most.
pub const WINDOW_MONTHS: i64 = 6;

/// The seconds since the Unix epoch by `std::time::SystemTime::elapsed`, or 0 where the
/// clock stands before it. Nothing is claimed of the reading.
#[verifier::external_body]
fn epoch_secs() -> (secs: u64) {
    std::time::UNIX_EPOCH.elapsed().unwrap_or_default().as_secs()
}

/// The seconds since the Unix epoch.
pub fn now_secs() -> (secs: i64) {
    signed_secs(epoch_secs())
}

/// A reading of the clock as a signed number; readings beyond the range wrap around.
pub fn signed_secs(reading: u64) -> (secs: i64)
    ensures
        secs == if reading <= i64::MAX {
            reading as int
        } else {
            reading - 0x1_0000_0000_0000_0000
        },
{
    assert(reading <= 0x7fff_ffff_ffff_ffff ==> (reading as i64) == reading) by (bit_vector);
    assert(reading > 0x7fff_ffff_ffff_ffff ==> (reading as i64) == reading
        - 0x1_0000_0000_0000_0000) by (bit_vector);
    reading as i64
}

/// The current time.
pub fn now_rfc3339() -> (out: String)
    ensures
        exists|now: i64| out@ == #[trigger] calendar::timestamp(now as int),
{
    unix_to_rfc3339(now_secs())
}

/// Whether that many months can be counted in seconds.
pub open spec fn countable(months: int) -> bool {
    i64::MIN <= months * MONTH_SECS <= i64::MAX
}

/// The time that lies the given months before another one; it wraps around where it leaves
/// the range of the clock.
pub open spec fn months_back(now: i64, months: int) -> i64 {
    now.wrapping_sub((months * MONTH_SECS) as i64)
}

/// Whether that many months can be counted in seconds.
pub fn is_countable(months: i64) -> (out: bool)
    ensures
        out == countable(months as int),
{
    months.checked_mul(MONTH_SECS).is_some()
}

/// The time that lies the given months before another one.
pub fn months_before(now: i64, months: i64) -> (out: String)
    requires
        countable(months as int),
    ensures
        out@ == calendar::timestamp(months_back(now, months as int) as int),
{
    unix_to_rfc3339(now.wrapping_sub(months * MONTH_SECS))
}

/// The time that lies the given months before the current one.
pub fn months_ago_rfc3339(months: i64) -> (out: String)
    requires
        countable(months as int),
    ensures
        exists|now: i64|
            out@ == calendar::timestamp(#[trigger] months_back(now, months as int) as int),
{
    months_before(now_secs(), months)
}

// ---------------------------------------------------------------------------
// Windows
// ---------------------------------------------------------------------------

/// The months that are collected: one at least.
pub open spec fn span(months: int) -> int {
    if months < 1 {
        1
    } else {
        months
    }
}

/// The months from the end of the first window back to the end of the one at an index.
pub open spec fn window_offset(months: int, k: int) -> int {
    if k * WINDOW_MONTHS < span(months) {
        k * WINDOW_MONTHS
    } else {
        span(months)
    }
}

/// How many windows there are.
pub open spec fn window_count(months: int) -> nat {
    ((span(months) + WINDOW_MONTHS - 1) / WINDOW_MONTHS as int) as nat
}

/// The window at an index: from its start to its end. The first one ends at the given time.
pub open spec fn window(now: i64, months: int, to: Seq<char>, k: int) -> (Seq<char>, Seq<char>) {
    (
        calendar::timestamp(months_back(now, window_offset(months, k + 1)) as int),
        if k == 0 {
            to
        } else {
            calendar::timestamp(months_back(now, window_offset(months, k)) as int)
        },
    )
}

/// The windows of time, the latest one first.
pub open spec fn windows(now: i64, months: int, to: Seq<char>) -> Seq<(Seq<char>, Seq<char>)> {
    Seq::new(window_count(months), |k: int| window(now, months, to, k))
}

/// Pairs of strings, seen as texts.
pub open spec fn text_pairs(v: Seq<(String, String)>) -> Seq<(Seq<char>, Seq<char>)> {
    Seq::new(v.len(), |i: int| (v[i].0@, v[i].1@))
}

/// The windows of time, the latest one first, with the starts counted back from the given
/// seconds.
pub fn contribution_windows_at(now: i64, months: i64, to: &str) -> (out: Vec<(String, String)>)
    requires
        countable(span(months as int)),
    ensures
        text_pairs(out@) == windows(now, months as int, to@),
{
    let span: i64 = if months < 1 {
        1
    } else {
        months
    };
    let mut out: Vec<(String, String)> = Vec::new();
    let mut end_offset: i64 = 0;
    let ghost mut k: int = 0;
    let ghost all = windows(now, months as int, to@);
    assert(text_pairs(out@) =~= all.take(0));
    while end_offset < span
        invariant
            span == self::span(months as int),
            countable(span as int),
            all == windows(now, months as int, to@),
            0 <= k <= all.len(),
            end_offset == window_offset(months as int, k),
            end_offset < span ==> k < all.len(),
            end_offset >= span ==> k == all.len(),
            text_pairs(out@) == all.take(k),
        decreases span - end_offset,
    {
        let ghost before = text_pairs(out@);
        let start_offset: i64 = if end_offset + WINDOW_MONTHS < span {
            end_offset + WINDOW_MONTHS
        } else {
            span
        };
        let start = months_before(now, start_offset);
        let end = if end_offset == 0 {
            owned(to)
        } else {
            months_before(now, end_offset)
        };
        let ghost pair = (start@, end@);
        out.push((start, end));
        assert(text_pairs(out@) =~= before.push(pair));
        assert(all.take(k + 1) =~= all.take(k).push(all[k]));
        end_offset = start_offset;
        proof {
            k = k + 1;
        }
    }
    assert(all.take(all.len() as int) =~= all);
    out
}

/// The windows of time that reach from the given time back over the months, the latest one
/// first. The starts are counted back from that time. Where it is no timestamp, they are
/// counted back from one reading of the clock, of which nothing is known.
pub fn contribution_windows(months: i64, to: &str) -> (out: Vec<(String, String)>)
    requires
        countable(span(months as int)),
    ensures
        calendar::is_timestamp(to@) ==> text_pairs(out@) == windows(
            calendar::stamp_secs(to@) as i64,
            months as int,
            to@,
        ),
        !calendar::is_timestamp(to@) ==> exists|now: i64|
            text_pairs(out@) == #[trigger] windows(now, months as int, to@),
{
    match timestamp_secs(to) {
        Some(end) => contribution_windows_at(end, months, to),
        None => contribution_windows_at(now_secs(), months, to),
    }
}

// ---------------------------------------------------------------------------
// Laws
// ---------------------------------------------------------------------------

/// Where the clock has room, going months back is a subtraction.
pub proof fn lemma_months_back(now: i64, months: int)
    requires
        countable(months),
        i64::MIN <= now - months * MONTH_SECS <= i64::MAX,
    ensures
        months_back(now, months) == now - months * MONTH_SECS,
{
}

/// The windows join: the first one ends at the given time, each later one where the one
/// before it starts, and the last one starts the whole span back. Each covers at least one
/// month and at most six.
pub proof fn lemma_windows_join(now: i64, months: int, to: Seq<char>)
    ensures
        windows(now, months, to).len() == window_count(months) >= 1,
        windows(now, months, to)[0].1 == to,
        forall|k: int|
            0 < k < window_count(months) ==> (#[trigger] windows(now, months, to)[k]).1 == windows(
                now,
                months,
                to,
            )[k - 1].0,
        windows(now, months, to).last().0 == calendar::timestamp(
            months_back(now, span(months)) as int,
        ),
        forall|k: int|
            0 <= k < window_count(months) ==> 1 <= #[trigger] window_offset(months, k + 1)
                - window_offset(months, k) <= WINDOW_MONTHS,
{
    let n = window_count(months) as int;
    assert(window_offset(months, n) == span(months));
}

/// Where all its times have years of four digits, every window starts before it ends, the
/// first one as long as the given end lies behind its start.
pub proof fn lemma_windows_in_order(now: i64, months: int, to: Seq<char>, k: int)
    requires
        countable(span(months)),
        0 <= k < window_count(months),
        calendar::four_digit_year((now - span(months) * MONTH_SECS) / 86_400),
        calendar::four_digit_year(now as int / 86_400),
        k == 0 ==> text::text_lt(windows(now, months, to)[0].0, to),
    ensures
        text::text_lt(windows(now, months, to)[k].0, windows(now, months, to)[k].1),
{
    if k > 0 {
        let a = window_offset(months, k + 1);
        let b = window_offset(months, k);
        let start = now - a * MONTH_SECS;
        let end = now - b * MONTH_SECS;
        calendar::lemma_four_digit_year((now - span(months) * MONTH_SECS) / 86_400);
        calendar::lemma_four_digit_year(now as int / 86_400);
        calendar::lemma_four_digit_year(start / 86_400);
        calendar::lemma_four_digit_year(end / 86_400);
        lemma_months_back(now, a);
        lemma_months_back(now, b);
        calendar::lemma_timestamp_order(start, end);
    }
}

/// Up to a timestamp every window starts before it ends, as long as the earliest start has a
/// year of four digits.
pub proof fn lemma_windows_to_stamp_in_order(months: int, to: Seq<char>, k: int)
    requires
        countable(span(months)),
        calendar::is_timestamp(to),
        calendar::four_digit_year((calendar::stamp_secs(to) - span(months) * MONTH_SECS) / 86_400),
        0 <= k < window_count(months),
    ensures
        text::text_lt(
            windows(calendar::stamp_secs(to) as i64, months, to)[k].0,
            windows(calendar::stamp_secs(to) as i64, months, to)[k].1,
        ),
{
    let end = calendar::stamp_secs(to);
    let now = end as i64;
    calendar::lemma_stamp_range(to);
    let first = window_offset(months, 1);
    let start = end - first * MONTH_SECS;
    calendar::lemma_four_digit_year((end - span(months) * MONTH_SECS) / 86_400);
    calendar::lemma_four_digit_year(end / 86_400);
    calendar::lemma_four_digit_year(start / 86_400);
    lemma_months_back(now, first);
    calendar::lemma_month_before_stamp(start, to);
    lemma_windows_in_order(now, months, to, k);
}

/// Up to the current time, too, every window starts before it ends, as long as the current
/// time and the earliest start have years of four digits.
pub proof fn lemma_windows_to_moment_in_order(end: i64, months: int, k: int)
    requires
        countable(span(months)),
        calendar::four_digit_year(end as int / 86_400),
        calendar::four_digit_year((end - span(months) * MONTH_SECS) / 86_400),
        0 <= k < window_count(months),
    ensures
        text::text_lt(
            windows(end, months, calendar::timestamp(end as int))[k].0,
            windows(end, months, calendar::timestamp(end as int))[k].1,
        ),
{
    calendar::lemma_stamp_read_back(end as int);
    lemma_windows_to_stamp_in_order(months, calendar::timestamp(end as int), k);
}

/// Each window covers six months of 31 days, but for the last one, which ends the span; a
/// span below one month counts as one. The windows are as many as it takes to cover the span.
pub proof fn lemma_windows_of_six_months(now: i64, months: int, to: Seq<char>, k: int)
    requires
        0 <= k < windows(now, months, to).len(),
        i64::MIN <= (months + 1) * 31 * 86_400 <= i64::MAX,
        i64::MIN <= now - (months + 1) * 31 * 86_400,
        now >= i64::MIN + 31 * 86_400,
    ensures
        6 * k < months || k == 0,
        k + 1 < windows(now, months, to).len() <==> 6 * (k + 1) < months,
        k > 0 ==> windows(now, months, to)[k].1 == calendar::timestamp(
            now - 6 * k * 31 * 86_400,
        ),
        6 * (k + 1) < months ==> windows(now, months, to)[k].0 == calendar::timestamp(
            now - 6 * (k + 1) * 31 * 86_400,
        ),
        1 <= months <= 6 * (k + 1) ==> windows(now, months, to)[k].0 == calendar::timestamp(
            now - months * 31 * 86_400,
        ),
        months < 1 ==> windows(now, months, to)[k].0 == calendar::timestamp(now - 31 * 86_400),
{
}

} // verus!
