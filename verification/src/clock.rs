//! Times of day: when a limit runs out, and when it resets.

use crate::decimal::digit;
use crate::text::text_view;
use chrono::TimeZone;
use vstd::prelude::*;

verus! {

/// The time of day.
pub const TIME: &'static str = "%H:%M";

/// The day of the week and the time of day.
pub const DAY_TIME: &'static str = "%a %H:%M";

/// The first second of the calendar, at the start of the year -262143.
pub const FIRST_SECOND: i64 = -8334601228800;

/// The last second of the calendar, at the end of the year 262142.
pub const LAST_SECOND: i64 = 8210266876799;

/// Whether the calendar reaches as far as `ts`.
pub open spec fn in_calendar(ts: int) -> bool {
    FIRST_SECOND <= ts <= LAST_SECOND
}

/// Whether local time can be this many seconds ahead of universal time.
pub open spec fn is_offset(offset: int) -> bool {
    -86400 < offset < 86400
}

/// What `chrono` prints in the given format for the second `ts` where local time is
/// `offset` seconds ahead of universal time; nothing where the format is not valid.
pub uninterp spec fn strftime(ts: int, offset: int, format: Seq<char>) -> Option<Seq<char>>;

/// The number of the day to which a second belongs.
pub open spec fn day_of(local: int) -> int {
    local / 86400
}

/// A number below a hundred in two digits.
pub open spec fn two_digits(n: int) -> Seq<char> {
    seq![digit(n / 10), digit(n % 10)]
}

/// The hour and the minute of a second.
pub open spec fn hour_minute(local: int) -> Seq<char> {
    two_digits(local % 86400 / 3600) + seq![':'] + two_digits(local % 3600 / 60)
}

/// The day of the week of a second; day zero was a Thursday.
pub open spec fn weekday(local: int) -> Seq<char> {
    let d = (day_of(local) + 4) % 7;
    if d == 0 {
        seq!['S', 'u', 'n']
    } else if d == 1 {
        seq!['M', 'o', 'n']
    } else if d == 2 {
        seq!['T', 'u', 'e']
    } else if d == 3 {
        seq!['W', 'e', 'd']
    } else if d == 4 {
        seq!['T', 'h', 'u']
    } else if d == 5 {
        seq!['F', 'r', 'i']
    } else {
        seq!['S', 'a', 't']
    }
}

/// What is shown for `ts` in the given format with local time `offset` seconds ahead,
/// given what `chrono` prints; nothing where the calendar does not reach or local time
/// cannot be that far ahead.
pub open spec fn shown_as(
    ts: int,
    offset: int,
    format: Seq<char>,
    printed: Option<Seq<char>>,
) -> Option<Seq<char>> {
    if !in_calendar(ts) || !is_offset(offset) {
        None
    } else if format == TIME@ {
        Some(hour_minute(ts + offset))
    } else if format == DAY_TIME@ {
        Some(weekday(ts + offset) + seq![' '] + hour_minute(ts + offset))
    } else {
        printed
    }
}

/// What is shown for `ts` with local time `offset` seconds ahead.
pub open spec fn time_text(ts: int, offset: int, format: Seq<char>) -> Option<Seq<char>> {
    shown_as(ts, offset, format, strftime(ts, offset, format))
}

/// Whether local time may be this far ahead at `ts`, whatever the zone: less than a day
/// either way, and nothing where the calendar does not reach.
pub open spec fn may_be_ahead(ts: int, offset: Option<i32>) -> bool {
    match offset {
        Some(x) => in_calendar(ts) && is_offset(x as int),
        None => !in_calendar(ts),
    }
}

/// What is shown for `ts`, given how far local time is ahead then.
pub open spec fn local_text(ts: int, offset: Option<i32>, format: Seq<char>) -> Option<Seq<char>> {
    match offset {
        Some(x) => time_text(ts, x as int, format),
        None => None,
    }
}

/// `chrono::FixedOffset::east_opt(offset)` and `timestamp_opt(ts, 0)` on it, printed with
/// `DateTime::format` and `DelayedFormat::write_to`: there is a text if the offset is
/// less than a day either way, the calendar reaches to `ts` and the format is valid. It
/// depends on the second, the offset and the format. The two formats in use print the
/// hour and the minute of local time, with the day of the week before them in one of
/// the two.
#[verifier::external_body]
fn print_at(ts: i64, offset: i32, format: &str) -> (r: Option<String>)
    ensures
        text_view(r) == shown_as(
            ts as int,
            offset as int,
            format@,
            strftime(ts as int, offset as int, format@),
        ),
{
    let time = chrono::FixedOffset::east_opt(offset)?.timestamp_opt(ts, 0).single()?;
    let mut text = String::new();
    match time.format(format).write_to(&mut text) {
        Ok(()) => Some(text),
        Err(_) => None,
    }
}

/// `chrono::Local.timestamp_opt(ts, 0)` and the `local_minus_utc` of its offset: how
/// many seconds local time is ahead at `ts`, which is less than a day either way and
/// is up to the zone of the machine. There is none where the calendar does not reach.
#[verifier::external_body]
pub(crate) fn local_offset(ts: i64) -> (r: Option<i32>)
    ensures
        may_be_ahead(ts as int, r),
{
    let time = chrono::Local.timestamp_opt(ts, 0).single()?;
    Some(time.offset().local_minus_utc())
}

/// Prints a timestamp, given how far local time is ahead then.
pub fn fmt_ts_at(ts: i64, offset: Option<i32>, fmt: &str) -> (r: Option<String>)
    ensures
        text_view(r) == local_text(ts as int, offset, fmt@),
{
    match offset {
        Some(x) => print_at(ts, x, fmt),
        None => None,
    }
}

/// Prints a timestamp in local time.
pub fn fmt_ts(ts: i64, fmt: &str) -> (r: Option<String>)
    ensures
        exists|offset: Option<i32>| #[trigger]
            may_be_ahead(ts as int, offset) && text_view(r) == local_text(ts as int, offset, fmt@),
{
    fmt_ts_at(ts, local_offset(ts), fmt)
}

/// Whether two seconds, each with how far local time is ahead then, fall on one day.
pub fn same_day(a: i64, a_offset: i32, b: i64, b_offset: i32) -> (r: bool)
    ensures
        r == (day_of(a + a_offset) == day_of(b + b_offset)),
{
    local_day(a, a_offset) == local_day(b, b_offset)
}

fn local_day(ts: i64, offset: i32) -> (r: i128)
    ensures
        r == day_of(ts + offset),
{
    let local: i128 = ts as i128 + offset as i128;
    if local >= 0 {
        local / 86400
    } else {
        -((86399 - local) / 86400)
    }
}

/// The digits before the colon of a time of day are its hour, and those behind it are
/// its minute.
pub proof fn law_hour_minute(local: int)
    ensures
        ({
            let s = hour_minute(local);
            &&& s.len() == 5
            &&& s[2] == ':'
            &&& forall|i: int|
                0 <= i < 5 && i != 2 ==> '0' as u32 <= (#[trigger] s[i]) as u32 <= '9' as u32
            &&& 10 * (s[0] as u32 - '0' as u32) + (s[1] as u32 - '0' as u32) == local % 86400
                / 3600
            &&& 10 * (s[3] as u32 - '0' as u32) + (s[4] as u32 - '0' as u32) == local % 3600 / 60
        }),
{
    let h = local % 86400 / 3600;
    let m = local % 3600 / 60;
    let s = hour_minute(local);
    assert(0 <= h < 24 && 0 <= m < 60);
    assert(s[0] == digit(h / 10) && s[1] == digit(h % 10));
    assert(s[3] == digit(m / 10) && s[4] == digit(m % 10));
}

/// The days of the week follow one another from the first day on, which was a Thursday.
pub proof fn law_weekday(local: int)
    ensures
        ({
            let n = local / 86400 % 7;
            &&& n == 0 ==> weekday(local) == "Thu"@
            &&& n == 1 ==> weekday(local) == "Fri"@
            &&& n == 2 ==> weekday(local) == "Sat"@
            &&& n == 3 ==> weekday(local) == "Sun"@
            &&& n == 4 ==> weekday(local) == "Mon"@
            &&& n == 5 ==> weekday(local) == "Tue"@
            &&& n == 6 ==> weekday(local) == "Wed"@
        }),
{
    reveal_strlit("Thu");
    reveal_strlit("Fri");
    reveal_strlit("Sat");
    reveal_strlit("Sun");
    reveal_strlit("Mon");
    reveal_strlit("Tue");
    reveal_strlit("Wed");
    let s = weekday(local);
    assert(s =~= "Thu"@ || s =~= "Fri"@ || s =~= "Sat"@ || s =~= "Sun"@ || s =~= "Mon"@ || s
        =~= "Tue"@ || s =~= "Wed"@);
}

/// Two seconds are on one day if no midnight lies between them: both are in the same
/// stretch of 86400 seconds, counted from the first.
pub proof fn law_one_day(a: int, b: int, midnight: int)
    requires
        midnight % 86400 == 0,
        midnight <= a < midnight + 86400,
    ensures
        (day_of(a) == day_of(b)) == (midnight <= b < midnight + 86400),
{
}

/// In the two formats in use, the time of day is shown, in one of them with the day of
/// the week before it; in another format, what `chrono` prints.
pub proof fn law_time_text(ts: int, offset: int, format: Seq<char>)
    requires
        FIRST_SECOND <= ts <= LAST_SECOND,
        -86400 < offset < 86400,
    ensures
        time_text(ts, offset, "%H:%M"@) == Some(hour_minute(ts + offset)),
        time_text(ts, offset, "%a %H:%M"@) == Some(
            weekday(ts + offset) + " "@ + hour_minute(ts + offset),
        ),
        format != "%H:%M"@ && format != "%a %H:%M"@ ==> time_text(ts, offset, format) == strftime(
            ts,
            offset,
            format,
        ),
{
    reveal_strlit(" ");
    reveal_strlit("%H:%M");
    reveal_strlit("%a %H:%M");
    assert("%H:%M"@.len() != "%a %H:%M"@.len());
    assert(" "@ =~= seq![' ']);
}

/// Nothing is shown where the calendar does not reach, or if local time were a day or
/// more ahead.
pub proof fn law_no_time(ts: int, offset: int, format: Seq<char>)
    requires
        ts < -8334601228800 || ts > 8210266876799 || offset <= -86400 || offset >= 86400,
    ensures
        time_text(ts, offset, format) is None,
{
}

/// Local time is ahead by less than a day either way at every second to which the
/// calendar reaches, and at no other; what is shown then is that of this offset.
pub proof fn law_ahead(ts: int, offset: Option<i32>, format: Seq<char>)
    ensures
        may_be_ahead(ts, offset) ==> offset is Some == (-8334601228800 <= ts <= 8210266876799),
        may_be_ahead(ts, offset) ==> (offset matches Some(x) ==> -86400 < x < 86400),
        offset matches Some(x) ==> local_text(ts, offset, format) == time_text(
            ts,
            x as int,
            format,
        ),
        offset is None ==> local_text(ts, offset, format) is None,
{
}

} // verus!
