//! The times behind a percentage: when the limit runs out, and when it resets.

use crate::clock::{
    day_of, fmt_ts_at, hour_minute, in_calendar, is_offset, law_time_text, local_offset, local_text,
    may_be_ahead, same_day, time_text, weekday, DAY_TIME, TIME,
};
use crate::decimal::{decimal, digit, is_digit, lemma_digits, push_decimal};
use crate::text::text_view;
use vstd::prelude::*;

verus! {

/// A limit that runs out in fewer seconds than this is flagged.
pub const URGENT_SECS: i64 = 900;

/// The bright red that flags the time.
pub const URGENT: &'static str = "\x1b[91m";

/// Back to the default colour; bold text stays bold.
pub const FG_RESET: &'static str = "\x1b[39m";

/// The most hours that are shown.
pub const MAX_HOURS: i64 = 9999;

/// The hours from `reset` to `t`, rounded up, as far as they are shown.
pub open spec fn hours_past(t: int, reset: int) -> int {
    let hours = (t - reset + 3599) / 3600;
    if hours < MAX_HOURS {
        hours
    } else {
        MAX_HOURS as int
    }
}

/// How the time `t` at which a limit runs out is shown: by how many hours it lies past
/// the reset, or else as the time of day, which is coloured if it is near. Nothing is
/// shown for a time of day that cannot be printed.
pub open spec fn eta_shown(
    t: int,
    reset: int,
    now: int,
    time_of_day: Option<Seq<char>>,
) -> Option<Seq<char>> {
    if t >= reset {
        Some(seq!['+'] + decimal(hours_past(t, reset)) + seq!['h'])
    } else {
        match time_of_day {
            None => None,
            Some(clock) => if t - now < URGENT_SECS {
                Some(seq!['~'] + URGENT@ + clock + FG_RESET@)
            } else {
                Some(seq!['~'] + clock)
            },
        }
    }
}

/// The two times in brackets, as far as they can be shown.
pub open spec fn bracketed(eta: Option<Seq<char>>, reset: Option<Seq<char>>) -> Seq<char> {
    match (eta, reset) {
        (Some(e), Some(r)) => " ("@ + e + " / "@ + r + ")"@,
        (None, Some(r)) => " ("@ + r + ")"@,
        (Some(e), None) => " ("@ + e + ")"@,
        (None, None) => Seq::empty(),
    }
}

/// The format of a time of day, on the same day or on another one.
pub open spec fn eta_format(same: bool) -> Seq<char> {
    if same {
        TIME@
    } else {
        DAY_TIME@
    }
}

/// How many seconds local time is ahead when a limit runs out, at present, and when the
/// limit resets; nothing where the calendar does not reach.
#[derive(Clone, Copy, Debug, PartialEq, Eq)]
pub struct Offsets {
    pub eta: Option<i32>,
    pub now: Option<i32>,
    pub reset: Option<i32>,
}

/// The format of the time `t` at the time `now`, given how far local time is ahead: with
/// the day of the week, unless both are known to be on one day.
pub open spec fn format_at(t: int, now: int, at: Offsets) -> Seq<char> {
    match (at.eta, at.now) {
        (Some(x), Some(y)) => eta_format(day_of(t + x) == day_of(now + y)),
        _ => DAY_TIME@,
    }
}

/// How the time `t` at which a limit runs out is shown, given how far local time is ahead.
pub open spec fn eta_shown_at(t: int, reset: int, now: int, at: Offsets) -> Option<Seq<char>> {
    eta_shown(t, reset, now, local_text(t, at.eta, format_at(t, now, at)))
}

/// What is shown of the two times, given how far local time is ahead.
pub open spec fn times_text(
    eta: Option<i64>,
    reset: int,
    now: int,
    reset_fmt: Seq<char>,
    at: Offsets,
) -> Seq<char> {
    bracketed(
        match eta {
            Some(t) => eta_shown_at(t as int, reset, now, at),
            None => None,
        },
        local_text(reset, at.reset, reset_fmt),
    )
}

/// Whether local time may be that far ahead at the three times, whatever the zone.
pub open spec fn are_offsets(eta: Option<i64>, reset: int, now: int, at: Offsets) -> bool {
    &&& eta matches Some(t) ==> may_be_ahead(t as int, at.eta)
    &&& may_be_ahead(now, at.now)
    &&& may_be_ahead(reset, at.reset)
}

/// How the time `t` at which a limit runs out is shown, given the time of day.
pub fn eta_text(t: i64, reset: i64, now: i64, time_of_day: Option<String>) -> (r: Option<String>)
    ensures
        text_view(r) == eta_shown(t as int, reset as int, now as int, text_view(time_of_day)),
{
    let mut out: String = String::new();
    if t >= reset {
        let hours: i128 = (t as i128 - reset as i128 + 3599) / 3600;
        let shown: i64 = if hours < MAX_HOURS as i128 {
            hours as i64
        } else {
            MAX_HOURS
        };
        out.push('+');
        push_decimal(&mut out, shown);
        out.push('h');
        assert(out@ == seq!['+'] + decimal(hours_past(t as int, reset as int)) + seq!['h']);
        Some(out)
    } else {
        match time_of_day {
            None => None,
            Some(clock) => {
                out.push('~');
                if (t as i128 - now as i128) < URGENT_SECS as i128 {
                    out.append(URGENT);
                    out.append(clock.as_str());
                    out.append(FG_RESET);
                    assert(out@ == seq!['~'] + URGENT@ + clock@ + FG_RESET@);
                } else {
                    out.append(clock.as_str());
                    assert(out@ == seq!['~'] + clock@);
                }
                Some(out)
            },
        }
    }
}

/// Appends the two times in brackets, as far as they can be shown.
pub fn push_bracketed(out: &mut String, eta: Option<String>, reset: Option<String>)
    ensures
        final(out)@ == old(out)@ + bracketed(text_view(eta), text_view(reset)),
{
    match (eta, reset) {
        (Some(e), Some(r)) => {
            out.append(" (");
            out.append(e.as_str());
            out.append(" / ");
            out.append(r.as_str());
            out.append(")");
            assert(out@ == old(out)@ + (" ("@ + e@ + " / "@ + r@ + ")"@));
        },
        (None, Some(r)) => {
            out.append(" (");
            out.append(r.as_str());
            out.append(")");
            assert(out@ == old(out)@ + (" ("@ + r@ + ")"@));
        },
        (Some(e), None) => {
            out.append(" (");
            out.append(e.as_str());
            out.append(")");
            assert(out@ == old(out)@ + (" ("@ + e@ + ")"@));
        },
        (None, None) => {
            assert(out@ == old(out)@ + Seq::<char>::empty());
        },
    }
}

/// The format of the time `t` at the time `now`, each with how far local time is ahead
/// then: with the day of the week, unless both are on one day.
pub fn eta_format_at(t: i64, t_offset: i32, now: i64, now_offset: i32) -> (r: &'static str)
    ensures
        r@ == eta_format(day_of(t + t_offset) == day_of(now + now_offset)),
{
    if same_day(t, t_offset, now, now_offset) {
        TIME
    } else {
        DAY_TIME
    }
}

/// Appends when a limit runs out, if that is known, and when it resets, given how far
/// local time is ahead.
pub fn push_times_at(
    out: &mut String,
    eta: Option<i64>,
    reset: i64,
    now: i64,
    reset_fmt: &str,
    at: Offsets,
)
    ensures
        final(out)@ == old(out)@ + times_text(eta, reset as int, now as int, reset_fmt@, at),
{
    let eta_s: Option<String> = match eta {
        None => None,
        Some(t) => {
            let clock: Option<String> = if t >= reset {
                None
            } else {
                let format: &'static str = match (at.eta, at.now) {
                    (Some(x), Some(y)) => eta_format_at(t, x, now, y),
                    _ => DAY_TIME,
                };
                fmt_ts_at(t, at.eta, format)
            };
            eta_text(t, reset, now, clock)
        },
    };
    let reset_s: Option<String> = fmt_ts_at(reset, at.reset, reset_fmt);
    push_bracketed(out, eta_s, reset_s);
}

/// Appends when a limit runs out, if that is known, and when it resets, in local time.
pub fn push_times(out: &mut String, eta: Option<i64>, reset: i64, now: i64, reset_fmt: &str)
    ensures
        exists|at: Offsets| #[trigger]
            are_offsets(eta, reset as int, now as int, at) && final(out)@ == old(out)@
                + times_text(eta, reset as int, now as int, reset_fmt@, at),
{
    let at: Offsets = Offsets {
        eta: match eta {
            Some(t) => local_offset(t),
            None => None,
        },
        now: local_offset(now),
        reset: local_offset(reset),
    };
    assert(are_offsets(eta, reset as int, now as int, at));
    push_times_at(out, eta, reset, now, reset_fmt, at);
}

/// The characters of a printed time: digits, a colon, a space, and the letters of a
/// day's name.
pub open spec fn is_time_char(c: char) -> bool {
    let u = c as u32;
    ||| 48 <= u <= 58
    ||| u == 32
    ||| 65 <= u <= 90
    ||| 97 <= u <= 122
}

proof fn lemma_hour_minute(local: int)
    ensures
        forall|i: int|
            0 <= i < hour_minute(local).len() ==> is_time_char(#[trigger] hour_minute(local)[i]),
{
    let h = local % 86400 / 3600;
    let m = local % 3600 / 60;
    assert(0 <= h < 24 && 0 <= m < 60);
    let s = hour_minute(local);
    assert forall|i: int| 0 <= i < s.len() implies is_time_char(#[trigger] s[i]) by {
        assert(s[0] == digit(h / 10) && s[1] == digit(h % 10) && s[2] == ':');
        assert(s[3] == digit(m / 10) && s[4] == digit(m % 10));
    }
}

/// A time in one of the two formats is printed if the calendar reaches to it, and in
/// plain characters.
pub proof fn law_time_plain(ts: int, offset: int, format: Seq<char>)
    requires
        is_offset(offset),
        format == TIME@ || format == DAY_TIME@,
    ensures
        time_text(ts, offset, format) is Some == in_calendar(ts),
        time_text(ts, offset, format) matches Some(s) ==> s.len() > 0 && forall|i: int|
            0 <= i < s.len() ==> is_time_char(#[trigger] s[i]),
{
    if in_calendar(ts) {
        let local = ts + offset;
        lemma_hour_minute(local);
        let day = weekday(local);
        let clock = hour_minute(local);
        let s = time_text(ts, offset, format)->0;
        if format != TIME@ {
            assert(s == day + seq![' '] + clock);
            assert(day.len() == 3);
            assert forall|i: int| 0 <= i < s.len() implies is_time_char(#[trigger] s[i]) by {
                if i < 3 {
                    assert(s[i] == day[i]);
                } else if i > 3 {
                    assert(s[i] == clock[i - 4]);
                }
            }
        }
    }
}

/// A time past the reset is shown in hours that are rounded up.
pub proof fn law_hours_round_up(t: int, reset: int)
    requires
        t >= reset,
    ensures
        0 <= hours_past(t, reset) <= MAX_HOURS,
        hours_past(t, reset) < MAX_HOURS ==> 3600 * (hours_past(t, reset) - 1) < t - reset <= 3600
            * hours_past(t, reset),
        hours_past(t, reset) == MAX_HOURS ==> t - reset > 3600 * (MAX_HOURS - 1),
{
}

/// The colour of a time that is near ends with it: the time of the reset behind it is
/// not coloured.
pub proof fn law_colour_ends(t: int, reset: int, now: int, clock: Seq<char>, r: Seq<char>)
    requires
        t < reset,
        t - now < URGENT_SECS,
    ensures
        bracketed(eta_shown(t, reset, now, Some(clock)), Some(r)) == " ("@ + seq!['~'] + URGENT@
            + clock + (FG_RESET@ + " / "@) + r + ")"@,
{
    assert(bracketed(eta_shown(t, reset, now, Some(clock)), Some(r)) =~= " ("@ + seq!['~'] + URGENT@
        + clock + (FG_RESET@ + " / "@) + r + ")"@);
}

/// A time that is not near, or lies past the reset, is not coloured: it holds no escape
/// character.
pub proof fn law_colour_only_near(t: int, reset: int, now: int, at: Offsets)
    requires
        t >= reset || t - now >= URGENT_SECS,
    ensures
        eta_shown_at(t, reset, now, at) matches Some(s) ==> !s.contains('\x1b'),
{
    let shown = eta_shown_at(t, reset, now, at);
    if shown is Some {
        let s = shown->0;
        if t >= reset {
            let n = hours_past(t, reset);
            law_hours_round_up(t, reset);
            lemma_digits(n as nat);
            let row = decimal(n);
            assert forall|i: int| 0 <= i < s.len() implies s[i] != '\x1b' by {
                if 0 < i && i < s.len() - 1 {
                    assert(s[i] == row[i - 1]);
                    assert(is_digit(row[i - 1]));
                }
            }
        } else {
            let clock = local_text(t, at.eta, format_at(t, now, at));
            law_time_plain(t, at.eta->0 as int, format_at(t, now, at));
            let c = clock->0;
            assert forall|i: int| 0 <= i < s.len() implies s[i] != '\x1b' by {
                if i > 0 {
                    assert(s[i] == c[i - 1]);
                    assert(is_time_char(c[i - 1]));
                }
            }
        }
    }
}

/// Without a forecast, only the reset is shown: in brackets, with neither of the marks
/// of a forecast.
pub proof fn law_reset_only(reset: int, now: int, reset_fmt: Seq<char>, at: Offsets)
    requires
        are_offsets(None, reset, now, at),
        reset_fmt == TIME@ || reset_fmt == DAY_TIME@,
        in_calendar(reset),
    ensures
        " ("@.is_prefix_of(times_text(None, reset, now, reset_fmt, at)),
        ")"@.is_suffix_of(times_text(None, reset, now, reset_fmt, at)),
        !times_text(None, reset, now, reset_fmt, at).contains('~'),
        !times_text(None, reset, now, reset_fmt, at).contains('+'),
{
    let text = times_text(None, reset, now, reset_fmt, at);
    let r = local_text(reset, at.reset, reset_fmt);
    law_time_plain(reset, at.reset->0 as int, reset_fmt);
    let s = r->0;
    reveal_strlit(" (");
    reveal_strlit(")");
    assert(text == " ("@ + s + ")"@);
    let n = text.len() as int;
    assert forall|i: int| 0 <= i < n implies text[i] != '~' && text[i] != '+' by {
        if 2 <= i < n - 1 {
            assert(text[i] == s[i - 2]);
            assert(is_time_char(s[i - 2]));
        }
    }
    assert(" ("@ =~= text.take(2));
    assert(")"@ =~= text.skip(n - 1));
}

/// A time before the reset is always shown where it can be printed, behind a tilde: in
/// bright red if it is less than fifteen minutes away, and plain else. Where it cannot
/// be printed, nothing is.
pub proof fn law_eta_before_reset(t: int, reset: int, now: int, clock: Seq<char>)
    requires
        t < reset,
    ensures
        t - now >= 15 * 60 ==> eta_shown(t, reset, now, Some(clock)) == Some("~"@ + clock),
        t - now < 15 * 60 ==> eta_shown(t, reset, now, Some(clock)) == Some(
            "~"@ + "\x1b[91m"@ + clock + "\x1b[39m"@,
        ),
        eta_shown(t, reset, now, None) is None,
{
    reveal_strlit("~");
    assert("~"@ =~= seq!['~']);
}

/// A time at or past the reset is always shown, whatever the time of day: as the number
/// `hours` of hours begun since the reset, or 9999 where there are more.
pub proof fn law_eta_past_reset(
    t: int,
    reset: int,
    now: int,
    clock: Option<Seq<char>>,
) -> (hours: int)
    requires
        t >= reset,
    ensures
        eta_shown(t, reset, now, clock) == Some("+"@ + decimal(hours) + "h"@),
        0 <= hours <= 9999,
        3600 * (hours - 1) < t - reset,
        t - reset <= 3600 * hours || hours == 9999,
{
    reveal_strlit("+");
    reveal_strlit("h");
    assert("+"@ =~= seq!['+']);
    assert("h"@ =~= seq!['h']);
    hours_past(t, reset)
}

/// The time of day at which a limit runs out is that of its second in local time. The
/// day of the week stands before it, unless it is known that it is the present day.
pub proof fn law_eta_clock(t: int, reset: int, now: int, at: Offsets)
    requires
        t < reset,
    ensures
        ({
            let shown = eta_shown_at(t, reset, now, at);
            &&& !in_calendar(t) ==> shown is None
            &&& at.eta matches Some(x) ==> !is_offset(x as int) ==> shown is None
            &&& match (at.eta, at.now) {
                (None, _) => shown is None,
                (Some(x), Some(y)) => is_offset(x as int) && in_calendar(t) ==> shown == eta_shown(
                    t,
                    reset,
                    now,
                    Some(
                        if (t + x) / 86400 == (now + y) / 86400 {
                            hour_minute(t + x)
                        } else {
                            weekday(t + x) + " "@ + hour_minute(t + x)
                        },
                    ),
                ),
                (Some(x), None) => is_offset(x as int) && in_calendar(t) ==> shown == eta_shown(
                    t,
                    reset,
                    now,
                    Some(weekday(t + x) + " "@ + hour_minute(t + x)),
                ),
            }
        }),
{
    if at.eta is Some && is_offset(at.eta->0 as int) && in_calendar(t) {
        law_time_text(t, at.eta->0 as int, TIME@);
    }
}

/// Of the two times, those that can be shown stand in brackets, the forecast first and a
/// slash between them.
pub proof fn law_times_text(
    eta: Option<i64>,
    reset: int,
    now: int,
    reset_fmt: Seq<char>,
    at: Offsets,
)
    ensures
        ({
            let text = times_text(eta, reset, now, reset_fmt, at);
            let e = match eta {
                Some(t) => eta_shown_at(t as int, reset, now, at),
                None => None,
            };
            let r = match at.reset {
                Some(x) => time_text(reset, x as int, reset_fmt),
                None => None,
            };
            &&& e is Some && r is Some ==> text == " ("@ + e->0 + " / "@ + r->0 + ")"@
            &&& e is Some && r is None ==> text == " ("@ + e->0 + ")"@
            &&& e is None && r is Some ==> text == " ("@ + r->0 + ")"@
            &&& e is None && r is None ==> text.len() == 0
        }),
{
}

/// What can be shown of two times stands in brackets, in full.
pub proof fn law_bracketed(e: Seq<char>, r: Seq<char>)
    ensures
        bracketed(Some(e), Some(r)) == " ("@ + e + " / "@ + r + ")"@,
        bracketed(Some(e), None) == " ("@ + e + ")"@,
        bracketed(None, Some(r)) == " ("@ + r + ")"@,
        bracketed(None, None).len() == 0,
{
}

/// The day of the week is printed unless the day is the same.
pub proof fn law_eta_format(same: bool)
    ensures
        eta_format(same) == if same {
            "%H:%M"@
        } else {
            "%a %H:%M"@
        },
{
}

/// How far local time is ahead is known at each of the three times to which the calendar
/// reaches, and is less than a day.
pub proof fn law_offsets(eta: Option<i64>, reset: int, now: int, at: Offsets)
    requires
        are_offsets(eta, reset, now, at),
    ensures
        eta matches Some(t) ==> may_be_ahead(t as int, at.eta),
        may_be_ahead(now, at.now),
        may_be_ahead(reset, at.reset),
{
}

} // verus!
