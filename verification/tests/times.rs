use chrono::{Local, TimeZone};
use statusline::clock::{fmt_ts, fmt_ts_at, same_day, FIRST_SECOND, LAST_SECOND};
use statusline::times::{
    eta_format_at, eta_text, push_bracketed, push_times, push_times_at, Offsets, FG_RESET, URGENT,
};

const NOW: i64 = 1_750_000_000;
const DAYS: [&str; 7] = ["Sun", "Mon", "Tue", "Wed", "Thu", "Fri", "Sat"];

fn ahead(ts: i64) -> i64 {
    Local.timestamp_opt(ts, 0).single().unwrap().offset().local_minus_utc() as i64
}

fn shown(t: i64, reset: i64, now: i64, clock: Option<&str>) -> Option<String> {
    eta_text(t, reset, now, clock.map(str::to_string))
}

#[test]
fn push_times_overshoot_in_hours() {
    let mut out = String::new();
    let reset = NOW;
    push_times(&mut out, Some(reset + 7 * 3600 + 1800), reset, NOW, "%H:%M");
    assert!(out.contains("(+8h / "), "got {out:?}"); // ceil(7.5h)
}

#[test]
fn push_times_clock_time_before_reset() {
    let mut out = String::new();
    // 30 min out (>= URGENT_SECS) -> plain clock time, no signal color
    push_times(&mut out, Some(NOW + 1800), NOW + 3600, NOW, "%H:%M");
    assert!(out.contains("(~"), "got {out:?}");
    assert!(out.contains(" / "), "got {out:?}");
    assert!(!out.contains(URGENT), "got {out:?}");
}

#[test]
fn push_times_urgent_eta_is_colored() {
    let mut out = String::new();
    // 10 min out (< URGENT_SECS) -> ETA clock time wrapped in the signal color
    push_times(&mut out, Some(NOW + 600), NOW + 3600, NOW, "%H:%M");
    assert!(out.contains(URGENT) && out.contains(FG_RESET), "got {out:?}");
    // color must not leak past the ETA into the reset time
    assert!(out.contains(&format!("{FG_RESET} / ")), "got {out:?}");
}

#[test]
fn push_times_reset_only_without_eta() {
    let mut out = String::new();
    push_times(&mut out, None, NOW, NOW, "%H:%M");
    assert!(!out.contains('~') && !out.contains('+'), "got {out:?}");
    assert!(out.starts_with(" (") && out.ends_with(')'), "got {out:?}");
}

#[test]
fn push_times_appends() {
    let mut out = String::from("5h: 66%");
    push_times(&mut out, Some(NOW), NOW, NOW, "%a %H:%M");
    let reset = Local.timestamp_opt(NOW, 0).single().unwrap().format("%a %H:%M").to_string();
    assert_eq!(out, format!("5h: 66% (+0h / {reset})"));
}

#[test]
fn push_times_names_another_day() {
    let mut out = String::new();
    let t = NOW + 3 * 86400;
    push_times(&mut out, Some(t), t + 1, NOW, "%H:%M");
    let eta = Local.timestamp_opt(t, 0).single().unwrap().format("%a %H:%M").to_string();
    assert!(out.starts_with(&format!(" (~{eta} / ")), "got {out:?}");
}

#[test]
fn push_times_names_no_day_today() {
    let local = NOW + ahead(NOW);
    // noon of the same local day, and of the next one
    let noon = NOW - local.rem_euclid(86400) + 43200;
    for (t, format) in [(noon, "%H:%M"), (noon + 86400, "%a %H:%M")] {
        let now = noon - 3600;
        let (x, y) = (ahead(t) as i32, ahead(now) as i32);
        assert_eq!(eta_format_at(t, x, now, y), format);
        let mut out = String::new();
        push_times(&mut out, Some(t), t + 1, now, "%H:%M");
        let eta = Local.timestamp_opt(t, 0).single().unwrap().format(format).to_string();
        assert!(out.starts_with(&format!(" (~{eta} / ")), "got {out:?}");
    }
}

#[test]
fn the_format_depends_on_the_local_days() {
    assert_eq!(eta_format_at(86399, 0, 0, 0), "%H:%M");
    assert_eq!(eta_format_at(86400, 0, 0, 0), "%a %H:%M");
    assert_eq!(eta_format_at(86400, -1, 0, 0), "%H:%M");
    assert_eq!(eta_format_at(86400, -3600, 82800, 3600), "%a %H:%M");
    assert_eq!(eta_format_at(0, -1, 0, 0), "%a %H:%M");
    assert_eq!(eta_format_at(i64::MAX, i32::MAX, i64::MIN, i32::MIN), "%a %H:%M");
}

#[test]
fn push_times_at_given_offsets() {
    // 2025-06-15 15:06:40 in universal time, a Sunday
    let text = |eta: Option<i64>, reset: i64, fmt: &str, at: Offsets| {
        let mut out = String::from("x");
        push_times_at(&mut out, eta, reset, NOW, fmt, at);
        out
    };
    let at = |seconds: i32| Offsets {
        eta: Some(seconds),
        now: Some(seconds),
        reset: Some(seconds),
    };
    let (t, reset) = (NOW + 1800, NOW + 7200);
    assert_eq!(text(Some(t), reset, "%H:%M", at(0)), "x (~15:36 / 17:06)");
    assert_eq!(text(Some(t), reset, "%a %H:%M", at(7200)), "x (~17:36 / Sun 19:06)");
    assert_eq!(
        text(Some(NOW + 600), reset, "%H:%M", at(-3600)),
        "x (~\x1b[91m14:16\x1b[39m / 16:06)"
    );
    assert_eq!(text(Some(reset), reset, "%H:%M", at(0)), "x (+0h / 17:06)");
    assert_eq!(text(None, reset, "%H:%M", at(0)), "x (17:06)");
    // midnight lies between
    assert_eq!(text(Some(t), reset, "%H:%M", at(31200)), "x (~Mon 00:16 / 01:46)");
    let moved = Offsets { eta: Some(0), now: Some(40000), reset: Some(0) };
    assert_eq!(text(Some(t), reset, "%H:%M", moved), "x (~Sun 15:36 / 17:06)");
    let unknown = Offsets { eta: Some(0), now: None, reset: None };
    assert_eq!(text(Some(t), reset, "%H:%M", unknown), "x (~Sun 15:36)");
    let none = Offsets { eta: None, now: Some(0), reset: Some(0) };
    assert_eq!(text(Some(t), reset, "%H:%M", none), "x (17:06)");
    assert_eq!(text(Some(t), reset, "%H:%M", at(86400)), "x");
}

#[test]
fn times_are_printed_at_an_offset() {
    let seconds = [0, -1, NOW, 951_782_400, -62_135_596_800, FIRST_SECOND, LAST_SECOND];
    for ts in seconds {
        for offset in [0, 1, -1, 3600, -12600, 45900, 86399, -86399] {
            let local = ts + offset as i64;
            let clock =
                format!("{:02}:{:02}", local.rem_euclid(86400) / 3600, local.rem_euclid(3600) / 60);
            let day = DAYS[(local.div_euclid(86400) + 4).rem_euclid(7) as usize];
            assert_eq!(fmt_ts_at(ts, Some(offset), "%H:%M"), Some(clock.clone()));
            assert_eq!(fmt_ts_at(ts, Some(offset), "%a %H:%M"), Some(format!("{day} {clock}")));
            assert_eq!(fmt_ts_at(ts, Some(offset), "%s"), Some(ts.to_string()));
        }
        assert_eq!(fmt_ts_at(ts, Some(86400), "%H:%M"), None);
        assert_eq!(fmt_ts_at(ts, Some(-86400), "%H:%M"), None);
        assert_eq!(fmt_ts_at(ts, None, "%H:%M"), None);
    }
    assert_eq!(fmt_ts_at(FIRST_SECOND - 1, Some(86399), "%H:%M"), None);
    assert_eq!(fmt_ts_at(LAST_SECOND + 1, Some(-86399), "%H:%M"), None);
    assert_eq!(fmt_ts_at(0, Some(0), "%"), None);
    assert_eq!(fmt_ts_at(0, Some(-12600), "%F %z"), Some("1969-12-31 -0330".to_string()));
}

#[test]
fn push_times_beyond_the_calendar() {
    let mut out = String::new();
    push_times(&mut out, Some(LAST_SECOND + 1), i64::MAX, NOW, "%H:%M");
    assert_eq!(out, "");
    push_times(&mut out, Some(i64::MAX), LAST_SECOND + 1, NOW, "%H:%M");
    assert_eq!(out, " (+9999h)");
    push_times(&mut out, Some(i64::MIN), i64::MAX, i64::MAX, "%H:%M");
    assert_eq!(out, " (+9999h)");
}

#[test]
fn hours_are_rounded_up_and_capped() {
    let plus = |seconds: i64| shown(seconds, 0, 0, None);
    assert_eq!(plus(0).as_deref(), Some("+0h"));
    assert_eq!(plus(1).as_deref(), Some("+1h"));
    assert_eq!(plus(3600).as_deref(), Some("+1h"));
    assert_eq!(plus(3601).as_deref(), Some("+2h"));
    assert_eq!(plus(9999 * 3600).as_deref(), Some("+9999h"));
    assert_eq!(plus(1_000_000_000).as_deref(), Some("+9999h"));
    assert_eq!(shown(i64::MAX, i64::MIN, 0, None).as_deref(), Some("+9999h"));
}

#[test]
fn times_are_flagged_when_near() {
    assert_eq!(shown(900, 5000, 0, Some("20:29")).as_deref(), Some("~20:29"));
    assert_eq!(shown(899, 5000, 0, Some("20:29")).as_deref(), Some("~\x1b[91m20:29\x1b[39m"));
    assert_eq!(shown(-5, 5000, 0, Some("20:29")).as_deref(), Some("~\x1b[91m20:29\x1b[39m"));
    assert_eq!(shown(900, 5000, 0, None), None);
}

#[test]
fn brackets_hold_what_is_known() {
    let text = |eta: Option<&str>, reset: Option<&str>| {
        let mut out = String::from("x");
        push_bracketed(&mut out, eta.map(str::to_string), reset.map(str::to_string));
        out
    };
    assert_eq!(text(Some("~20:29"), Some("23:52")), "x (~20:29 / 23:52)");
    assert_eq!(text(Some("+8h"), Some("23:52")), "x (+8h / 23:52)");
    assert_eq!(text(None, Some("23:52")), "x (23:52)");
    assert_eq!(text(Some("+8h"), None), "x (+8h)");
    assert_eq!(text(None, None), "x");
}

#[test]
fn times_are_printed_in_local_time() {
    for ts in [0, -1, NOW, NOW + 86399, 951_782_400, -2_000_000_000, 4_102_444_800] {
        let local = ts + ahead(ts);
        let clock =
            format!("{:02}:{:02}", local.rem_euclid(86400) / 3600, local.rem_euclid(3600) / 60);
        let day = DAYS[(local.div_euclid(86400) + 4).rem_euclid(7) as usize];
        assert_eq!(fmt_ts(ts, "%H:%M"), Some(clock.clone()));
        assert_eq!(fmt_ts(ts, "%a %H:%M"), Some(format!("{day} {clock}")));
    }
}

#[test]
fn any_format_is_printed() {
    let time = Local.timestamp_opt(NOW, 0).single().unwrap();
    assert_eq!(fmt_ts(NOW, "%Y-%m-%d %z"), Some(time.format("%Y-%m-%d %z").to_string()));
    assert_eq!(fmt_ts(NOW, "%s"), Some(NOW.to_string()));
    assert_eq!(fmt_ts(NOW, "%"), None);
}

#[test]
fn the_calendar_ends() {
    assert!(fmt_ts(FIRST_SECOND, "%a %H:%M").is_some());
    assert!(fmt_ts(LAST_SECOND, "%a %H:%M").is_some());
    assert_eq!(fmt_ts(FIRST_SECOND - 1, "%H:%M"), None);
    assert_eq!(fmt_ts(LAST_SECOND + 1, "%H:%M"), None);
    assert_eq!(fmt_ts(i64::MAX, "%H:%M"), None);
    assert_eq!(fmt_ts(i64::MIN, "%H:%M"), None);
}

#[test]
fn days_are_local() {
    assert!(same_day(0, 0, 86399, 0));
    assert!(!same_day(0, 0, 86400, 0));
    assert!(!same_day(0, 0, -1, 0));
    assert!(same_day(-1, 1, 0, 0));
    assert!(!same_day(0, -1, 0, 0));
    assert!(same_day(-86400, 0, -1, 0));
}
