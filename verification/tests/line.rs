use chrono::{Local, TimeZone};
use serde_json::Value;
use statusline::binary64::Binary64;
use statusline::dirs::{cache_dir, home_dir, CacheDir};
use statusline::line::{compose_line, sep, status_line};
use statusline::payload::{fval, ival, payload_from, pct, read_payload, str_at, Payload};

const NOW: i64 = 1_750_000_000;

const JSON: &str = r#"{
    "model": {"display_name": "Fable 5"},
    "effort": {"level": "high"},
    "context_window": {"used_percentage": 37.5},
    "rate_limits": {
        "five_hour": {"used_percentage": 66.4, "resets_at": 1750003600},
        "seven_day": {"used_percentage": 12, "resets_at": 1750100000}
    },
    "cwd": "/home/you/foo"
}"#;

fn number(x: f64) -> Binary64 {
    Binary64 { bits: x.to_bits() }
}

fn bare(model: &str) -> Payload {
    Payload {
        model: model.to_string(),
        effort: None,
        context: None,
        five: None,
        seven: None,
        cwd: None,
    }
}

#[test]
fn separator_only_behind_content() {
    assert_eq!(sep(""), "");
    assert_eq!(sep("x"), " | ");
}

#[test]
fn payload_is_read() {
    let p = read_payload(JSON);
    assert_eq!(p.model, "Fable 5");
    assert_eq!(p.effort.as_deref(), Some("high"));
    assert_eq!(p.context, Some(38));
    assert_eq!(p.five, Some((number(66.4), 1_750_003_600)));
    assert_eq!(p.seven, Some((number(12.0), 1_750_100_000)));
    assert_eq!(p.cwd.as_deref(), Some("/home/you/foo"));
}

#[test]
fn payload_is_taken_from_a_value() {
    let v: Value = serde_json::from_str(JSON).unwrap();
    let p = payload_from(&v);
    assert_eq!(p.model, "Fable 5");
    assert_eq!(p.effort.as_deref(), Some("high"));
    assert_eq!(p.context, Some(38));
    assert_eq!(p.five, Some((number(66.4), 1_750_003_600)));
    assert_eq!(p.seven, Some((number(12.0), 1_750_100_000)));
    assert_eq!(p.cwd.as_deref(), Some("/home/you/foo"));
    let p = payload_from(&v["model"]);
    assert_eq!(p.model, "");
    assert!(p.five.is_none() && p.cwd.is_none());
}

#[test]
fn payload_may_be_missing_or_broken() {
    for text in ["", "{", "null", "[]", "{}", "7", "{\"model\":\"x\",\"cwd\":3}"] {
        let p = read_payload(text);
        assert_eq!(p.model, "");
        assert!(p.effort.is_none() && p.context.is_none() && p.cwd.is_none());
        assert!(p.five.is_none() && p.seven.is_none());
    }
}

#[test]
fn a_limit_takes_both_values() {
    let p = read_payload(r#"{"rate_limits":{"five_hour":{"used_percentage":5}}}"#);
    assert_eq!(p.five, None);
    let p = read_payload(r#"{"rate_limits":{"five_hour":{"resets_at":5}}}"#);
    assert_eq!(p.five, None);
    let p =
        read_payload(r#"{"rate_limits":{"five_hour":{"used_percentage":5,"resets_at":5.5}}}"#);
    assert_eq!(p.five, None);
}

#[test]
fn paths_lead_through_objects() {
    let v: Value = serde_json::from_str(
        r#"{"a":{"b":"text","n":41.5,"i":-7,"big":18446744073709551615},"l":["a"]}"#,
    )
    .unwrap();
    assert_eq!(str_at(&v, &["a", "b"]), Some("text"));
    assert_eq!(str_at(&v, &["a", "n"]), None);
    assert_eq!(str_at(&v, &["a", "x"]), None);
    assert_eq!(str_at(&v, &["x", "b"]), None);
    assert_eq!(str_at(&v, &["a", "b", "c"]), None);
    assert_eq!(str_at(&v, &["l", "0"]), None);
    assert_eq!(str_at(&v, &[]), None);
    assert_eq!(ival(&v, &["a", "i"]), Some(-7));
    assert_eq!(ival(&v, &["a", "n"]), None);
    assert_eq!(ival(&v, &["a", "big"]), None);
    assert_eq!(fval(&v, &["a", "n"]), Some(number(41.5)));
    assert_eq!(fval(&v, &["a", "i"]), Some(number(-7.0)));
    assert_eq!(fval(&v, &["a", "b"]), None);
    assert_eq!(pct(&v, &["a", "n"]), Some(42));
    assert_eq!(pct(&v, &["a", "i"]), Some(-7));
    assert_eq!(pct(&v, &["a"]), None);
}

#[test]
fn line_holds_all_fields() {
    let p = read_payload(JSON);
    let line = compose_line("09:48", Some("me@x.io"), &p, " (~20:29 / 23:52)", " (Mon 10:00)");
    assert_eq!(
        line,
        "09:48 | me@x.io | Fable 5 high | ctx: 38% | \x1b[1m5h: 66% (~20:29 / 23:52)\x1b[0m | \
         7d: 12% (Mon 10:00) | /home/you/foo"
    );
}

#[test]
fn line_leaves_out_what_is_missing() {
    assert_eq!(compose_line("09:48", None, &bare("M"), "", ""), "09:48 | M");
    assert_eq!(compose_line("09:48", None, &bare(""), "", ""), "09:48 | ");
    assert_eq!(compose_line("", None, &bare("M"), "", ""), "M");
    let mut p = bare("M");
    p.cwd = Some(String::new());
    assert_eq!(compose_line("09:48", None, &p, "", ""), "09:48 | M");
    p.cwd = Some("/x".to_string());
    assert_eq!(compose_line("09:48", None, &p, "", ""), "09:48 | M | /x");
}

#[test]
fn status_line_prints_times_in_local_time() {
    let p = read_payload(JSON);
    let line = status_line("09:48", None, &p, Some(1_750_003_600 + 7200), NOW);
    let at = |ts: i64, fmt: &str| {
        Local.timestamp_opt(ts, 0).single().unwrap().format(fmt).to_string()
    };
    assert_eq!(
        line,
        format!(
            "09:48 | Fable 5 high | ctx: 38% | \x1b[1m5h: 66% (+2h / {})\x1b[0m | 7d: 12% ({}) | \
             /home/you/foo",
            at(1_750_003_600, "%H:%M"),
            at(1_750_100_000, "%a %H:%M")
        )
    );
}

#[test]
fn directories_are_chosen_in_order() {
    assert_eq!(cache_dir(Some(1), Some(2), Some(3)), Some(CacheDir::Named(1)));
    assert_eq!(cache_dir(None, Some(2), Some(3)), Some(CacheDir::InHome(2)));
    assert_eq!(cache_dir(None, None, Some(3)), Some(CacheDir::InHome(3)));
    assert_eq!(cache_dir::<i32>(None, None, None), None);
    assert_eq!(home_dir(Some(2), Some(3)), Some(2));
    assert_eq!(home_dir(None, Some(3)), Some(3));
    assert_eq!(home_dir::<i32>(None, None), None);
}
