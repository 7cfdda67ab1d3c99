use statusline::binary64::Binary64;
use statusline::samples::{
    load_samples, record_sample, render_samples, value_samples, Sample, SampleRow,
};

fn number(x: f64) -> Binary64 {
    Binary64 { bits: x.to_bits() }
}

fn value(text: &str) -> Option<Binary64> {
    text.parse().ok().map(number)
}

fn samples_in(data: &str) -> Vec<Sample> {
    let rows = load_samples(Some(data));
    let values = rows.iter().map(|r| value(&r.five).zip(value(&r.seven))).collect();
    value_samples(&rows, &values)
}

fn sample(ts: i64, five: f64) -> Sample {
    Sample { ts, five: number(five), five_reset: 200, seven: number(-1.0), seven_reset: 0 }
}

#[test]
fn load_samples_skips_malformed_lines() {
    let s = samples_in("100 1.5 200 2.5 300\ngarbage\n101 1.6 200 -1 0\n1 2 3\n");
    assert_eq!(s.len(), 2);
    assert_eq!(s[1].ts, 101);
    assert_eq!(f64::from_bits(s[1].seven.bits), -1.0);
}

#[test]
fn load_samples_skips_what_is_no_number() {
    let s = samples_in("1 x 2 3 4\n1 2 x 3 4\nx 1 2 3 4\n1 2 3 x 4\n1 2 3 4 x\n1 2 3 4 5 6\n");
    assert!(s.is_empty());
    assert_eq!(load_samples(Some("1 x 2 3 4\n1 2 x 3 4\n")).len(), 1);
    let t = samples_in("  7\t1e1  8 inf -9\r\n");
    assert_eq!(t.len(), 1);
    assert_eq!((t[0].ts, t[0].five_reset, t[0].seven_reset), (7, 8, -9));
    assert_eq!(t[0].five, number(10.0));
    assert_eq!(t[0].seven, number(f64::INFINITY));
}

#[test]
fn a_sample_file_is_read_back() {
    let rows: Vec<SampleRow> = [(100, 1.5, 300, 2.25), (-7, 66.2, i64::MAX, -1.0)]
        .iter()
        .map(|&(ts, five, reset, seven)| SampleRow {
            ts,
            five: format!("{five}"),
            five_reset: reset,
            seven: format!("{seven}"),
            seven_reset: 0,
        })
        .collect();
    let file = render_samples(&rows);
    assert_eq!(file, "100 1.5 300 2.25 0\n-7 66.2 9223372036854775807 -1 0\n");
    let s = samples_in(&file);
    assert_eq!(s.len(), 2);
    assert_eq!((s[0].ts, s[0].five, s[0].five_reset), (100, number(1.5), 300));
    assert_eq!((s[1].ts, s[1].five, s[1].five_reset), (-7, number(66.2), i64::MAX));
    assert_eq!((s[0].seven, s[1].seven), (number(2.25), number(-1.0)));
    assert_eq!(render_samples(&Vec::new()), "");
}

#[test]
fn a_bad_line_costs_only_itself() {
    let one = "1 2 3 4 5\n";
    let two = "6 7 8 9 10\n";
    let all = load_samples(Some(&format!("{one}broken line\n{two}")));
    assert_eq!(all.len(), load_samples(Some(one)).len() + load_samples(Some(two)).len());
    assert_eq!((all[0].ts, all[1].ts), (1, 6));
}

#[test]
fn samples_are_taken_at_most_every_ten_seconds() {
    let mut log = Vec::new();
    assert!(record_sample(&mut log, 1000, (number(1.0), 200), None));
    assert_eq!(log, vec![sample(1000, 1.0)]);
    assert!(!record_sample(&mut log, 1009, (number(2.0), 200), None));
    assert_eq!(log, vec![sample(1000, 1.0)]);
    assert!(!record_sample(&mut log, 500, (number(2.0), 200), None));
    assert!(record_sample(&mut log, 1010, (number(2.0), 200), None));
    assert_eq!(log, vec![sample(1000, 1.0), sample(1010, 2.0)]);
}

#[test]
fn samples_are_kept_for_twelve_hours() {
    let mut log = vec![sample(1000, 1.0), sample(1010, 2.0), sample(1020, 3.0)];
    let now = 1010 + 12 * 3600;
    assert!(record_sample(&mut log, now, (number(4.0), 200), None));
    assert_eq!(log, vec![sample(1010, 2.0), sample(1020, 3.0), sample(now, 4.0)]);
}

#[test]
fn a_sample_holds_both_limits() {
    let mut log = Vec::new();
    assert!(record_sample(&mut log, 5, (number(1.0), 200), Some((number(2.0), 300))));
    assert_eq!(log[0].seven, number(2.0));
    assert_eq!(log[0].seven_reset, 300);
}

#[test]
fn extreme_times_do_not_overflow() {
    let mut log = vec![sample(i64::MIN, 1.0)];
    assert!(record_sample(&mut log, i64::MAX, (number(2.0), 200), None));
    assert_eq!(log, vec![sample(i64::MAX, 2.0)]);
    assert!(!record_sample(&mut log, i64::MIN, (number(2.0), 200), None));
}

#[test]
fn no_file_means_no_samples() {
    assert!(load_samples(None).is_empty());
    assert!(load_samples(Some("")).is_empty());
}
