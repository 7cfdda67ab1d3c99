use statusline::binary64::Binary64;
use statusline::harvest::{harvest_rates, windows, Gain, Window, RATES_KEEP};
use statusline::median::{median, prior};
use statusline::rates::{load_rates, render_rates, value_rates, RateRow};
use statusline::samples::Sample;

const NOW: i64 = 1_750_000_000;

fn number(x: f64) -> Binary64 {
    Binary64 { bits: x.to_bits() }
}

fn float(x: Binary64) -> f64 {
    f64::from_bits(x.bits)
}

fn linear_samples(now: i64, reset: i64, minutes: i64, start: f64, per_min: f64) -> Vec<Sample> {
    (1..=minutes)
        .rev()
        .map(|i| Sample {
            ts: now - i * 60,
            five: number(start + (minutes - i) as f64 * per_min),
            five_reset: reset,
            seven: number(-1.0),
            seven_reset: 0,
        })
        .collect()
}

fn gain(w: &Window) -> Gain {
    let used = float(w.last.five) - float(w.first.five);
    Gain { used: number(used), rate: number(used / (w.last.ts - w.first.ts) as f64) }
}

fn harvest(samples: &[Sample], cur_reset: i64, rates: &mut Vec<(i64, Binary64)>) -> bool {
    let ws = windows(samples);
    let gains = ws.iter().map(gain).collect();
    harvest_rates(&ws, &gains, cur_reset, rates)
}

fn middle(v: Vec<f64>) -> Option<f64> {
    median(v.into_iter().map(number).collect()).map(float)
}

#[test]
fn median_basics() {
    assert_eq!(middle(vec![]), None);
    assert_eq!(middle(vec![3.0, 1.0, 2.0]), Some(2.0));
    assert_eq!(middle(vec![4.0, 1.0]), Some(4.0)); // upper median on even n
}

#[test]
fn median_orders_signs_and_sizes() {
    assert_eq!(middle(vec![-1.0, -2.0, -3.0]), Some(-2.0));
    assert_eq!(middle(vec![5.0, -1.0, 0.5, f64::INFINITY, 0.0]), Some(0.5));
    assert_eq!(middle(vec![2.0, 2.0, 1.0, 1.0]), Some(2.0));
    // zeros rank alike and keep their order
    let zero = middle(vec![0.0, -0.0]);
    assert_eq!(zero.map(f64::to_bits), Some((-0.0f64).to_bits()));
}

#[test]
fn one_burst_does_not_skew_the_median() {
    let calm = vec![0.01, 0.02, 0.03, 0.04, 0.05];
    assert_eq!(middle(calm.clone()), Some(0.03));
    for i in 0..5 {
        let mut burst = calm.clone();
        burst[i] = 1000.0;
        let m = middle(burst).unwrap();
        assert!((0.02..=0.04).contains(&m), "median {m}");
    }
}

#[test]
fn prior_is_the_median_of_the_rates() {
    assert_eq!(prior(&Vec::new()), None);
    let rates = vec![(3, number(0.3)), (1, number(0.1)), (2, number(0.2))];
    assert_eq!(prior(&rates), Some(number(0.2)));
}

#[test]
fn harvest_closed_window_rate() {
    let cur_reset = NOW + 4 * 3600;
    let old_reset = NOW - 7200;
    // 30 min span, +18% -> 0.01 %/sec
    let mut samples = linear_samples(NOW - 7200 - 1800, old_reset, 30, 20.6, 0.6);
    samples.extend(linear_samples(NOW, cur_reset, 5, 1.0, 0.5));
    let mut rates = Vec::new();
    assert!(harvest(&samples, cur_reset, &mut rates));
    assert_eq!(rates.len(), 1);
    assert_eq!(rates[0].0, old_reset);
    assert!((float(rates[0].1) - 0.01).abs() < 1e-6, "rate {}", float(rates[0].1));
}

#[test]
fn harvest_skips_current_window_and_dedups() {
    let cur_reset = NOW + 4 * 3600;
    let old_reset = NOW - 7200;
    let mut samples = linear_samples(NOW - 7200 - 1800, old_reset, 30, 20.6, 0.6);
    samples.extend(linear_samples(NOW, cur_reset, 30, 1.0, 0.5));
    let mut rates = vec![(old_reset, number(0.01))];
    // old window already harvested, current one must never be -> no change
    assert!(!harvest(&samples, cur_reset, &mut rates));
    assert_eq!(rates.len(), 1);
}

#[test]
fn harvest_rejects_short_or_flat_windows() {
    let cur_reset = NOW + 4 * 3600;
    // 10 min span (< HARVEST_MIN_SPAN)
    let short = linear_samples(NOW - 7200, NOW - 3600, 10, 20.0, 0.6);
    // 30 min span but only +1.5% (< HARVEST_MIN_PCT)
    let flat = linear_samples(NOW - 7200, NOW - 7000, 30, 20.0, 0.05);
    let mut rates = Vec::new();
    assert!(!harvest(&short, cur_reset, &mut rates));
    assert!(!harvest(&flat, cur_reset, &mut rates));
    assert!(rates.is_empty());
}

#[test]
fn harvest_caps_history_length() {
    let mut rates: Vec<(i64, Binary64)> =
        (0..RATES_KEEP as i64 + 5).map(|i| (i, number(0.01))).collect();
    assert!(harvest(&[], 999_999, &mut rates));
    assert_eq!(rates.len(), RATES_KEEP);
    assert_eq!(rates[0].0, 5); // oldest entries dropped
}

#[test]
fn harvest_takes_the_bounds_themselves() {
    let at = |ts: i64, five: f64| Sample {
        ts,
        five: number(five),
        five_reset: 7,
        seven: number(-1.0),
        seven_reset: 0,
    };
    let mut rates = Vec::new();
    assert!(!harvest(&[at(0, 1.0), at(899, 9.0)], 8, &mut rates));
    assert!(!harvest(&[at(0, 1.0), at(900, 2.9)], 8, &mut rates));
    assert!(harvest(&[at(0, 1.0), at(900, 3.0)], 8, &mut rates));
    assert_eq!(rates, vec![(7, number(2.0 / 900.0))]);
}

#[test]
fn harvest_settles() {
    let mut samples = linear_samples(NOW - 20000, 11, 30, 20.0, 0.6);
    samples.extend(linear_samples(NOW - 10000, 12, 30, 20.0, 0.7));
    samples.extend(linear_samples(NOW - 5000, 11, 30, 20.0, 0.8));
    let mut rates = Vec::new();
    assert!(harvest(&samples, 13, &mut rates));
    // one rate for a window, though its samples stand apart
    assert_eq!(rates.iter().map(|r| r.0).collect::<Vec<i64>>(), vec![11, 12]);
    let before = rates.clone();
    assert!(!harvest(&samples, 13, &mut rates));
    assert_eq!(rates, before);
}

#[test]
fn windows_are_the_longest_stretches() {
    let mut samples = linear_samples(NOW - 300, 11, 2, 1.0, 1.0);
    samples.extend(linear_samples(NOW - 100, 12, 1, 5.0, 1.0));
    samples.extend(linear_samples(NOW, 11, 1, 9.0, 1.0));
    let ws = windows(&samples);
    assert_eq!(ws.iter().map(|w| w.reset).collect::<Vec<i64>>(), vec![11, 12, 11]);
    assert_eq!((ws[0].first, ws[0].last), (samples[0], samples[1]));
    assert_eq!((ws[1].first, ws[1].last), (samples[2], samples[2]));
    assert!(windows(&[]).is_empty());
}

#[test]
fn a_rate_file_is_read_back() {
    let rows = vec![
        RateRow { reset: 1_750_000_000, rate: format!("{}", 0.0125) },
        RateRow { reset: -3, rate: format!("{}", 1e-7) },
    ];
    let file = render_rates(&rows);
    assert_eq!(file, "1750000000 0.0125\n-3 0.0000001\n");
    let read = load_rates(Some(&file));
    let values = read.iter().map(|r| r.rate.parse().ok().map(number)).collect();
    let rates = value_rates(&read, &values);
    assert_eq!(rates, vec![(1_750_000_000, number(0.0125)), (-3, number(1e-7))]);
}

#[test]
fn load_rates_skips_malformed_lines() {
    let rows = load_rates(Some("1 0.5\nx 0.5\n2\n3 0.5 0.5\n\n4 bad\n5 0.25"));
    assert_eq!(rows.iter().map(|r| r.reset).collect::<Vec<i64>>(), vec![1, 4, 5]);
    let values = rows.iter().map(|r| r.rate.parse().ok().map(number)).collect();
    let rates = value_rates(&rows, &values);
    assert_eq!(rates, vec![(1, number(0.5)), (5, number(0.25))]);
}

#[test]
fn no_file_means_no_rates() {
    assert!(load_rates(None).is_empty());
    assert!(load_rates(Some("")).is_empty());
}
