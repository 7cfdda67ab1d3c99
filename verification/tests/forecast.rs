use statusline::binary64::Binary64;
use statusline::forecast::{
    blend_terms, eta, eta_evidence, Blend, Evidence, Live, Term, Weight, MAX_LEFT,
};
use statusline::samples::Sample;

const NOW: i64 = 1_750_000_000;
const HALF_LIFE: f64 = 15.0 * 60.0;

fn number(x: f64) -> Binary64 {
    Binary64 { bits: x.to_bits() }
}

fn float(x: Binary64) -> f64 {
    f64::from_bits(x.bits)
}

fn linear_samples(now: i64, reset: i64, minutes: i64, start: f64, per_min: f64) -> Vec<Sample> {
    (1..=minutes)
        .rev()
        .map(|i| Sample {
            ts: now - i * 60,
            five: number(start + (minutes - i) as f64 * per_min),
            five_reset: reset,
            seven: number(-1.0),
            seven_reset: 0,
        })
        .collect()
}

fn slope(pts: &[(i64, Binary64)]) -> Option<f64> {
    let tl = pts.last()?.0;
    let (mut sw, mut sx, mut sy, mut sxx, mut sxy) = (0f64, 0f64, 0f64, 0f64, 0f64);
    for &(t, y) in pts {
        let x = (t - tl) as f64;
        let w = (x / HALF_LIFE * std::f64::consts::LN_2).exp();
        sw += w;
        sx += w * x;
        sy += w * float(y);
        sxx += w * x * x;
        sxy += w * x * float(y);
    }
    let d = sw * sxx - sx * sx;
    (d.abs() > f64::EPSILON).then(|| (sw * sxy - sx * sy) / d)
}

fn live_rate(e: &Evidence, cur: f64) -> Option<Binary64> {
    match e.live {
        Live::Slope { .. } => slope(&e.points).map(number),
        Live::Average { elapsed, .. } => Some(number(cur / elapsed as f64)),
        Live::Unknown => None,
    }
}

fn blend(terms: &[Term], cur: f64) -> Blend {
    let (mut num, mut den) = (0f64, 0f64);
    for term in terms {
        let w = term.weight.seconds as f64
            * (1.0 - term.weight.faded as f64 / term.weight.of as f64);
        num += w * float(term.rate);
        den += w;
    }
    let rate = num / den;
    Blend {
        weight: number(den),
        rate: number(rate),
        left: number((100.0 - cur) / rate),
    }
}

fn five_hour_eta(samples: &[Sample], cur: f64, reset: i64, prior: Option<f64>) -> Option<i64> {
    let get = |s: &Sample| (s.five, s.five_reset);
    let e = eta_evidence(samples, NOW, number(cur), reset, 5 * 3600, get);
    let terms = blend_terms(&e, live_rate(&e, cur), prior.map(number));
    eta(NOW, blend(&terms, cur))
}

fn evidence(samples: &[Sample], cur: f64, reset: i64) -> Evidence {
    eta_evidence(samples, NOW, number(cur), reset, 5 * 3600, |s: &Sample| (s.five, s.five_reset))
}

#[test]
fn eta_regression_matches_linear_burn() {
    // 0.9 %/min for 40 min, 66.0% now -> 100% in (34/0.9) min
    let reset = NOW + 4 * 3600;
    let samples = linear_samples(NOW, reset, 40, 30.0, 0.9);
    let t = five_hour_eta(&samples, 66.0, reset, None).unwrap();
    let expected = NOW + (34.0 / 0.9 * 60.0) as i64;
    assert!((t - expected).abs() < 5, "eta {t} vs expected {expected}");
}

#[test]
fn eta_none_when_idle_without_prior() {
    let reset = NOW + 4 * 3600;
    let samples = linear_samples(NOW, reset, 40, 66.2, 0.0);
    assert!(five_hour_eta(&samples, 66.2, reset, None).is_none());
}

#[test]
fn eta_window_average_fallback_under_min_span() {
    // only 2 min of samples, window elapsed 1h at 10% -> 0.1667 %/min
    let reset = NOW + 4 * 3600;
    let samples = linear_samples(NOW, reset, 2, 9.9, 0.05);
    let t = five_hour_eta(&samples, 10.0, reset, None).unwrap();
    let expected = NOW + (90.0 / (10.0 / 3600.0)) as i64; // 9h
    assert!((t - expected).abs() < 5, "eta {t} vs expected {expected}");
}

#[test]
fn eta_prior_dominates_fresh_window() {
    // no samples, window 5 min old at 2%: blend of window avg (w=300) and prior (w=1200)
    let reset = NOW + 295 * 60;
    let prior = 0.02; // %/sec
    let t = five_hour_eta(&[], 2.0, reset, Some(prior)).unwrap();
    let rate = (300.0 * (2.0 / 300.0) + 1200.0 * prior) / 1500.0;
    let expected = NOW + (98.0 / rate) as i64;
    assert!((t - expected).abs() < 5, "eta {t} vs expected {expected}");
}

#[test]
fn eta_prior_fully_faded_at_lookback() {
    // 45 min of flat live data: prior weight is 0, idle -> no projection
    let reset = NOW + 4 * 3600;
    let samples = linear_samples(NOW, reset, 45, 66.2, 0.0);
    assert!(five_hour_eta(&samples, 66.2, reset, Some(0.02)).is_none());
}

#[test]
fn eta_ignores_other_windows() {
    // samples from a previous window must not feed the regression: with them
    // filtered out only the window-average fallback remains (5% over 1h elapsed)
    let reset = NOW + 4 * 3600;
    let samples = linear_samples(NOW, reset - 7200, 40, 30.0, 0.9);
    let t = five_hour_eta(&samples, 5.0, reset, None).unwrap();
    let expected = NOW + (95.0 / (5.0 / 3600.0)) as i64;
    assert!((t - expected).abs() < 5, "eta {t} vs expected {expected}");
}

#[test]
fn points_are_live_samples_and_the_present() {
    let reset = NOW + 3600;
    let mut samples = linear_samples(NOW, reset, 50, 10.0, 1.0);
    samples[20].five = number(-1.0);
    samples[21].five = number(f64::NAN);
    samples[22].five_reset = reset + 1;
    let e = evidence(&samples, 70.0, reset);
    // the five oldest are out of reach, three others do not count
    assert_eq!(e.points.len(), 50 - 5 - 3 + 1);
    assert_eq!(e.points[0], (NOW - 2700, number(15.0)));
    assert_eq!(e.points.last(), Some(&(NOW, number(70.0))));
    assert_eq!(e.span, 2700);
    assert_eq!(e.live, Live::Slope { weight: 2700 });
}

#[test]
fn a_sample_taken_now_stands_for_the_present() {
    let reset = NOW + 3600;
    let samples = linear_samples(NOW + 60, reset, 2, 10.0, 1.0);
    assert_eq!(samples[1].ts, NOW);
    let e = evidence(&samples, 70.0, reset);
    assert_eq!(e.points, vec![(NOW - 60, number(10.0)), (NOW, number(11.0))]);
    assert_eq!(e.span, 60);
}

#[test]
fn a_fit_takes_three_points() {
    let reset = NOW + 3600;
    let far = linear_samples(NOW - 600, reset, 1, 10.0, 1.0);
    assert_eq!(evidence(&far, 12.0, reset).live, Live::Unknown);
    let two = linear_samples(NOW - 600, reset, 2, 10.0, 1.0);
    assert_eq!(evidence(&two, 12.0, reset).live, Live::Slope { weight: 720 });
}

#[test]
fn a_fresh_window_has_no_average() {
    let reset = NOW + 5 * 3600;
    assert_eq!(evidence(&[], 1.0, reset - 59).live, Live::Unknown);
    assert_eq!(evidence(&[], 1.0, reset - 60).live, Live::Average { weight: 60, elapsed: 60 });
    assert_eq!(evidence(&[], 1.0, reset - 299).live, Live::Average { weight: 299, elapsed: 299 });
    assert_eq!(evidence(&[], 1.0, reset - 900).live, Live::Average { weight: 300, elapsed: 900 });
    // a reset further away than the window is long
    assert_eq!(evidence(&[], 1.0, reset + 10).live, Live::Unknown);
}

#[test]
fn the_limit_is_the_one_that_is_read() {
    let mut samples = linear_samples(NOW, 11, 10, 1.0, 1.0);
    samples[3].seven = number(4.0);
    samples[3].seven_reset = 12;
    let get = |s: &Sample| (s.seven, s.seven_reset);
    let e = eta_evidence(&samples, NOW, number(5.0), 12, 7 * 86400, get);
    assert_eq!(e.points, vec![(samples[3].ts, number(4.0)), (NOW, number(5.0))]);
}

#[test]
fn eta_adds_what_is_left_to_the_present() {
    let of = |weight: f64, rate: f64, left: f64| {
        eta(100, Blend { weight: number(weight), rate: number(rate), left: number(left) })
    };
    assert_eq!(of(1.0, 0.5, 60.0), Some(160));
    assert_eq!(of(1.0, 0.5, 60.999), Some(160));
    assert_eq!(of(1.0, 0.5, -60.0), Some(40));
    assert_eq!(of(1.0, 0.5, -60.999), Some(40));
    assert_eq!(of(1.0, 0.0, 60.0), None);
    assert_eq!(of(1.0, -0.5, 60.0), None);
    assert_eq!(of(0.0, 0.5, 60.0), None);
    assert_eq!(of(0.0, f64::NAN, 60.0), None);
}

#[test]
fn eta_is_capped() {
    let left = |rate: f64, left: f64| {
        let b = Blend { weight: number(1.0), rate: number(rate), left: number(left) };
        assert_eq!(eta(NOW, b), Some(NOW + b.seconds_left()));
        b.seconds_left()
    };
    for x in [0.0, 0.5, 3.7, 999_999_999.9, 1e9, 1_000_000_000.5, 2e9, 1e300, f64::INFINITY] {
        assert_eq!(left(0.5, x), x.min(1e9) as i64, "{x}");
    }
    assert_eq!(left(0.5, f64::NAN), MAX_LEFT);
    assert_eq!(left(f64::NAN, f64::NAN), MAX_LEFT);
    assert_eq!(left(f64::NAN, 60.0), MAX_LEFT);
    assert_eq!(left(1e-12, 66.0 / 1e-12), 1_000_000_000);
}

#[test]
fn rates_below_zero_count_as_zero() {
    let reset = NOW + 3600;
    let e = evidence(&linear_samples(NOW, reset, 10, 50.0, -1.0), 40.0, reset);
    let terms = blend_terms(&e, Some(number(-0.01)), Some(number(f64::NAN)));
    assert_eq!(
        terms,
        vec![
            Term { weight: Weight { seconds: 600, faded: 0, of: 1 }, rate: number(0.0) },
            Term { weight: Weight { seconds: 1200, faded: 600, of: 2700 }, rate: number(0.0) },
        ]
    );
}

#[test]
fn the_prior_counts_until_live_data_covers_the_lookback() {
    let reset = NOW + 3600;
    let rate = Some(number(0.01));
    let prior = Some(number(0.02));
    let half = evidence(&linear_samples(NOW, reset, 22, 1.0, 0.6), 20.0, reset);
    assert_eq!(blend_terms(&half, rate, prior).len(), 2);
    assert_eq!(blend_terms(&half, rate, None).len(), 1);
    assert_eq!(blend_terms(&half, None, None).len(), 0);
    let full = evidence(&linear_samples(NOW, reset, 45, 1.0, 0.6), 20.0, reset);
    assert_eq!(
        blend_terms(&full, rate, prior),
        vec![Term { weight: Weight { seconds: 2700, faded: 0, of: 1 }, rate: number(0.01) }]
    );
    // nothing but the prior in a fresh window
    let fresh = evidence(&[], 0.0, NOW + 5 * 3600);
    assert_eq!(
        blend_terms(&fresh, None, prior),
        vec![Term { weight: Weight { seconds: 1200, faded: 0, of: 2700 }, rate: number(0.02) }]
    );
}

#[test]
fn the_prior_fades_linearly() {
    let reset = NOW + 3600;
    let parts = |minutes: i64| {
        let e = evidence(&linear_samples(NOW, reset, minutes, 1.0, 0.6), 20.0, reset);
        assert_eq!(e.span, minutes as i128 * 60);
        let w = blend_terms(&e, None, Some(number(0.02)))[0].weight;
        assert_eq!(w.of, 2700);
        w.seconds * (w.of - w.faded)
    };
    for minutes in 1..45 {
        assert_eq!(parts(minutes), 1200 * (2700 - minutes as i128 * 60));
    }
}

#[test]
fn a_faster_prior_comes_in_as_no_slower_a_rate() {
    let e = evidence(&[], 0.0, NOW + 5 * 3600);
    let rate = |p: f64| blend_terms(&e, None, Some(number(p)))[0].rate;
    assert_eq!(rate(-1.0), number(0.0));
    assert_eq!(rate(-0.0), rate(-1.0));
    assert_eq!(rate(0.0), rate(-1.0));
    assert_eq!(rate(0.02), number(0.02));
    let priors = [f64::NEG_INFINITY, -1.0, 0.0, 5e-324, 0.01, 0.02, 3.0, f64::INFINITY];
    for pair in priors.windows(2) {
        assert!(rate(pair[1]).at_least(rate(pair[0])));
    }
    let reset = NOW + 295 * 60;
    let slow = five_hour_eta(&[], 2.0, reset, Some(0.01)).unwrap();
    let fast = five_hour_eta(&[], 2.0, reset, Some(0.02)).unwrap();
    assert!(fast < slow);
}

#[test]
fn a_forecast_moves_with_its_times() {
    let reset = NOW + 3600;
    let samples = linear_samples(NOW, reset, 30, 1.0, 0.6);
    let e = evidence(&samples, 20.0, reset);
    for d in [1, -86400, 1_000_000] {
        let later: Vec<Sample> = samples
            .iter()
            .map(|s| Sample { ts: s.ts + d, five_reset: s.five_reset + d, ..*s })
            .collect();
        let get = |s: &Sample| (s.five, s.five_reset);
        let moved = eta_evidence(&later, NOW + d, number(20.0), reset + d, 5 * 3600, get);
        let points: Vec<(i64, Binary64)> = e.points.iter().map(|p| (p.0 + d, p.1)).collect();
        assert_eq!(moved.points, points);
        assert_eq!(moved.span, e.span);
        assert_eq!(moved.live, e.live);
        let b = blend(&blend_terms(&e, live_rate(&e, 20.0), None), 20.0);
        assert_eq!(eta(NOW + d, b), eta(NOW, b).map(|t| t + d));
    }
}

#[test]
fn the_less_is_left_the_earlier_it_runs_out() {
    let of = |left: f64| {
        eta(NOW, Blend { weight: number(1.0), rate: number(0.5), left: number(left) }).unwrap()
    };
    let lefts = [-1e5, -0.5, -0.0, 0.0, 0.9, 1.0, 59.5, 60.0, 5e8, 1e9, 1e12, f64::INFINITY];
    for pair in lefts.windows(2) {
        assert!(of(pair[0]) <= of(pair[1]));
    }
}

#[test]
fn samples_that_are_not_live_do_not_matter() {
    let reset = NOW + 3600;
    let samples = linear_samples(NOW, reset, 10, 1.0, 0.6);
    let mut more = samples.clone();
    more.insert(4, Sample { five_reset: reset - 1, ..samples[4] });
    more.insert(2, Sample { five: number(-1.0), ..samples[4] });
    more.insert(0, Sample { ts: NOW - 2701, ..samples[4] });
    assert_eq!(evidence(&more, 7.0, reset).points, evidence(&samples, 7.0, reset).points);
}
