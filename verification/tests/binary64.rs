use statusline::binary64::Binary64;

fn number(x: f64) -> Binary64 {
    Binary64 { bits: x.to_bits() }
}

fn values() -> Vec<f64> {
    let mut v = vec![
        0.0, 0.25, 0.49999999999999994, 0.5, 0.75, 1.0, 1.5, 2.0, 2.5, 3.4999999999999996, 41.5,
        66.2, 99.5, 100.0, 1e9, 4503599627370495.5, 4503599627370497.0, 9007199254740992.0,
        9223372036854774784.0, 9223372036854775808.0, 1e19, 1e300, f64::MIN_POSITIVE, 5e-324,
        f64::MAX, f64::INFINITY, f64::NAN, f64::EPSILON,
    ];
    let negatives: Vec<f64> = v.iter().map(|x| -x).collect();
    v.extend(negatives);
    v
}

#[test]
fn rounding_agrees_with_the_machine() {
    for x in values() {
        assert_eq!(number(x).round(), x.round() as i64, "{x}");
    }
    for i in 0..2000 {
        let x = i as f64 * 0.1 - 100.0;
        assert_eq!(number(x).round(), x.round() as i64, "{x}");
    }
}

#[test]
fn truncation_agrees_with_the_machine() {
    for x in values() {
        assert_eq!(number(x).truncate(), x as i64, "{x}");
        assert_eq!(number(x).not_a_number(), x.is_nan(), "{x}");
    }
    for i in 0..2000 {
        let x = i as f64 * 0.1 - 100.0;
        assert_eq!(number(x).truncate(), x as i64, "{x}");
    }
}

#[test]
fn halves_are_rounded_away_from_zero() {
    assert_eq!(number(0.5).round(), 1);
    assert_eq!(number(-0.5).round(), -1);
    assert_eq!(number(2.5).round(), 3);
    assert_eq!(number(66.4).round(), 66);
    assert_eq!(number(f64::NAN).round(), 0);
    assert_eq!(number(f64::INFINITY).round(), i64::MAX);
    assert_eq!(number(f64::NEG_INFINITY).round(), i64::MIN);
}

#[test]
fn comparisons_agree_with_the_machine() {
    for x in values() {
        assert_eq!(number(x).non_negative(), x >= 0.0);
        assert_eq!(number(x).non_positive(), x <= 0.0);
        for y in values() {
            assert_eq!(number(x).at_least(number(y)), x >= y);
            if !x.is_nan() && !y.is_nan() {
                assert_eq!(number(x).exceeds(number(y)), x > y);
            }
        }
    }
}
