//! The forecast: what is known of the burn rate of a limit, and when it runs out.
//!
//! The rate blends live evidence with a prior. Which points count as evidence, and
//! with what weight, is decided here in integers; the arithmetic on percentages and
//! rates is floating point and is left to the caller.

use crate::binary64::{law_truncated_order, Binary64};
use crate::samples::Sample;
use vstd::prelude::*;

verus! {

/// Samples older than this many seconds are no live evidence.
pub const LOOKBACK: i64 = 2700;

/// Live points that span fewer seconds than this are not fitted.
pub const MIN_SPAN: i64 = 300;

/// The number of points that a fit takes at least.
pub const MIN_POINTS: usize = 3;

/// The prior counts like this many seconds of live evidence before there is any.
pub const W_PRIOR: i64 = 1200;

/// A window must be this many seconds old for its average to count.
pub const MIN_ELAPSED: i64 = 60;

/// A limit runs out in this many seconds at most, as far as it runs out at all.
pub const MAX_LEFT: i64 = 1_000_000_000;

/// The live evidence on a burn rate. Times and weights are in seconds; their type is
/// wide enough for the difference of any two timestamps.
#[derive(Clone, Copy, Debug, PartialEq, Eq, Structural)]
pub enum Live {
    /// The slope of a line fitted through the points.
    Slope { weight: i128 },
    /// The average since the window began at zero, `elapsed` seconds ago.
    Average { weight: i128, elapsed: i128 },
    /// Nothing yet.
    Unknown,
}

/// What a forecast rests on: points in time with the percentage used, the seconds
/// between the first and the last, and which estimate they allow.
#[derive(Debug)]
pub struct Evidence {
    pub points: Vec<(i64, Binary64)>,
    pub span: i128,
    pub live: Live,
}

/// Whether a sample is live evidence on the window that resets at `reset`, given the
/// percentage and the reset that it holds for the limit.
pub open spec fn is_live(s: Sample, reading: (Binary64, i64), now: i64, reset: i64) -> bool {
    &&& reading.1 == reset
    &&& reading.0.at_least_zero()
    &&& s.ts >= now - LOOKBACK
}

/// The live samples, as points.
pub open spec fn live_points(
    samples: Seq<Sample>,
    readings: Seq<(Binary64, i64)>,
    now: i64,
    reset: i64,
) -> Seq<(i64, Binary64)>
    decreases samples.len(),
{
    if samples.len() == 0 {
        Seq::empty()
    } else {
        let head = live_points(samples.drop_last(), readings.drop_last(), now, reset);
        if is_live(samples.last(), readings.last(), now, reset) {
            head.push((samples.last().ts, readings.last().0))
        } else {
            head
        }
    }
}

/// The points, with the present one at the end.
pub open spec fn closed_by(points: Seq<(i64, Binary64)>, now: i64, cur: Binary64) -> Seq<
    (i64, Binary64),
> {
    if points.len() == 0 || points.last().0 != now {
        points.push((now, cur))
    } else {
        points
    }
}

/// All points that a forecast rests on.
pub open spec fn points_of(
    samples: Seq<Sample>,
    readings: Seq<(Binary64, i64)>,
    now: i64,
    cur: Binary64,
    reset: i64,
) -> Seq<(i64, Binary64)> {
    closed_by(live_points(samples, readings, now, reset), now, cur)
}

/// The seconds between the first and the last point.
pub open spec fn span_of(points: Seq<(i64, Binary64)>) -> int {
    points.last().0 - points.first().0
}

/// The estimate that points allow: a fit if they span enough time and are enough of
/// them, or, short of that time, the average of a window that is old enough.
pub open spec fn live_of(points: Seq<(i64, Binary64)>, now: i64, reset: i64, window: i64) -> Live {
    let span = span_of(points);
    let elapsed = now - (reset - window);
    if span >= MIN_SPAN {
        if points.len() >= MIN_POINTS {
            Live::Slope { weight: span as i128 }
        } else {
            Live::Unknown
        }
    } else if elapsed >= MIN_ELAPSED {
        Live::Average {
            weight: (if elapsed < MIN_SPAN {
                elapsed
            } else {
                MIN_SPAN as int
            }) as i128,
            elapsed: elapsed as i128,
        }
    } else {
        Live::Unknown
    }
}

/// Whether `get` gave the readings of the samples.
pub open spec fn reads<F: Fn(&Sample) -> (Binary64, i64)>(
    get: F,
    samples: Seq<Sample>,
    readings: Seq<(Binary64, i64)>,
) -> bool {
    &&& readings.len() == samples.len()
    &&& forall|i: int|
        0 <= i < samples.len() ==> call_ensures(get, (&samples[i],), #[trigger] readings[i])
}

/// Gathers the evidence on the limit that `get` reads off a sample, a percentage and a
/// reset. At present `cur` percent are used; the window that is `window` seconds long
/// resets at `reset`.
pub fn eta_evidence<F: Fn(&Sample) -> (Binary64, i64)>(
    samples: &[Sample],
    now: i64,
    cur: Binary64,
    reset: i64,
    window: i64,
    get: F,
) -> (r: Evidence)
    requires
        forall|s: Sample| #[trigger] call_requires(get, (&s,)),
    ensures
        exists|readings: Seq<(Binary64, i64)>| #[trigger]
            reads(get, samples@, readings) && r.points@ == points_of(
                samples@,
                readings,
                now,
                cur,
                reset,
            ),
        r.span == span_of(r.points@),
        r.live == live_of(r.points@, now, reset, window),
{
    let mut points: Vec<(i64, Binary64)> = Vec::new();
    let ghost mut readings: Seq<(Binary64, i64)> = Seq::empty();
    let mut i: usize = 0;
    while i < samples.len()
        invariant
            i <= samples@.len(),
            forall|s: Sample| #[trigger] call_requires(get, (&s,)),
            reads(get, samples@.take(i as int), readings),
            points@ == live_points(samples@.take(i as int), readings, now, reset),
        decreases samples@.len() - i,
    {
        let s: Sample = samples[i];
        let reading: (Binary64, i64) = get(&s);
        proof {
            let t = samples@.take(i + 1);
            let r = readings.push(reading);
            assert(t.drop_last() == samples@.take(i as int));
            assert(r.drop_last() == readings);
            assert forall|k: int| 0 <= k < t.len() implies call_ensures(
                get,
                (&t[k],),
                #[trigger] r[k],
            ) by {
                if k < i {
                    assert(call_ensures(get, (&samples@.take(i as int)[k],), readings[k]));
                }
            }
            readings = r;
        }
        if reading.1 == reset && reading.0.non_negative() && s.ts as i128 >= now as i128
            - LOOKBACK as i128 {
            points.push((s.ts, reading.0));
        }
        i = i + 1;
    }
    assert(samples@.take(samples@.len() as int) == samples@);
    let n: usize = points.len();
    if n == 0 || points[n - 1].0 != now {
        points.push((now, cur));
    }
    let n: usize = points.len();
    let span: i128 = points[n - 1].0 as i128 - points[0].0 as i128;
    let elapsed: i128 = now as i128 - (reset as i128 - window as i128);
    let live: Live = if span >= MIN_SPAN as i128 {
        if n >= MIN_POINTS {
            Live::Slope { weight: span }
        } else {
            Live::Unknown
        }
    } else if elapsed >= MIN_ELAPSED as i128 {
        Live::Average {
            weight: if elapsed < MIN_SPAN as i128 {
                elapsed
            } else {
                MIN_SPAN as i128
            },
            elapsed,
        }
    } else {
        Live::Unknown
    };
    Evidence { points, span, live }
}

/// How much a rate counts in the blend: like `seconds` seconds, less the part of them
/// that `faded` is of `of`.
#[derive(Clone, Copy, Debug, PartialEq, Eq, Structural)]
pub struct Weight {
    pub seconds: i128,
    pub faded: i128,
    pub of: i128,
}

impl Weight {
    /// The weight, in parts of a second of which `of` make up one.
    pub open spec fn parts(self) -> int {
        self.seconds * (self.of - self.faded)
    }
}

/// The weight of live evidence.
pub open spec fn live_weight(seconds: i128) -> Weight {
    Weight { seconds, faded: 0, of: 1 }
}

/// The weight of the prior where live evidence spans this many seconds.
pub open spec fn prior_weight(span: i128) -> Weight {
    Weight { seconds: W_PRIOR as i128, faded: span, of: LOOKBACK as i128 }
}

/// A rate that goes into the blend.
#[derive(Clone, Copy, Debug, PartialEq, Eq, Structural)]
pub struct Term {
    pub weight: Weight,
    pub rate: Binary64,
}

/// The live rate as a term, where the evidence allows an estimate and it came out. A
/// fitted slope below zero counts as zero.
pub open spec fn live_term(live: Live, rate: Option<Binary64>) -> Seq<Term> {
    match (live, rate) {
        (Live::Slope { weight }, Some(r)) => seq![
            Term { weight: live_weight(weight), rate: r.non_negative_part() },
        ],
        (Live::Average { weight, .. }, Some(r)) => seq![
            Term { weight: live_weight(weight), rate: r },
        ],
        _ => Seq::empty(),
    }
}

/// The prior as a term; below zero it counts as zero.
pub open spec fn faded_prior(span: i128, prior: Binary64) -> Term {
    Term { weight: prior_weight(span), rate: prior.non_negative_part() }
}

/// The prior as a term, until live evidence covers all of `LOOKBACK`.
pub open spec fn prior_term(span: i128, prior: Option<Binary64>) -> Seq<Term> {
    match prior {
        Some(p) => if span < LOOKBACK {
            seq![faded_prior(span, p)]
        } else {
            Seq::empty()
        },
        None => Seq::empty(),
    }
}

/// The rates that go into the blend, given the live rate as the evidence estimates it,
/// and the prior.
pub fn blend_terms(evidence: &Evidence, rate: Option<Binary64>, prior: Option<Binary64>) -> (r: Vec<
    Term,
>)
    ensures
        r@ == live_term(evidence.live, rate) + prior_term(evidence.span, prior),
{
    let mut terms: Vec<Term> = Vec::new();
    if let Some(r) = rate {
        match evidence.live {
            Live::Slope { weight } => {
                terms.push(
                    Term {
                        weight: Weight { seconds: weight, faded: 0, of: 1 },
                        rate: r.positive_or_zero(),
                    },
                );
            },
            Live::Average { weight, .. } => {
                terms.push(Term { weight: Weight { seconds: weight, faded: 0, of: 1 }, rate: r });
            },
            Live::Unknown => {},
        }
    }
    assert(terms@ == live_term(evidence.live, rate));
    if let Some(p) = prior {
        if evidence.span < LOOKBACK as i128 {
            terms.push(
                Term {
                    weight: Weight {
                        seconds: W_PRIOR as i128,
                        faded: evidence.span,
                        of: LOOKBACK as i128,
                    },
                    rate: p.positive_or_zero(),
                },
            );
        }
    }
    terms
}

proof fn lemma_prior_parts(span: i128)
    ensures
        prior_weight(span).parts() == 1200 * (2700 - span),
{
    let w = prior_weight(span);
    assert(w.seconds * (w.of - w.faded) == 1200 * (2700 - span)) by (nonlinear_arith)
        requires
            w.seconds == 1200,
            w.of == 2700,
            w.faded == span,
    ;
}

/// The weight of the prior starts at `W_PRIOR` seconds, falls by the same part with each
/// second that live evidence spans, and comes to zero when that covers all of
/// `LOOKBACK`, not before. Live evidence weighs its seconds in full.
pub proof fn law_prior_weight(span: i128, later: i128)
    ensures
        prior_weight(span).of == LOOKBACK,
        prior_weight(0).parts() == W_PRIOR * LOOKBACK,
        prior_weight(span).parts() - prior_weight(later).parts() == W_PRIOR * (later - span),
        prior_weight(LOOKBACK as i128).parts() == 0,
        span < LOOKBACK ==> prior_weight(span).parts() > 0,
        live_weight(span).parts() == span * live_weight(span).of,
{
    lemma_prior_parts(span);
    lemma_prior_parts(later);
    lemma_prior_parts(0);
    lemma_prior_parts(LOOKBACK as i128);
}

/// Priors of zero or less all count as zero, and a faster prior goes into the blend as
/// no slower a rate, with the same weight.
pub proof fn law_prior_order(span: i128, p: Binary64, q: Binary64)
    requires
        q.reaches(p),
    ensures
        faded_prior(span, q).weight == faded_prior(span, p).weight,
        faded_prior(span, q).rate.reaches(faded_prior(span, p).rate),
        q.at_most_zero() ==> prior_term(span, Some(q)) == prior_term(span, Some(p)),
{
}

/// Once live evidence covers all of `LOOKBACK`, only that counts.
pub proof fn law_prior_fades(
    live: Live,
    rate: Option<Binary64>,
    span: i128,
    prior: Option<Binary64>,
)
    requires
        span >= LOOKBACK,
    ensures
        live_term(live, rate) + prior_term(span, prior) == live_term(live, rate),
{
    assert(live_term(live, rate) + prior_term(span, prior) =~= live_term(live, rate));
}

/// Before there is live evidence, the prior alone counts, if there is one; without it
/// there is nothing to go by.
pub proof fn law_prior_alone(rate: Option<Binary64>, span: i128, prior: Option<Binary64>)
    requires
        span < LOOKBACK,
    ensures
        live_term(Live::Unknown, rate) + prior_term(span, prior) == (match prior {
            Some(p) => seq![faded_prior(span, p)],
            None => Seq::empty(),
        }),
{
    assert(live_term(Live::Unknown, rate) + prior_term(span, prior) =~= prior_term(span, prior));
}

/// The blend of live evidence and prior: the weight of all that went in, the rate, and
/// what is left, divided by that rate.
#[derive(Clone, Copy, Debug, PartialEq, Eq, Structural)]
pub struct Blend {
    pub weight: Binary64,
    pub rate: Binary64,
    pub left: Binary64,
}

impl Blend {
    /// The whole seconds that are left, `MAX_LEFT` at most; that many too where they, or
    /// the rate, are no number.
    pub open spec fn seconds(self) -> int {
        if self.rate.is_nan() || self.left.is_nan() || self.left.truncated() > MAX_LEFT {
            MAX_LEFT as int
        } else {
            self.left.truncated() as int
        }
    }

    /// The whole seconds that are left, `MAX_LEFT` at most; that many too where they, or
    /// the rate, are no number.
    pub fn seconds_left(self) -> (r: i64)
        ensures
            r == self.seconds(),
            r <= MAX_LEFT,
    {
        let n: i64 = self.left.truncate();
        if self.rate.not_a_number() || self.left.not_a_number() || n > MAX_LEFT {
            MAX_LEFT
        } else {
            n
        }
    }
}

/// When the limit runs out: never, as far as is known, where nothing went into the
/// blend or its rate is zero or less.
pub open spec fn eta_of(now: i64, blend: Blend) -> Option<int> {
    if blend.weight.at_most_zero() || blend.rate.at_most_zero() {
        None
    } else {
        Some(now + blend.seconds())
    }
}

/// The time at which the limit runs out, if it does.
pub fn eta(now: i64, blend: Blend) -> (r: Option<i64>)
    requires
        eta_of(now, blend) matches Some(t) ==> i64::MIN <= t <= i64::MAX,
    ensures
        match r {
            Some(t) => eta_of(now, blend) == Some(t as int) && t <= now + MAX_LEFT,
            None => eta_of(now, blend) is None,
        },
{
    if blend.weight.non_positive() || blend.rate.non_positive() {
        None
    } else {
        Some(now + blend.seconds_left())
    }
}

/// A forecast lies no further ahead than `MAX_LEFT`, so it is in range unless the clock
/// is before its origin or that close to the end of its range.
pub proof fn law_eta_capped(now: i64, blend: Blend)
    ensures
        eta_of(now, blend) matches Some(t) ==> t <= now + MAX_LEFT && (0 <= now <= i64::MAX
            - MAX_LEFT ==> i64::MIN <= t <= i64::MAX),
{
}

/// The less is left, the earlier the forecast, or as early.
pub proof fn law_eta_order(now: i64, a: Blend, b: Blend)
    requires
        a.left.reaches(b.left),
        !b.rate.is_nan(),
        eta_of(now, a) is Some,
        eta_of(now, b) is Some,
    ensures
        eta_of(now, b)->0 <= eta_of(now, a)->0,
{
    law_truncated_order(b.left, a.left);
}

proof fn lemma_live_points(
    samples: Seq<Sample>,
    readings: Seq<(Binary64, i64)>,
    now: i64,
    reset: i64,
)
    requires
        readings.len() == samples.len(),
    ensures
        forall|i: int|
            0 <= i < live_points(samples, readings, now, reset).len() ==> is_point(
                #[trigger] live_points(samples, readings, now, reset)[i],
                samples,
                readings,
                now,
                reset,
            ),
    decreases samples.len(),
{
    if samples.len() > 0 {
        let t = samples.drop_last();
        let r = readings.drop_last();
        lemma_live_points(t, r, now, reset);
        let all = live_points(samples, readings, now, reset);
        let head = live_points(t, r, now, reset);
        assert forall|i: int| 0 <= i < all.len() implies is_point(
            #[trigger] all[i],
            samples,
            readings,
            now,
            reset,
        ) by {
            if i < head.len() {
                assert(is_point(head[i], t, r, now, reset));
                let k = choose|k: int|
                    0 <= k < t.len() && #[trigger] is_live(t[k], r[k], now, reset) && head[i] == (
                        t[k].ts,
                        r[k].0,
                    );
                assert(is_live(samples[k], readings[k], now, reset));
            } else {
                let k = samples.len() - 1;
                assert(is_live(samples[k], readings[k], now, reset));
            }
        }
    }
}

/// Whether a point is one of the live samples.
pub open spec fn is_point(
    p: (i64, Binary64),
    samples: Seq<Sample>,
    readings: Seq<(Binary64, i64)>,
    now: i64,
    reset: i64,
) -> bool {
    exists|k: int|
        0 <= k < samples.len() && #[trigger] is_live(samples[k], readings[k], now, reset) && p == (
            samples[k].ts,
            readings[k].0,
        )
}

/// A forecast rests on live samples of its own window and on the present: the last
/// point is the present one, every other is a live sample, and the points span no more
/// than `LOOKBACK` seconds.
pub proof fn law_points(
    samples: Seq<Sample>,
    readings: Seq<(Binary64, i64)>,
    now: i64,
    cur: Binary64,
    reset: i64,
)
    requires
        readings.len() == samples.len(),
    ensures
        ({
            let p = points_of(samples, readings, now, cur, reset);
            &&& p.len() > 0
            &&& p.last().0 == now
            &&& span_of(p) <= LOOKBACK
            &&& forall|i: int|
                0 <= i < p.len() ==> is_point(#[trigger] p[i], samples, readings, now, reset) || (i
                    == p.len() - 1 && p[i] == (now, cur))
        }),
{
    lemma_live_points(samples, readings, now, reset);
    let l = live_points(samples, readings, now, reset);
    let p = points_of(samples, readings, now, cur, reset);
    assert forall|i: int| 0 <= i < p.len() implies is_point(
        #[trigger] p[i],
        samples,
        readings,
        now,
        reset,
    ) || (i == p.len() - 1 && p[i] == (now, cur)) by {
        if i < l.len() {
            assert(is_point(l[i], samples, readings, now, reset));
        }
    }
    assert(is_point(p[0], samples, readings, now, reset) || p[0] == (now, cur));
}

/// A sample that is not live does not bear on the forecast: one of another window, one
/// that is too old, or one without a percentage.
pub proof fn law_only_live_samples(
    samples: Seq<Sample>,
    readings: Seq<(Binary64, i64)>,
    now: i64,
    cur: Binary64,
    reset: i64,
    k: int,
)
    requires
        readings.len() == samples.len(),
        0 <= k < samples.len(),
        !is_live(samples[k], readings[k], now, reset),
    ensures
        points_of(samples.remove(k), readings.remove(k), now, cur, reset) == points_of(
            samples,
            readings,
            now,
            cur,
            reset,
        ),
{
    lemma_without(samples, readings, now, reset, k);
}

proof fn lemma_without(
    samples: Seq<Sample>,
    readings: Seq<(Binary64, i64)>,
    now: i64,
    reset: i64,
    k: int,
)
    requires
        readings.len() == samples.len(),
        0 <= k < samples.len(),
        !is_live(samples[k], readings[k], now, reset),
    ensures
        live_points(samples.remove(k), readings.remove(k), now, reset) == live_points(
            samples,
            readings,
            now,
            reset,
        ),
    decreases samples.len(),
{
    let s = samples.remove(k);
    let r = readings.remove(k);
    if k == samples.len() - 1 {
        assert(s == samples.drop_last());
        assert(r == readings.drop_last());
    } else {
        lemma_without(samples.drop_last(), readings.drop_last(), now, reset, k);
        assert(s.drop_last() == samples.drop_last().remove(k));
        assert(r.drop_last() == readings.drop_last().remove(k));
        assert(s.last() == samples.last());
        assert(r.last() == readings.last());
    }
}

/// Live evidence weighs as many seconds as it covers: a fit at least `MIN_SPAN` and at
/// most `LOOKBACK`, an average at least `MIN_ELAPSED` and at most `MIN_SPAN`.
pub proof fn law_live_weights(
    samples: Seq<Sample>,
    readings: Seq<(Binary64, i64)>,
    now: i64,
    cur: Binary64,
    reset: i64,
    window: i64,
)
    requires
        readings.len() == samples.len(),
    ensures
        match live_of(points_of(samples, readings, now, cur, reset), now, reset, window) {
            Live::Slope { weight } => MIN_SPAN <= weight <= LOOKBACK,
            Live::Average { weight, elapsed } => MIN_ELAPSED <= weight <= MIN_SPAN && weight
                <= elapsed,
            Live::Unknown => true,
        },
{
    law_points(samples, readings, now, cur, reset);
}

/// Whether the points are the others, `d` seconds later.
pub open spec fn is_moved(
    later: Seq<(i64, Binary64)>,
    points: Seq<(i64, Binary64)>,
    d: int,
) -> bool {
    &&& later.len() == points.len()
    &&& forall|i: int|
        0 <= i < points.len() ==> (#[trigger] later[i]).0 == points[i].0 + d && later[i].1
            == points[i].1
}

/// Whether the samples and what they hold for a limit are the others, taken and reset `d`
/// seconds later.
pub open spec fn are_moved(
    later: Seq<Sample>,
    later_readings: Seq<(Binary64, i64)>,
    samples: Seq<Sample>,
    readings: Seq<(Binary64, i64)>,
    d: int,
) -> bool {
    &&& readings.len() == samples.len() == later.len() == later_readings.len()
    &&& forall|i: int| 0 <= i < samples.len() ==> (#[trigger] later[i]).ts == samples[i].ts + d
    &&& forall|i: int|
        0 <= i < samples.len() ==> (#[trigger] later_readings[i]).0 == readings[i].0
            && later_readings[i].1 == readings[i].1 + d
}

proof fn lemma_moved(
    later: Seq<Sample>,
    later_readings: Seq<(Binary64, i64)>,
    later_now: i64,
    later_reset: i64,
    samples: Seq<Sample>,
    readings: Seq<(Binary64, i64)>,
    now: i64,
    reset: i64,
    d: int,
)
    requires
        are_moved(later, later_readings, samples, readings, d),
        later_now == now + d,
        later_reset == reset + d,
    ensures
        is_moved(
            live_points(later, later_readings, later_now, later_reset),
            live_points(samples, readings, now, reset),
            d,
        ),
    decreases samples.len(),
{
    if samples.len() > 0 {
        let n = samples.len() - 1;
        assert(later[n] == later.last());
        assert(later_readings[n] == later_readings.last());
        assert forall|i: int| 0 <= i < n implies (#[trigger] later.drop_last()[i]).ts
            == samples.drop_last()[i].ts + d by {
            assert(later.drop_last()[i] == later[i]);
        }
        assert forall|i: int| 0 <= i < n implies (#[trigger] later_readings.drop_last()[i]).0
            == readings.drop_last()[i].0 && later_readings.drop_last()[i].1
            == readings.drop_last()[i].1 + d by {
            assert(later_readings.drop_last()[i] == later_readings[i]);
        }
        lemma_moved(
            later.drop_last(),
            later_readings.drop_last(),
            later_now,
            later_reset,
            samples.drop_last(),
            readings.drop_last(),
            now,
            reset,
            d,
        );
    }
}

/// What happens `d` seconds later is forecast `d` seconds later: the points are moved by
/// that, while their span and the estimate that they allow, and with them the rates that
/// go into the blend, stay as they are; and for one blend the forecast is moved too.
pub proof fn law_forecast_moves(
    later: Seq<Sample>,
    later_readings: Seq<(Binary64, i64)>,
    later_now: i64,
    later_reset: i64,
    samples: Seq<Sample>,
    readings: Seq<(Binary64, i64)>,
    now: i64,
    reset: i64,
    cur: Binary64,
    window: i64,
    blend: Blend,
    d: int,
)
    requires
        are_moved(later, later_readings, samples, readings, d),
        later_now == now + d,
        later_reset == reset + d,
    ensures
        ({
            let points = points_of(samples, readings, now, cur, reset);
            let moved = points_of(later, later_readings, later_now, cur, later_reset);
            &&& is_moved(moved, points, d)
            &&& span_of(moved) == span_of(points)
            &&& live_of(moved, later_now, later_reset, window) == live_of(
                points,
                now,
                reset,
                window,
            )
        }),
        eta_of(later_now, blend) == (match eta_of(now, blend) {
            Some(t) => Some(t + d),
            None => None,
        }),
{
    lemma_moved(
        later,
        later_readings,
        later_now,
        later_reset,
        samples,
        readings,
        now,
        reset,
        d,
    );
    let l = live_points(samples, readings, now, reset);
    let m = live_points(later, later_readings, later_now, later_reset);
    if l.len() > 0 {
        assert(m[l.len() - 1] == m.last());
    }
    let points = points_of(samples, readings, now, cur, reset);
    let moved = points_of(later, later_readings, later_now, cur, later_reset);
    assert forall|i: int| 0 <= i < points.len() implies (#[trigger] moved[i]).0 == points[i].0 + d
        && moved[i].1 == points[i].1 by {
        if i < l.len() {
            assert(moved[i] == m[i]);
        }
    }
    assert(moved[0] == moved.first());
    assert(moved[points.len() - 1] == moved.last());
}

proof fn lemma_live_places(
    samples: Seq<Sample>,
    readings: Seq<(Binary64, i64)>,
    now: i64,
    reset: i64,
) -> (at: Seq<int>)
    requires
        readings.len() == samples.len(),
    ensures
        ({
            let l = live_points(samples, readings, now, reset);
            &&& at.len() == l.len()
            &&& forall|i: int|
                0 <= i < at.len() ==> 0 <= #[trigger] at[i] < samples.len() && l[i] == (
                    samples[at[i]].ts,
                    readings[at[i]].0,
                ) && is_live(samples[at[i]], readings[at[i]], now, reset)
            &&& forall|i: int, j: int|
                0 <= i < j < at.len() ==> #[trigger] at[i] < #[trigger] at[j]
            &&& forall|k: int|
                0 <= k < samples.len() && is_live(#[trigger] samples[k], readings[k], now, reset)
                    ==> at.contains(k)
        }),
    decreases samples.len(),
{
    if samples.len() == 0 {
        Seq::empty()
    } else {
        let t = samples.drop_last();
        let r = readings.drop_last();
        let n = t.len() as int;
        let head = lemma_live_places(t, r, now, reset);
        assert(forall|k: int| 0 <= k < n ==> t[k] == #[trigger] samples[k]);
        assert(forall|k: int| 0 <= k < n ==> r[k] == #[trigger] readings[k]);
        let at = if is_live(samples.last(), readings.last(), now, reset) {
            head.push(n)
        } else {
            head
        };
        assert forall|k: int|
            0 <= k < samples.len() && is_live(
                #[trigger] samples[k],
                readings[k],
                now,
                reset,
            ) implies at.contains(k) by {
            if k < n {
                assert(is_live(t[k], r[k], now, reset));
                assert(head.contains(k));
                let i = choose|i: int| 0 <= i < head.len() && head[i] == k;
                assert(at[i] == k);
            } else {
                assert(at[head.len() as int] == n);
            }
        }
        at
    }
}

/// Every sample of the window that was taken in the last 45 minutes and holds a
/// percentage is a point, whatever that percentage is: there are as many points before
/// the present one, in the order of the samples, and `at` gives where these stand. The
/// present one comes last, unless the last of them was taken at present.
pub proof fn law_every_live_sample(
    samples: Seq<Sample>,
    readings: Seq<(Binary64, i64)>,
    now: i64,
    cur: Binary64,
    reset: i64,
) -> (at: Seq<int>)
    requires
        readings.len() == samples.len(),
    ensures
        ({
            let p = points_of(samples, readings, now, cur, reset);
            let n = at.len() as int;
            &&& forall|i: int|
                0 <= i < n ==> 0 <= #[trigger] at[i] < samples.len() && p[i] == (
                    samples[at[i]].ts,
                    readings[at[i]].0,
                )
            &&& forall|i: int, j: int| 0 <= i < j < n ==> #[trigger] at[i] < #[trigger] at[j]
            &&& forall|k: int|
                0 <= k < samples.len() ==> #[trigger] at.contains(k) == (readings[k].1 == reset
                    && samples[k].ts >= now - 45 * 60 && (readings[k].0.bits
                    <= 0x7ff0_0000_0000_0000 || readings[k].0.bits == 0x8000_0000_0000_0000))
            &&& if n > 0 && samples[at[n - 1]].ts == now {
                p.len() == n
            } else {
                p.len() == n + 1 && p[n] == (now, cur)
            }
        }),
{
    let at = lemma_live_places(samples, readings, now, reset);
    let l = live_points(samples, readings, now, reset);
    assert forall|k: int| 0 <= k < samples.len() implies #[trigger] at.contains(k) == (
    readings[k].1 == reset && samples[k].ts >= now - 45 * 60 && (readings[k].0.bits
        <= 0x7ff0_0000_0000_0000 || readings[k].0.bits == 0x8000_0000_0000_0000)) by {
        if at.contains(k) {
            let i = choose|i: int| 0 <= i < at.len() && at[i] == k;
            assert(is_live(samples[at[i]], readings[at[i]], now, reset));
        } else {
            assert(!is_live(samples[k], readings[k], now, reset));
        }
    }
    if at.len() > 0 {
        assert(l.last().0 == samples[at[at.len() - 1]].ts);
    }
    at
}

/// Which estimate the points allow, and with what weight: the slope of a fit, with the
/// seconds that the points span, if these are five minutes or more and there are three
/// points or more; under five minutes, the average since the window began, with the
/// seconds since then but no more than five minutes, if that is a minute or more ago;
/// nothing else.
pub proof fn law_estimate(points: Seq<(i64, Binary64)>, now: i64, reset: i64, window: i64)
    requires
        points.len() > 0,
    ensures
        ({
            let span = points[points.len() - 1].0 - points[0].0;
            let elapsed = now - (reset - window);
            let live = live_of(points, now, reset, window);
            &&& span_of(points) == span
            &&& live is Slope == (span >= 300 && points.len() >= 3)
            &&& live is Average == (span < 300 && elapsed >= 60)
            &&& live matches Live::Slope { weight } ==> weight == span
            &&& live matches Live::Average { weight, elapsed: e } ==> e == elapsed && (elapsed
                <= 300 ==> weight == elapsed) && (elapsed > 300 ==> weight == 300)
        }),
{
}

/// What goes into the blend: the live rate, if there is an estimate and it came out, with
/// the weight of the estimate; and behind it the prior, if there is one and the points
/// span less than 45 minutes, with what is left then of twenty minutes. Only a fitted
/// rate and the prior are raised to zero where they are below.
pub proof fn law_blend(live: Live, rate: Option<Binary64>, span: i128, prior: Option<Binary64>)
    ensures
        ({
            let terms = live_term(live, rate) + prior_term(span, prior);
            let lives = live != Live::Unknown && rate is Some;
            let fades = prior is Some && span < 45 * 60;
            &&& terms.len() == (if lives {
                1int
            } else {
                0
            }) + (if fades {
                1int
            } else {
                0
            })
            &&& lives ==> ({
                let r = rate->0;
                let raised = if 0 < r.bits <= 0x7ff0_0000_0000_0000 {
                    r
                } else {
                    Binary64 { bits: 0 }
                };
                let seconds = match live {
                    Live::Slope { weight } => weight,
                    Live::Average { weight, .. } => weight,
                    Live::Unknown => 0,
                };
                &&& terms[0].weight.seconds == seconds
                &&& terms[0].weight.faded == 0
                &&& terms[0].weight.of > 0
                &&& terms[0].rate == if live is Slope {
                    raised
                } else {
                    r
                }
            })
            &&& fades ==> ({
                let p = prior->0;
                let last = terms[terms.len() - 1];
                &&& last.weight.seconds == 20 * 60
                &&& last.weight.faded == span
                &&& last.weight.of == 45 * 60
                &&& last.rate == if 0 < p.bits <= 0x7ff0_0000_0000_0000 {
                    p
                } else {
                    Binary64 { bits: 0 }
                }
            })
        }),
{
}

/// There is a forecast unless nothing went into the blend or the rate is zero or less. It
/// is as many seconds from now as are left, without the fraction, but no more than a
/// billion; that many also where the rate or what is left is no number.
pub proof fn law_eta(now: i64, blend: Blend)
    ensures
        ({
            let idle = |x: Binary64|
                x.bits == 0 || 0x8000_0000_0000_0000 <= x.bits <= 0xfff0_0000_0000_0000;
            (eta_of(now, blend) is None) == (idle(blend.weight) || idle(blend.rate))
        }),
        eta_of(now, blend) matches Some(t) ==> ({
            let n = t - now;
            if blend.rate.is_nan() || blend.left.is_nan() {
                n == 1_000_000_000
            } else {
                n == if blend.left.truncated() <= 1_000_000_000 {
                    blend.left.truncated() as int
                } else {
                    1_000_000_000
                }
            }
        }),
{
}

/// There is one reading for each sample, and it is what was read off that sample.
pub proof fn law_reads<F: Fn(&Sample) -> (Binary64, i64)>(
    get: F,
    samples: Seq<Sample>,
    readings: Seq<(Binary64, i64)>,
    i: int,
)
    requires
        reads(get, samples, readings),
        0 <= i < samples.len(),
    ensures
        readings.len() == samples.len(),
        call_ensures(get, (&samples[i],), readings[i]),
{
}

} // verus!
