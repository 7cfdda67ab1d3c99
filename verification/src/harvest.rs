//! Burn rates of closed windows, gathered from the sample log.

use crate::binary64::Binary64;
use crate::samples::Sample;
use vstd::prelude::*;

verus! {

/// A closed window must span this many seconds of samples to yield a rate.
pub const HARVEST_MIN_SPAN: i64 = 900;

/// The bits of the number two: a closed window must have used this many percent.
pub const HARVEST_MIN_PCT: u64 = 0x4000_0000_0000_0000;

/// The number of windows whose rates are kept.
pub const RATES_KEEP: usize = 20;

/// A stretch of samples of one window of the five-hour limit: when the window resets,
/// and the first and last of the samples.
#[derive(Clone, Copy, Debug, PartialEq, Eq, Structural)]
pub struct Window {
    pub reset: i64,
    pub first: Sample,
    pub last: Sample,
}

/// What was used between the first and the last sample of a window: how many percent,
/// and how many in a second.
#[derive(Clone, Copy, Debug, PartialEq, Eq, Structural)]
pub struct Gain {
    pub used: Binary64,
    pub rate: Binary64,
}

/// Whether enough was used for a rate.
pub open spec fn is_enough(used: Binary64) -> bool {
    used.reaches(Binary64 { bits: HARVEST_MIN_PCT })
}

/// The number of samples at the start of `s` that share their window.
pub open spec fn run_len(s: Seq<Sample>) -> nat
    decreases s.len(),
{
    if s.len() == 0 {
        0
    } else if s.len() == 1 || s[1].five_reset != s[0].five_reset {
        1
    } else {
        1 + run_len(s.skip(1))
    }
}

/// The windows of the samples, one for each longest stretch that shares its window.
pub open spec fn windows_of(s: Seq<Sample>) -> Seq<Window>
    decreases s.len(),
{
    proof {
        lemma_run_len(s);
    }
    if s.len() == 0 {
        Seq::empty()
    } else {
        let n = run_len(s) as int;
        seq![Window { reset: s[0].five_reset, first: s[0], last: s[n - 1] }] + windows_of(s.skip(n))
    }
}

/// Whether a window's rate is known already.
pub open spec fn is_known(rates: Seq<(i64, Binary64)>, reset: i64) -> bool {
    exists|i: int| 0 <= i < rates.len() && (#[trigger] rates[i]).0 == reset
}

/// Whether a window yields a rate: it is closed, its rate is not known, its samples
/// span long enough, and enough was used in it.
pub open spec fn yields(
    rates: Seq<(i64, Binary64)>,
    w: Window,
    gain: Gain,
    cur_reset: i64,
) -> bool {
    &&& w.reset != cur_reset
    &&& !is_known(rates, w.reset)
    &&& w.last.ts - w.first.ts >= HARVEST_MIN_SPAN
    &&& is_enough(gain.used)
}

/// The rates with those of the windows behind them, in order.
pub open spec fn gathered(
    rates: Seq<(i64, Binary64)>,
    windows: Seq<Window>,
    gains: Seq<Gain>,
    cur_reset: i64,
) -> Seq<(i64, Binary64)>
    decreases windows.len(),
{
    if windows.len() == 0 {
        rates
    } else {
        let head = gathered(rates, windows.drop_last(), gains.drop_last(), cur_reset);
        if yields(head, windows.last(), gains.last(), cur_reset) {
            head.push((windows.last().reset, gains.last().rate))
        } else {
            head
        }
    }
}

/// The last `RATES_KEEP` rates.
pub open spec fn capped(rates: Seq<(i64, Binary64)>) -> Seq<(i64, Binary64)> {
    if rates.len() > RATES_KEEP {
        rates.skip(rates.len() - RATES_KEEP)
    } else {
        rates
    }
}

/// The rates after a harvest.
pub open spec fn harvested(
    rates: Seq<(i64, Binary64)>,
    windows: Seq<Window>,
    gains: Seq<Gain>,
    cur_reset: i64,
) -> Seq<(i64, Binary64)> {
    capped(gathered(rates, windows, gains, cur_reset))
}

pub proof fn lemma_run_len(s: Seq<Sample>)
    ensures
        run_len(s) <= s.len(),
        s.len() > 0 ==> run_len(s) > 0,
        forall|i: int| 0 <= i < run_len(s) ==> (#[trigger] s[i]).five_reset == s[0].five_reset,
        run_len(s) < s.len() ==> s[run_len(s) as int].five_reset != s[0].five_reset,
    decreases s.len(),
{
    if s.len() > 1 && s[1].five_reset == s[0].five_reset {
        let t = s.skip(1);
        lemma_run_len(t);
        assert forall|i: int| 0 <= i < run_len(s) implies (#[trigger] s[i]).five_reset
            == s[0].five_reset by {
            if i > 0 {
                assert(s[i] == t[i - 1]);
            }
        }
    }
}

proof fn lemma_run_len_is(s: Seq<Sample>, n: int)
    requires
        0 < n <= s.len(),
        forall|i: int| 0 <= i < n ==> (#[trigger] s[i]).five_reset == s[0].five_reset,
        n < s.len() ==> s[n].five_reset != s[0].five_reset,
    ensures
        run_len(s) == n,
{
    lemma_run_len(s);
    let m = run_len(s) as int;
    if m < n {
        assert(s[m].five_reset == s[0].five_reset);
    } else if n < m {
        assert(s[n].five_reset == s[0].five_reset);
    }
}

/// Splits the sample log into windows.
pub fn windows(samples: &[Sample]) -> (r: Vec<Window>)
    ensures
        r@ == windows_of(samples@),
{
    let mut r: Vec<Window> = Vec::new();
    let mut i: usize = 0;
    let n: usize = samples.len();
    assert(samples@.skip(0) == samples@);
    while i < n
        invariant
            i <= n == samples@.len(),
            r@ + windows_of(samples@.skip(i as int)) == windows_of(samples@),
        decreases n - i,
    {
        let ghost s = samples@.skip(i as int);
        let reset: i64 = samples[i].five_reset;
        let mut j: usize = i + 1;
        while j < n && samples[j].five_reset == reset
            invariant
                i < j <= n == samples@.len(),
                samples@[i as int].five_reset == reset,
                forall|k: int| i <= k < j ==> (#[trigger] samples@[k]).five_reset == reset,
            decreases n - j,
        {
            j = j + 1;
        }
        proof {
            assert forall|k: int| 0 <= k < j - i implies (#[trigger] s[k]).five_reset
                == s[0].five_reset by {
                assert(s[k] == samples@[i + k]);
            }
            lemma_run_len_is(s, j - i);
            assert(s.skip(j - i) == samples@.skip(j as int));
        }
        let ghost before = r@;
        r.push(Window { reset, first: samples[i], last: samples[j - 1] });
        assert(r@ + windows_of(samples@.skip(j as int)) == before + windows_of(s));
        i = j;
    }
    assert(samples@.skip(n as int).len() == 0);
    assert(r@ + Seq::<Window>::empty() == r@);
    r
}

fn known(rates: &Vec<(i64, Binary64)>, reset: i64) -> (r: bool)
    ensures
        r == is_known(rates@, reset),
{
    let mut i: usize = 0;
    while i < rates.len()
        invariant
            i <= rates@.len(),
            forall|k: int| 0 <= k < i ==> (#[trigger] rates@[k]).0 != reset,
        decreases rates@.len() - i,
    {
        if rates[i].0 == reset {
            return true;
        }
        i = i + 1;
    }
    false
}

/// Adds the rates of closed windows to the history, which is keyed by the time of the
/// reset, and caps its length. `gains` holds what was used in each window. Returns
/// whether the history changed.
pub fn harvest_rates(
    windows: &Vec<Window>,
    gains: &Vec<Gain>,
    cur_reset: i64,
    rates: &mut Vec<(i64, Binary64)>,
) -> (changed: bool)
    requires
        windows@.len() == gains@.len(),
    ensures
        final(rates)@ == harvested(old(rates)@, windows@, gains@, cur_reset),
        changed == (final(rates)@ != old(rates)@),
{
    let mut changed: bool = false;
    let mut i: usize = 0;
    while i < windows.len()
        invariant
            i <= windows@.len() == gains@.len(),
            rates@ == gathered(
                old(rates)@,
                windows@.take(i as int),
                gains@.take(i as int),
                cur_reset,
            ),
            changed == (rates@.len() > old(rates)@.len()),
            rates@.len() >= old(rates)@.len(),
        decreases windows@.len() - i,
    {
        proof {
            assert(windows@.take(i + 1).drop_last() == windows@.take(i as int));
            assert(gains@.take(i + 1).drop_last() == gains@.take(i as int));
        }
        let w: Window = windows[i];
        if w.reset != cur_reset && !known(rates, w.reset) {
            if w.last.ts as i128 - w.first.ts as i128 >= HARVEST_MIN_SPAN as i128 {
                let gain: Gain = gains[i];
                if gain.used.at_least(Binary64 { bits: HARVEST_MIN_PCT }) {
                    rates.push((w.reset, gain.rate));
                    changed = true;
                }
            }
        }
        i = i + 1;
    }
    proof {
        assert(windows@.take(windows@.len() as int) == windows@);
        assert(gains@.take(gains@.len() as int) == gains@);
        law_harvest_changed(old(rates)@, windows@, gains@, cur_reset);
    }
    if rates.len() > RATES_KEEP {
        let cut: usize = rates.len() - RATES_KEEP;
        let kept: Vec<(i64, Binary64)> = rates.split_off(cut);
        *rates = kept;
        changed = true;
    }
    changed
}

proof fn lemma_gathered(
    rates: Seq<(i64, Binary64)>,
    windows: Seq<Window>,
    gains: Seq<Gain>,
    cur_reset: i64,
)
    requires
        windows.len() == gains.len(),
    ensures
        ({
            let g = gathered(rates, windows, gains, cur_reset);
            &&& rates.len() <= g.len()
            &&& g.take(rates.len() as int) == rates
            &&& forall|i: int|
                rates.len() <= i < g.len() ==> (#[trigger] g[i]).0 != cur_reset && !is_known(
                    g.take(i),
                    g[i].0,
                )
        }),
    decreases windows.len(),
{
    let g = gathered(rates, windows, gains, cur_reset);
    if windows.len() == 0 {
        assert(g.take(rates.len() as int) == rates);
    } else {
        let h = gathered(rates, windows.drop_last(), gains.drop_last(), cur_reset);
        lemma_gathered(rates, windows.drop_last(), gains.drop_last(), cur_reset);
        if yields(h, windows.last(), gains.last(), cur_reset) {
            assert(g.take(rates.len() as int) == h.take(rates.len() as int));
            assert forall|i: int| rates.len() <= i < g.len() implies (#[trigger] g[i]).0
                != cur_reset && !is_known(g.take(i), g[i].0) by {
                if i < h.len() {
                    assert(g[i] == h[i]);
                    assert(g.take(i) == h.take(i));
                } else {
                    assert(g.take(i) == h);
                }
            }
        }
    }
}

/// A harvest changes the history exactly if it adds a rate or has too many to keep.
pub proof fn law_harvest_changed(
    rates: Seq<(i64, Binary64)>,
    windows: Seq<Window>,
    gains: Seq<Gain>,
    cur_reset: i64,
)
    requires
        windows.len() == gains.len(),
    ensures
        ({
            let g = gathered(rates, windows, gains, cur_reset);
            (harvested(rates, windows, gains, cur_reset) != rates) == (g.len() > rates.len()
                || g.len() > RATES_KEEP)
        }),
{
    let g = gathered(rates, windows, gains, cur_reset);
    let h = capped(g);
    lemma_gathered(rates, windows, gains, cur_reset);
    if g.len() > rates.len() {
        let n = g.len() - 1;
        assert(!is_known(g.take(n), g[n].0));
        assert(h.last() == g[n]);
        if h == rates {
            assert(g.take(rates.len() as int)[rates.len() - 1] == rates.last());
            assert(g.take(n)[rates.len() - 1] == g[n]);
        }
    } else {
        assert(g.take(rates.len() as int) == g);
        if g.len() > RATES_KEEP {
            assert(h.len() != rates.len());
        }
    }
}

/// The history never holds more than `RATES_KEEP` rates; those that go are the oldest.
pub proof fn law_harvest_capped(
    rates: Seq<(i64, Binary64)>,
    windows: Seq<Window>,
    gains: Seq<Gain>,
    cur_reset: i64,
)
    ensures
        harvested(rates, windows, gains, cur_reset).len() <= RATES_KEEP,
        harvested(rates, windows, gains, cur_reset).is_suffix_of(
            gathered(rates, windows, gains, cur_reset),
        ),
{
}

/// A harvest leaves the order of the history as it is, adds to its end, and never adds
/// the rate of the open window or a second rate of one window.
pub proof fn law_harvest_adds(
    rates: Seq<(i64, Binary64)>,
    windows: Seq<Window>,
    gains: Seq<Gain>,
    cur_reset: i64,
)
    requires
        windows.len() == gains.len(),
    ensures
        ({
            let g = gathered(rates, windows, gains, cur_reset);
            &&& rates.is_prefix_of(g)
            &&& forall|i: int| rates.len() <= i < g.len() ==> (#[trigger] g[i]).0 != cur_reset
            &&& forall|i: int, j: int|
                0 <= i < j < g.len() && rates.len() <= j ==> (#[trigger] g[i]).0 != (
                #[trigger] g[j]).0
        }),
{
    let g = gathered(rates, windows, gains, cur_reset);
    lemma_gathered(rates, windows, gains, cur_reset);
    assert(rates.is_prefix_of(g));
    assert forall|i: int, j: int| 0 <= i < j < g.len() && rates.len() <= j implies (
    #[trigger] g[i]).0 != (#[trigger] g[j]).0 by {
        assert(!is_known(g.take(j), g[j].0));
        assert(g.take(j)[i] == g[i]);
    }
}

/// Whether no window has two rates.
pub open spec fn is_keyed(rates: Seq<(i64, Binary64)>) -> bool {
    forall|i: int, j: int|
        0 <= i < j < rates.len() ==> (#[trigger] rates[i]).0 != (#[trigger] rates[j]).0
}

/// A harvest keeps the history keyed: one rate for a window at most.
pub proof fn law_harvest_keyed(
    rates: Seq<(i64, Binary64)>,
    windows: Seq<Window>,
    gains: Seq<Gain>,
    cur_reset: i64,
)
    requires
        windows.len() == gains.len(),
        is_keyed(rates),
    ensures
        is_keyed(harvested(rates, windows, gains, cur_reset)),
{
    let g = gathered(rates, windows, gains, cur_reset);
    law_harvest_adds(rates, windows, gains, cur_reset);
    assert forall|i: int, j: int| 0 <= i < j < g.len() implies (#[trigger] g[i]).0 != (
    #[trigger] g[j]).0 by {
        if j < rates.len() {
            assert(rates[i].0 != rates[j].0);
            assert(g[i] == rates[i] && g[j] == rates[j]);
        }
    }
    let h = capped(g);
    if g.len() > RATES_KEEP {
        let d = g.len() - RATES_KEEP;
        assert forall|i: int, j: int| 0 <= i < j < h.len() implies (#[trigger] h[i]).0 != (
        #[trigger] h[j]).0 by {
            assert(h[i] == g[i + d] && h[j] == g[j + d]);
        }
    }
}

proof fn lemma_gathered_covers(
    rates: Seq<(i64, Binary64)>,
    windows: Seq<Window>,
    gains: Seq<Gain>,
    cur_reset: i64,
    i: int,
)
    requires
        windows.len() == gains.len(),
        0 <= i < windows.len(),
    ensures
        !yields(
            gathered(rates, windows, gains, cur_reset),
            windows[i],
            gains[i],
            cur_reset,
        ),
    decreases windows.len(),
{
    let g = gathered(rates, windows, gains, cur_reset);
    let h = gathered(rates, windows.drop_last(), gains.drop_last(), cur_reset);
    let last = windows.len() - 1;
    if i < last {
        lemma_gathered_covers(rates, windows.drop_last(), gains.drop_last(), cur_reset, i);
        if is_known(h, windows[i].reset) {
            let k = choose|k: int| 0 <= k < h.len() && (#[trigger] h[k]).0 == windows[i].reset;
            assert(g[k] == h[k]);
        }
    } else if yields(h, windows.last(), gains.last(), cur_reset) {
        assert(g[h.len() as int].0 == windows[i].reset);
    }
}

proof fn lemma_gathered_idle(
    rates: Seq<(i64, Binary64)>,
    windows: Seq<Window>,
    gains: Seq<Gain>,
    cur_reset: i64,
)
    requires
        windows.len() == gains.len(),
        forall|i: int|
            0 <= i < windows.len() ==> !yields(rates, #[trigger] windows[i], gains[i], cur_reset),
    ensures
        gathered(rates, windows, gains, cur_reset) == rates,
    decreases windows.len(),
{
    if windows.len() > 0 {
        let ws = windows.drop_last();
        let fs = gains.drop_last();
        assert forall|i: int| 0 <= i < ws.len() implies !yields(
            rates,
            #[trigger] ws[i],
            fs[i],
            cur_reset,
        ) by {
            assert(ws[i] == windows[i] && fs[i] == gains[i]);
        }
        lemma_gathered_idle(rates, ws, fs, cur_reset);
        assert(!yields(rates, windows[windows.len() - 1], gains[gains.len() - 1], cur_reset));
    }
}

/// A second harvest of the same windows changes nothing, as long as the first did not
/// have to drop a rate.
pub proof fn law_harvest_settles(
    rates: Seq<(i64, Binary64)>,
    windows: Seq<Window>,
    gains: Seq<Gain>,
    cur_reset: i64,
)
    requires
        windows.len() == gains.len(),
        gathered(rates, windows, gains, cur_reset).len() <= RATES_KEEP,
    ensures
        ({
            let h = harvested(rates, windows, gains, cur_reset);
            harvested(h, windows, gains, cur_reset) == h
        }),
{
    let g = gathered(rates, windows, gains, cur_reset);
    assert forall|i: int| 0 <= i < windows.len() implies !yields(
        g,
        #[trigger] windows[i],
        gains[i],
        cur_reset,
    ) by {
        lemma_gathered_covers(rates, windows, gains, cur_reset, i);
    }
    lemma_gathered_idle(g, windows, gains, cur_reset);
}

/// Every closed window that spans long enough and used enough is in the history after
/// the harvest, before the oldest rates are dropped.
pub proof fn law_harvest_complete(
    rates: Seq<(i64, Binary64)>,
    windows: Seq<Window>,
    gains: Seq<Gain>,
    cur_reset: i64,
    i: int,
)
    requires
        windows.len() == gains.len(),
        0 <= i < windows.len(),
        windows[i].reset != cur_reset,
        windows[i].last.ts - windows[i].first.ts >= HARVEST_MIN_SPAN,
        is_enough(gains[i].used),
    ensures
        is_known(gathered(rates, windows, gains, cur_reset), windows[i].reset),
{
    lemma_gathered_covers(rates, windows, gains, cur_reset, i);
}

/// Two windows in a row differ in the time of their reset.
pub proof fn law_windows_differ(s: Seq<Sample>, i: int)
    requires
        0 <= i < windows_of(s).len() - 1,
    ensures
        windows_of(s)[i].reset != windows_of(s)[i + 1].reset,
    decreases s.len(),
{
    lemma_run_len(s);
    let n = run_len(s) as int;
    let rest = s.skip(n);
    let ws = windows_of(rest);
    assert(windows_of(s)[i + 1] == ws[i]);
    if i == 0 {
        assert(rest[0] == s[n]);
    } else {
        assert(windows_of(s)[i] == ws[i - 1]);
        law_windows_differ(rest, i - 1);
    }
}

/// Whether a rate is that of a closed window that spans long enough and used enough.
pub open spec fn is_earned(
    entry: (i64, Binary64),
    windows: Seq<Window>,
    gains: Seq<Gain>,
    cur_reset: i64,
) -> bool {
    exists|k: int|
        {
            &&& 0 <= k < windows.len()
            &&& #[trigger] windows[k].reset != cur_reset
            &&& windows[k].last.ts - windows[k].first.ts >= HARVEST_MIN_SPAN
            &&& is_enough(gains[k].used)
            &&& entry == (windows[k].reset, gains[k].rate)
        }
}

/// Every rate that a harvest adds is that of a closed window; short windows, and those
/// in which little was used, add none.
pub proof fn law_harvest_earned(
    rates: Seq<(i64, Binary64)>,
    windows: Seq<Window>,
    gains: Seq<Gain>,
    cur_reset: i64,
    i: int,
)
    requires
        windows.len() == gains.len(),
        rates.len() <= i < gathered(rates, windows, gains, cur_reset).len(),
    ensures
        is_earned(gathered(rates, windows, gains, cur_reset)[i], windows, gains, cur_reset),
    decreases windows.len(),
{
    let g = gathered(rates, windows, gains, cur_reset);
    let ws = windows.drop_last();
    let gs = gains.drop_last();
    let h = gathered(rates, ws, gs, cur_reset);
    if i < h.len() {
        law_harvest_earned(rates, ws, gs, cur_reset, i);
        let k = choose|k: int|
            {
                &&& 0 <= k < ws.len()
                &&& #[trigger] ws[k].reset != cur_reset
                &&& ws[k].last.ts - ws[k].first.ts >= HARVEST_MIN_SPAN
                &&& is_enough(gs[k].used)
                &&& h[i] == (ws[k].reset, gs[k].rate)
            };
        assert(windows[k] == ws[k] && gains[k] == gs[k]);
        assert(windows[k].reset != cur_reset);
    } else {
        let k = windows.len() - 1;
        assert(windows[k].reset != cur_reset);
        assert(g[i] == (windows[k].reset, gains[k].rate));
    }
}

/// Whether the windows are those that samples make up when they are cut at the places
/// `cuts`.
pub open spec fn are_cut(ws: Seq<Window>, s: Seq<Sample>, cuts: Seq<int>) -> bool {
    &&& cuts.len() == ws.len() + 1
    &&& cuts[0] == 0
    &&& cuts[ws.len() as int] == s.len()
    &&& forall|i: int, j: int|
        0 <= i < j <= ws.len() ==> 0 <= #[trigger] cuts[i] < #[trigger] cuts[j] <= s.len()
    &&& forall|i: int|
        #![trigger ws[i]]
        0 <= i < ws.len() ==> ws[i].first == s[cuts[i]] && ws[i].last == s[cuts[i + 1] - 1]
    &&& forall|i: int, k: int|
        #![trigger ws[i], s[k]]
        0 <= i < ws.len() && cuts[i] <= k < cuts[i + 1] ==> s[k].five_reset == ws[i].reset
    &&& forall|i: int, j: int|
        #![trigger ws[i], ws[j]]
        0 <= i < j < ws.len() && j == i + 1 ==> ws[i].reset != ws[j].reset
}

/// The log is cut into windows at the places `cuts`: each window is the stretch of
/// samples from its cut to the next one, of which it holds the first and the last. All
/// samples of a stretch share the reset of the window, two stretches in a row differ in
/// it, and the stretches cover the log from its first sample to its last.
pub proof fn law_windows_cover(s: Seq<Sample>) -> (cuts: Seq<int>)
    ensures
        are_cut(windows_of(s), s, cuts),
    decreases s.len(),
{
    let ws = windows_of(s);
    if s.len() == 0 {
        assert(ws.len() == 0);
        let cuts = seq![0int];
        assert(are_cut(ws, s, cuts));
        cuts
    } else {
        lemma_run_len(s);
        let n = run_len(s) as int;
        let rest = s.skip(n);
        let more = windows_of(rest);
        let tail = law_windows_cover(rest);
        let cuts = seq![0] + tail.map_values(|c: int| c + n);
        assert(forall|k: int| n <= k < s.len() ==> #[trigger] s[k] == rest[k - n]);
        assert(forall|i: int| 0 <= i < tail.len() ==> cuts[i + 1] == #[trigger] tail[i] + n);
        assert forall|i: int, j: int| 0 <= i < j <= ws.len() implies 0 <= #[trigger] cuts[i]
            < #[trigger] cuts[j] <= s.len() by {
            assert(cuts[j] == tail[j - 1] + n);
            if i > 0 {
                assert(cuts[i] == tail[i - 1] + n);
            } else if j > 1 {
                assert(tail[0] < tail[j - 1]);
            }
        }
        assert forall|i: int| #![trigger ws[i]] 0 <= i < ws.len() implies ws[i].first
            == s[cuts[i]] && ws[i].last == s[cuts[i + 1] - 1] by {
            assert(cuts[i + 1] == tail[i] + n);
            if i > 0 {
                assert(ws[i] == more[i - 1]);
                assert(cuts[i] == tail[i - 1] + n);
                assert(tail[i - 1] < tail[i]);
            }
        }
        assert forall|i: int, k: int|
            #![trigger ws[i], s[k]]
            0 <= i < ws.len() && cuts[i] <= k < cuts[i + 1] implies s[k].five_reset
            == ws[i].reset by {
            if i > 0 {
                assert(ws[i] == more[i - 1]);
                assert(cuts[i] == tail[i - 1] + n && cuts[i + 1] == tail[i] + n);
                assert(s[k] == rest[k - n]);
            } else {
                assert(cuts[1] == tail[0] + n);
            }
        }
        assert forall|i: int, j: int|
            #![trigger ws[i], ws[j]]
            0 <= i < j < ws.len() && j == i + 1 implies ws[i].reset != ws[j].reset by {
            law_windows_differ(s, i);
        }
        assert(cuts.len() == ws.len() + 1);
        assert(cuts[ws.len() as int] == tail[more.len() as int] + n);
        assert(are_cut(ws, s, cuts));
        cuts
    }
}

/// The windows are taken in turn, and each adds its rate behind those that are there,
/// under the time of its reset, exactly if it is not the open one, no rate there is under
/// the same time, its samples span at least fifteen minutes, and at least two percent
/// were used in it.
pub proof fn law_harvest_in_turn(
    rates: Seq<(i64, Binary64)>,
    windows: Seq<Window>,
    gains: Seq<Gain>,
    cur_reset: i64,
    w: Window,
    gain: Gain,
)
    requires
        windows.len() == gains.len(),
    ensures
        gathered(rates, Seq::empty(), Seq::empty(), cur_reset) == rates,
        ({
            let there = gathered(rates, windows, gains, cur_reset);
            let after = gathered(rates, windows.push(w), gains.push(gain), cur_reset);
            if w.reset != cur_reset && (forall|i: int|
                0 <= i < there.len() ==> (#[trigger] there[i]).0 != w.reset) && w.last.ts
                - w.first.ts >= 900 && 0x4000_0000_0000_0000 <= gain.used.bits
                <= 0x7ff0_0000_0000_0000 {
                after == there.push((w.reset, gain.rate))
            } else {
                after == there
            }
        }),
{
    let ws = windows.push(w);
    let gs = gains.push(gain);
    assert(ws.drop_last() == windows);
    assert(gs.drop_last() == gains);
    assert(ws.last() == w && gs.last() == gain);
}

/// After a harvest the history holds the newest twenty of the rates that were there and
/// those that were added, or all of them where they are no more than that.
pub proof fn law_harvest_keeps_newest(
    rates: Seq<(i64, Binary64)>,
    windows: Seq<Window>,
    gains: Seq<Gain>,
    cur_reset: i64,
)
    ensures
        ({
            let g = gathered(rates, windows, gains, cur_reset);
            let h = harvested(rates, windows, gains, cur_reset);
            &&& h.len() == if g.len() < 20 {
                g.len()
            } else {
                20
            }
            &&& forall|i: int|
                0 <= i < h.len() ==> #[trigger] h[i] == g[g.len() - h.len() + i]
        }),
{
}

} // verus!
