//! The median of the known burn rates, which serves as the prior of the forecast.

use crate::binary64::Binary64;
use vstd::prelude::*;

verus! {

/// `s` with `x` put behind the last element that does not rank after it.
pub open spec fn inserted(s: Seq<Binary64>, x: Binary64) -> Seq<Binary64>
    decreases s.len(),
{
    if s.len() == 0 || s.last().rank() <= x.rank() {
        s.push(x)
    } else {
        inserted(s.drop_last(), x).push(s.last())
    }
}

/// `v` in the order of rank; what ranks alike keeps its order.
pub open spec fn ranked(v: Seq<Binary64>) -> Seq<Binary64>
    decreases v.len(),
{
    if v.len() == 0 {
        v
    } else {
        inserted(ranked(v.drop_last()), v.last())
    }
}

/// The element in the middle of the ranked sequence, the upper one of two.
pub open spec fn median_of(v: Seq<Binary64>) -> Option<Binary64> {
    if v.len() == 0 {
        None
    } else {
        Some(ranked(v)[v.len() as int / 2])
    }
}

proof fn lemma_inserted_at(s: Seq<Binary64>, x: Binary64, p: int)
    requires
        0 <= p <= s.len(),
        p == 0 || s[p - 1].rank() <= x.rank(),
        forall|i: int| p <= i < s.len() ==> (#[trigger] s[i]).rank() > x.rank(),
    ensures
        inserted(s, x) == s.insert(p, x),
    decreases s.len(),
{
    if p == s.len() {
        assert(s.insert(p, x) == s.push(x));
    } else {
        assert(s[s.len() - 1].rank() > x.rank());
        let t = s.drop_last();
        assert forall|i: int| p <= i < t.len() implies (#[trigger] t[i]).rank() > x.rank() by {
            assert(t[i] == s[i]);
        }
        lemma_inserted_at(t, x, p);
        assert(t.insert(p, x).push(s.last()) == s.insert(p, x));
    }
}

proof fn lemma_ranked_len(v: Seq<Binary64>)
    ensures
        ranked(v).len() == v.len(),
    decreases v.len(),
{
    if v.len() > 0 {
        lemma_ranked_len(v.drop_last());
        lemma_inserted_len(ranked(v.drop_last()), v.last());
    }
}

proof fn lemma_inserted_len(s: Seq<Binary64>, x: Binary64)
    ensures
        inserted(s, x).len() == s.len() + 1,
    decreases s.len(),
{
    if s.len() > 0 && s.last().rank() > x.rank() {
        lemma_inserted_len(s.drop_last(), x);
    }
}

/// The median of `v`, the upper one of two; nothing where `v` is empty.
pub fn median(v: Vec<Binary64>) -> (r: Option<Binary64>)
    ensures
        r == median_of(v@),
{
    if v.len() == 0 {
        return None;
    }
    let mut sorted: Vec<Binary64> = Vec::new();
    let mut i: usize = 0;
    while i < v.len()
        invariant
            i <= v@.len(),
            sorted@ == ranked(v@.take(i as int)),
            sorted@.len() == i,
        decreases v@.len() - i,
    {
        let x: Binary64 = v[i];
        let mut p: usize = sorted.len();
        while p > 0 && sorted[p - 1].exceeds(x)
            invariant
                p <= sorted@.len(),
                forall|k: int| p <= k < sorted@.len() ==> (#[trigger] sorted@[k]).rank() > x.rank(),
            decreases p,
        {
            p = p - 1;
        }
        proof {
            lemma_inserted_at(sorted@, x, p as int);
            assert(v@.take(i + 1).drop_last() == v@.take(i as int));
        }
        sorted.insert(p, x);
        i = i + 1;
    }
    assert(v@.take(v@.len() as int) == v@);
    Some(sorted[v.len() / 2])
}

/// The prior of the forecast, given the rate of each window.
pub open spec fn prior_of(rates: Seq<(i64, Binary64)>) -> Option<Binary64> {
    median_of(rates.map_values(|e: (i64, Binary64)| e.1))
}

/// The prior of the forecast: the median of the known rates.
pub fn prior(rates: &Vec<(i64, Binary64)>) -> (r: Option<Binary64>)
    ensures
        r == median_of(rates@.map_values(|e: (i64, Binary64)| e.1)),
        r == prior_of(rates@),
{
    let ghost all = rates@.map_values(|e: (i64, Binary64)| e.1);
    let mut v: Vec<Binary64> = Vec::new();
    let mut i: usize = 0;
    while i < rates.len()
        invariant
            i <= rates@.len(),
            all == rates@.map_values(|e: (i64, Binary64)| e.1),
            v@ == all.take(i as int),
        decreases rates@.len() - i,
    {
        v.push(rates[i].1);
        i = i + 1;
        assert(v@ == all.take(i as int));
    }
    assert(all.take(all.len() as int) == all);
    median(v)
}

/// The number of elements for which `p` holds.
pub open spec fn count(v: Seq<Binary64>, p: spec_fn(Binary64) -> bool) -> nat
    decreases v.len(),
{
    if v.len() == 0 {
        0
    } else {
        count(v.drop_last(), p) + (if p(v.last()) {
            1nat
        } else {
            0
        })
    }
}

/// Whether the elements stand in the order of rank.
pub open spec fn is_ranked(s: Seq<Binary64>) -> bool {
    forall|i: int, j: int|
        0 <= i <= j < s.len() ==> (#[trigger] s[i]).rank() <= (#[trigger] s[j]).rank()
}

proof fn lemma_count_push(v: Seq<Binary64>, x: Binary64, p: spec_fn(Binary64) -> bool)
    ensures
        count(v.push(x), p) == count(v, p) + (if p(x) {
            1nat
        } else {
            0
        }),
{
    assert(v.push(x).drop_last() == v);
}

proof fn lemma_inserted(s: Seq<Binary64>, x: Binary64)
    requires
        is_ranked(s),
    ensures
        is_ranked(inserted(s, x)),
        forall|p: spec_fn(Binary64) -> bool| #[trigger]
            count(inserted(s, x), p) == count(s, p) + (if p(x) {
                1nat
            } else {
                0
            }),
        forall|y: Binary64| #[trigger] inserted(s, x).contains(y) ==> s.contains(y) || y == x,
    decreases s.len(),
{
    let r = inserted(s, x);
    if s.len() == 0 || s.last().rank() <= x.rank() {
        assert forall|i: int, j: int| 0 <= i <= j < r.len() implies (#[trigger] r[i]).rank() <= (
        #[trigger] r[j]).rank() by {
            if j == s.len() && i < s.len() {
                assert(s[i].rank() <= s[s.len() - 1].rank());
            } else if j < s.len() {
                assert(s[i].rank() <= s[j].rank());
            }
        }
        assert forall|p: spec_fn(Binary64) -> bool| #[trigger] count(r, p) == count(s, p) + (if p(
            x,
        ) {
            1nat
        } else {
            0
        }) by {
            lemma_count_push(s, x, p);
        }
        assert forall|y: Binary64| #[trigger] r.contains(y) implies s.contains(y) || y == x by {
            let k = choose|k: int| 0 <= k < r.len() && r[k] == y;
            if k < s.len() {
                assert(s[k] == y);
            }
        }
    } else {
        let t = s.drop_last();
        let l = s.last();
        assert forall|i: int, j: int| 0 <= i <= j < t.len() implies (#[trigger] t[i]).rank() <= (
        #[trigger] t[j]).rank() by {
            assert(s[i].rank() <= s[j].rank());
        }
        lemma_inserted(t, x);
        let q = inserted(t, x);
        assert forall|i: int, j: int| 0 <= i <= j < r.len() implies (#[trigger] r[i]).rank() <= (
        #[trigger] r[j]).rank() by {
            if j < q.len() {
                assert(q[i].rank() <= q[j].rank());
            } else if i < q.len() {
                assert(q.contains(q[i]));
                if q[i] != x {
                    let k = choose|k: int| 0 <= k < t.len() && t[k] == q[i];
                    assert(s[k].rank() <= s[s.len() - 1].rank());
                }
            }
        }
        assert forall|p: spec_fn(Binary64) -> bool| #[trigger] count(r, p) == count(s, p) + (if p(
            x,
        ) {
            1nat
        } else {
            0
        }) by {
            lemma_count_push(q, l, p);
            lemma_count_push(t, l, p);
            assert(t.push(l) == s);
            assert(count(q, p) == count(t, p) + (if p(x) {
                1nat
            } else {
                0
            }));
        }
        assert forall|y: Binary64| #[trigger] r.contains(y) implies s.contains(y) || y == x by {
            let k = choose|k: int| 0 <= k < r.len() && r[k] == y;
            if k < q.len() {
                assert(q.contains(q[k]));
                if y != x {
                    let m = choose|m: int| 0 <= m < t.len() && t[m] == y;
                    assert(s[m] == y);
                }
            } else {
                assert(s[s.len() - 1] == y);
            }
        }
    }
}

/// The ranked sequence stands in the order of rank and holds what the sequence holds.
pub proof fn law_ranked(v: Seq<Binary64>)
    ensures
        ranked(v).len() == v.len(),
        is_ranked(ranked(v)),
        forall|p: spec_fn(Binary64) -> bool| #[trigger] count(ranked(v), p) == count(v, p),
        forall|y: Binary64| #[trigger] ranked(v).contains(y) ==> v.contains(y),
    decreases v.len(),
{
    lemma_ranked_len(v);
    if v.len() > 0 {
        let t = v.drop_last();
        law_ranked(t);
        lemma_inserted(ranked(t), v.last());
        assert forall|p: spec_fn(Binary64) -> bool| #[trigger]
            count(ranked(v), p) == count(v, p) by {
            assert(count(ranked(t), p) == count(t, p));
            assert(count(inserted(ranked(t), v.last()), p) == count(ranked(t), p) + (if p(
                v.last(),
            ) {
                1nat
            } else {
                0
            }));
        }
        assert forall|y: Binary64| #[trigger] ranked(v).contains(y) implies v.contains(y) by {
            if y == v.last() {
                assert(v[v.len() - 1] == y);
            } else {
                assert(ranked(t).contains(y));
                let k = choose|k: int| 0 <= k < t.len() && t[k] == y;
                assert(v[k] == y);
            }
        }
    }
}

proof fn lemma_count_bounds(s: Seq<Binary64>, p: spec_fn(Binary64) -> bool, from: int, to: int)
    requires
        0 <= from <= to <= s.len(),
    ensures
        (forall|i: int| 0 <= i < s.len() && !(from <= i < to) ==> !p(#[trigger] s[i])) ==> count(
            s,
            p,
        ) <= to - from,
        (forall|i: int| from <= i < to ==> p(#[trigger] s[i])) ==> count(s, p) >= to - from,
    decreases s.len(),
{
    if s.len() > 0 {
        let t = s.drop_last();
        let n = t.len() as int;
        assert(s[n] == s.last());
        if to == s.len() && from < to {
            lemma_count_bounds(t, p, from, to - 1);
        } else if to == s.len() {
            lemma_count_bounds(t, p, n, n);
        } else {
            lemma_count_bounds(t, p, from, to);
        }
        assert(forall|i: int| 0 <= i < n ==> t[i] == #[trigger] s[i]);
    }
}

/// The median is one of the values; at most half of them rank below it, and fewer than
/// half above it.
pub proof fn law_median(v: Seq<Binary64>)
    requires
        v.len() > 0,
    ensures
        ({
            let m = median_of(v)->0;
            &&& v.contains(m)
            &&& 2 * count(v, |x: Binary64| x.rank() < m.rank()) <= v.len()
            &&& 2 * count(v, |x: Binary64| x.rank() > m.rank()) < v.len()
        }),
{
    law_ranked(v);
    let s = ranked(v);
    let n = v.len() as int;
    let h = n / 2;
    let m = s[h];
    assert(s.contains(m));
    let below = |x: Binary64| x.rank() < m.rank();
    let above = |x: Binary64| x.rank() > m.rank();
    assert forall|i: int| 0 <= i < n && !(0 <= i < h) implies !below(#[trigger] s[i]) by {
        assert(s[h].rank() <= s[i].rank());
    }
    assert forall|i: int| 0 <= i < n && !(h + 1 <= i < n) implies !above(#[trigger] s[i]) by {
        assert(s[i].rank() <= s[h].rank());
    }
    lemma_count_bounds(s, below, 0, h);
    lemma_count_bounds(s, above, h + 1, n);
    assert(count(s, below) == count(v, below));
    assert(count(s, above) == count(v, above));
}

proof fn lemma_count_update(v: Seq<Binary64>, i: int, x: Binary64, p: spec_fn(Binary64) -> bool)
    requires
        0 <= i < v.len(),
    ensures
        count(v, p) <= count(v.update(i, x), p) + 1,
    decreases v.len(),
{
    let u = v.update(i, x);
    if i == v.len() - 1 {
        assert(u.drop_last() == v.drop_last());
    } else {
        assert(u.drop_last() == v.drop_last().update(i, x));
        assert(u.last() == v.last());
        lemma_count_update(v.drop_last(), i, x, p);
    }
}

proof fn lemma_count_implies(
    v: Seq<Binary64>,
    p: spec_fn(Binary64) -> bool,
    q: spec_fn(Binary64) -> bool,
)
    requires
        forall|x: Binary64| #[trigger] p(x) ==> q(x),
    ensures
        count(v, p) <= count(v, q),
    decreases v.len(),
{
    if v.len() > 0 {
        lemma_count_implies(v.drop_last(), p, q);
        assert(p(v.last()) ==> q(v.last()));
    }
}

/// A single rate cannot skew the median: whatever it is replaced by, the median stays
/// between the two neighbours that it has among the ranked rates.
pub proof fn law_median_steady(v: Seq<Binary64>, i: int, x: Binary64)
    requires
        v.len() >= 3,
        0 <= i < v.len(),
    ensures
        ({
            let h = v.len() as int / 2;
            let m = median_of(v.update(i, x))->0;
            ranked(v)[h - 1].rank() <= m.rank() <= ranked(v)[h + 1].rank()
        }),
{
    law_ranked(v);
    let u = v.update(i, x);
    law_median(u);
    let s = ranked(v);
    let n = v.len() as int;
    let h = n / 2;
    let m = median_of(u)->0;
    let lo = s[h - 1];
    let hi = s[h + 1];
    let below = |y: Binary64| y.rank() < m.rank();
    let above = |y: Binary64| y.rank() > m.rank();
    if m.rank() > hi.rank() {
        let p = |y: Binary64| y.rank() <= hi.rank();
        assert forall|k: int| 0 <= k < h + 2 implies p(#[trigger] s[k]) by {
            assert(s[k].rank() <= s[h + 1].rank());
        }
        lemma_count_bounds(s, p, 0, h + 2);
        assert(count(s, p) == count(v, p));
        lemma_count_update(v, i, x, p);
        lemma_count_implies(u, p, below);
    }
    if m.rank() < lo.rank() {
        let p = |y: Binary64| y.rank() >= lo.rank();
        assert forall|k: int| h - 1 <= k < n implies p(#[trigger] s[k]) by {
            assert(s[h - 1].rank() <= s[k].rank());
        }
        lemma_count_bounds(s, p, h - 1, n);
        assert(count(s, p) == count(v, p));
        lemma_count_update(v, i, x, p);
        lemma_count_implies(u, p, above);
    }
}

/// There is a median exactly if there are rates; that of one is the rate itself.
pub proof fn law_median_there(v: Seq<Binary64>)
    ensures
        median_of(v) is None == (v.len() == 0),
        v.len() == 1 ==> median_of(v) == Some(v[0]),
{
    if v.len() == 1 {
        assert(v.drop_last().len() == 0);
        assert(ranked(v.drop_last()).len() == 0);
        assert(ranked(v)[0] == v[0]);
    }
}

/// The prior is the median of all rates, whichever windows they are of.
pub proof fn law_prior(rates: Seq<(i64, Binary64)>, v: Seq<Binary64>)
    requires
        v.len() == rates.len(),
        forall|i: int| 0 <= i < v.len() ==> #[trigger] v[i] == rates[i].1,
    ensures
        prior_of(rates) == median_of(v),
{
    assert(rates.map_values(|e: (i64, Binary64)| e.1) == v);
}

} // verus!
