//! Percentages and burn rates as IEEE 754 binary64 numbers, held by their bits.
//!
//! The top bit is the sign; the other bits, read as an integer, order the numbers of
//! one sign by size. They are the exponent (eleven bits) and the fraction (52 bits).

use vstd::arithmetic::div_mod::{
    lemma_basic_div_specific_divisor, lemma_div_denominator, lemma_div_is_ordered,
    lemma_div_multiples_vanish, lemma_div_pos_is_pos, lemma_fundamental_div_mod, lemma_mod_bound,
};
use vstd::arithmetic::mul::{
    lemma_mul_inequality, lemma_mul_is_associative, lemma_mul_is_commutative,
    lemma_mul_nonnegative,
};
use vstd::arithmetic::power2::{
    lemma2_to64, lemma2_to64_rest, lemma_pow2_adds, lemma_pow2_pos, lemma_pow2_strictly_increases,
    lemma_pow2_unfold, pow2,
};
use vstd::prelude::*;

verus! {

/// The sign bit.
pub const SIGN: u64 = 0x8000_0000_0000_0000;

/// The magnitude of the infinities; a greater one is no number.
pub const INFINITE: u64 = 0x7ff0_0000_0000_0000;

/// The unit of the exponent.
pub const EXPONENT: u64 = 0x0010_0000_0000_0000;

/// A binary64 number, given by its bits.
#[derive(Clone, Copy, Debug, PartialEq, Eq, Structural)]
pub struct Binary64 {
    pub bits: u64,
}

/// `m` times two to the power of `k`, rounded to the nearest integer; what lies half
/// way between two integers is rounded up.
pub open spec fn nearest(m: nat, k: int) -> int {
    if k >= 0 {
        m * pow2(k as nat) as int
    } else {
        (m + pow2((-k - 1) as nat)) as int / pow2((-k) as nat) as int
    }
}

/// `m` times two to the power of `k`, without what is behind the point.
pub open spec fn whole(m: nat, k: int) -> int {
    if k >= 0 {
        m * pow2(k as nat) as int
    } else {
        m as int / pow2((-k) as nat) as int
    }
}

/// `n`, or the bound of `i64` next to it where `i64` does not hold it.
pub open spec fn saturated(n: int) -> i64 {
    if n < i64::MIN {
        i64::MIN
    } else if n > i64::MAX {
        i64::MAX
    } else {
        n as i64
    }
}

impl Binary64 {
    pub open spec fn is_negative(self) -> bool {
        self.bits >= SIGN
    }

    /// The bits without the sign.
    pub open spec fn magnitude(self) -> int {
        if self.is_negative() {
            self.bits - SIGN
        } else {
            self.bits as int
        }
    }

    pub open spec fn is_nan(self) -> bool {
        self.magnitude() > INFINITE
    }

    /// An integer that orders the numbers by their value. The two zeros share one
    /// rank; what is no number ranks beyond the infinity of its sign.
    pub open spec fn rank(self) -> int {
        if self.is_negative() {
            -self.magnitude()
        } else {
            self.magnitude()
        }
    }

    /// Whether both are numbers, and this is the other one or more.
    pub open spec fn reaches(self, other: Binary64) -> bool {
        !self.is_nan() && !other.is_nan() && self.rank() >= other.rank()
    }

    /// Whether this is a number, and zero or more.
    pub open spec fn at_least_zero(self) -> bool {
        !self.is_nan() && self.rank() >= 0
    }

    /// Whether this is a number, and zero or less.
    pub open spec fn at_most_zero(self) -> bool {
        !self.is_nan() && self.rank() <= 0
    }

    /// The number itself where it is above zero, and zero else.
    pub open spec fn non_negative_part(self) -> Binary64 {
        if !self.is_nan() && self.rank() > 0 {
            self
        } else {
            Binary64 { bits: 0 }
        }
    }

    /// The value without its sign is this times a power of two.
    pub open spec fn mantissa(self) -> nat {
        let fraction = (self.magnitude() % (EXPONENT as int)) as nat;
        if self.magnitude() < EXPONENT {
            fraction
        } else {
            fraction + EXPONENT as nat
        }
    }

    /// The power of two that goes with `mantissa`.
    pub open spec fn scale(self) -> int {
        if self.magnitude() < EXPONENT {
            -1074
        } else {
            self.magnitude() / (EXPONENT as int) - 1075
        }
    }

    /// The nearest integer, rounded away from zero half way between two, and kept
    /// within `i64`; zero for what is no number.
    pub open spec fn rounded(self) -> i64 {
        let n = nearest(self.mantissa(), self.scale());
        if self.is_nan() {
            0
        } else if self.is_negative() {
            saturated(-n)
        } else {
            saturated(n)
        }
    }

    /// The integer that is left without what is behind the point, kept within `i64`;
    /// zero for what is no number.
    pub open spec fn truncated(self) -> i64 {
        let n = whole(self.mantissa(), self.scale());
        if self.is_nan() {
            0
        } else if self.is_negative() {
            saturated(-n)
        } else {
            saturated(n)
        }
    }

    fn unsigned(self) -> (r: u64)
        ensures
            r == self.magnitude(),
            r < SIGN,
    {
        if self.bits >= SIGN {
            self.bits - SIGN
        } else {
            self.bits
        }
    }

    /// Whether this is no number.
    pub fn not_a_number(self) -> (r: bool)
        ensures
            r == self.is_nan(),
    {
        self.unsigned() > INFINITE
    }

    /// Whether this is a number, and zero or more.
    pub fn non_negative(self) -> (r: bool)
        ensures
            r == self.at_least_zero(),
    {
        let m: u64 = self.unsigned();
        m <= INFINITE && (self.bits < SIGN || m == 0)
    }

    /// Whether this is a number, and zero or less.
    pub fn non_positive(self) -> (r: bool)
        ensures
            r == self.at_most_zero(),
    {
        let m: u64 = self.unsigned();
        m <= INFINITE && (self.bits >= SIGN || m == 0)
    }

    /// The number itself where it is above zero, and zero else.
    pub fn positive_or_zero(self) -> (r: Binary64)
        ensures
            r == self.non_negative_part(),
            r.at_least_zero(),
    {
        let m: u64 = self.unsigned();
        if self.bits < SIGN && m <= INFINITE {
            self
        } else {
            Binary64 { bits: 0 }
        }
    }

    /// Whether both are numbers, and this is the other one or more.
    pub fn at_least(self, other: Binary64) -> (r: bool)
        ensures
            r == self.reaches(other),
    {
        self.unsigned() <= INFINITE && other.unsigned() <= INFINITE && !other.exceeds(self)
    }

    /// Whether this ranks after `other`.
    pub fn exceeds(self, other: Binary64) -> (r: bool)
        ensures
            r == (self.rank() > other.rank()),
    {
        let m: u64 = self.unsigned();
        let n: u64 = other.unsigned();
        if self.bits >= SIGN {
            other.bits >= SIGN && m < n
        } else if other.bits >= SIGN {
            m > 0 || n > 0
        } else {
            m > n
        }
    }

    /// `mantissa` and `scale`.
    fn parts(self) -> (r: (u64, i64))
        ensures
            r.0 == self.mantissa(),
            r.1 == self.scale(),
            r.0 < 2 * EXPONENT,
            r.1 > -1074 ==> r.0 >= EXPONENT,
    {
        let size: u64 = self.unsigned();
        let exponent: u64 = size / EXPONENT;
        let fraction: u64 = size % EXPONENT;
        if exponent == 0 {
            (fraction, -1074)
        } else {
            (fraction + EXPONENT, exponent as i64 - 1075)
        }
    }

    /// `size` with the sign of this number, kept within `i64`.
    fn signed(self, size: u64) -> (r: i64)
        requires
            size <= SIGN,
        ensures
            r == (if self.is_negative() {
                saturated(-(size as int))
            } else {
                saturated(size as int)
            }),
    {
        if self.bits >= SIGN {
            if size == SIGN {
                i64::MIN
            } else {
                -(size as i64)
            }
        } else if size == SIGN {
            i64::MAX
        } else {
            size as i64
        }
    }

    /// Rounds to the nearest integer, away from zero half way between two.
    pub fn round(self) -> (r: i64)
        ensures
            r == self.rounded(),
    {
        if self.not_a_number() {
            return 0;
        }
        let n: u64 = self.rounded_size();
        self.signed(n)
    }

    /// Cuts off what is behind the point.
    pub fn truncate(self) -> (r: i64)
        ensures
            r == self.truncated(),
    {
        if self.not_a_number() {
            return 0;
        }
        let n: u64 = self.whole_size();
        self.signed(n)
    }

    /// The rounded value without its sign, or `SIGN` where it is that or more.
    fn rounded_size(self) -> (r: u64)
        ensures
            r == (if nearest(self.mantissa(), self.scale()) >= SIGN {
                SIGN as int
            } else {
                nearest(self.mantissa(), self.scale())
            }),
    {
        let (m, k): (u64, i64) = self.parts();
        proof {
            lemma2_to64();
            lemma2_to64_rest();
        }
        if k >= 0 {
            scaled(m, k as u64)
        } else if k <= -54 {
            proof {
                let e = (-k) as nat;
                lemma_pow2_unfold(e);
                if e > 54 {
                    lemma_pow2_strictly_increases(53, (e - 1) as nat);
                }
                lemma_basic_div_specific_divisor(pow2(e) as int);
            }
            0
        } else {
            let e: u64 = (-k) as u64;
            let half: u64 = power(e - 1);
            proof {
                lemma_pow2_unfold(e as nat);
                if e < 53 {
                    lemma_pow2_strictly_increases((e - 1) as nat, 52);
                }
                assert((m + half) / (2 * half) <= m + half) by (nonlinear_arith)
                    requires
                        half >= 1,
                ;
            }
            (m + half) / (2 * half)
        }
    }

    /// The value without its sign and what is behind the point, or `SIGN` where it is
    /// that or more.
    fn whole_size(self) -> (r: u64)
        ensures
            r == (if whole(self.mantissa(), self.scale()) >= SIGN {
                SIGN as int
            } else {
                whole(self.mantissa(), self.scale())
            }),
    {
        let (m, k): (u64, i64) = self.parts();
        proof {
            lemma2_to64();
            lemma2_to64_rest();
        }
        if k >= 0 {
            scaled(m, k as u64)
        } else if k <= -53 {
            proof {
                let e = (-k) as nat;
                if e > 53 {
                    lemma_pow2_strictly_increases(53, e);
                }
                lemma_basic_div_specific_divisor(pow2(e) as int);
            }
            0
        } else {
            let one: u64 = power((-k) as u64);
            proof {
                assert(m / one <= m) by (nonlinear_arith)
                    requires
                        one >= 1,
                ;
            }
            m / one
        }
    }
}

/// `m` times two to the power of `k`, or `SIGN` where it is that or more.
fn scaled(m: u64, k: u64) -> (r: u64)
    requires
        EXPONENT <= m < 2 * EXPONENT,
    ensures
        r == (if m * pow2(k as nat) >= SIGN {
            SIGN as int
        } else {
            m * pow2(k as nat)
        }),
{
    proof {
        lemma2_to64();
        lemma2_to64_rest();
    }
    if k >= 11 {
        proof {
            lemma_pow2_adds(11, (k - 11) as nat);
            lemma_pow2_pos((k - 11) as nat);
            assert(m * pow2(k as nat) >= SIGN) by (nonlinear_arith)
                requires
                    m >= EXPONENT,
                    pow2(k as nat) == 0x800 * pow2((k - 11) as nat),
                    pow2((k - 11) as nat) >= 1,
            ;
        }
        SIGN
    } else {
        let p: u64 = power(k);
        proof {
            if k < 10 {
                lemma_pow2_strictly_increases(k as nat, 10);
            }
            assert(m * p < SIGN) by (nonlinear_arith)
                requires
                    m < 2 * EXPONENT,
                    p <= 0x400,
            ;
        }
        m * p
    }
}

/// Two to the power of `e`.
fn power(e: u64) -> (r: u64)
    requires
        e < 64,
    ensures
        r == pow2(e as nat),
        r >= 1,
{
    let mut r: u64 = 1;
    let mut i: u64 = 0;
    proof {
        lemma2_to64();
    }
    while i < e
        invariant
            i <= e < 64,
            r == pow2(i as nat),
            r >= 1,
        decreases e - i,
    {
        proof {
            lemma_pow2_unfold((i + 1) as nat);
            lemma2_to64();
            lemma2_to64_rest();
            if i + 1 < 63 {
                lemma_pow2_strictly_increases((i + 1) as nat, 63);
            }
        }
        r = 2 * r;
        i = i + 1;
    }
    r
}

/// Rounding moves a value by half a unit at most: with the value and the rounded
/// integer both counted in steps of two to the power of `k`, `k` negative, they differ
/// by no more than half of the steps that make up one.
pub proof fn law_nearest(m: nat, k: int)
    requires
        k < 0,
    ensures
        ({
            let one = pow2((-k) as nat) as int;
            &&& 2 * (nearest(m, k) * one - m) <= one
            &&& 2 * (m - nearest(m, k) * one) < one
        }),
{
    let one = pow2((-k) as nat) as int;
    let half = pow2((-k - 1) as nat) as int;
    lemma_pow2_unfold((-k) as nat);
    lemma_pow2_pos((-k - 1) as nat);
    let n = nearest(m, k);
    lemma_fundamental_div_mod(m + half, one);
    lemma_mod_bound(m + half, one);
    lemma_mul_is_commutative(n, one);
}

/// Truncation gives the greatest integer that is not above the value: with the value and
/// the integer both counted in steps of two to the power of `k`, `k` negative, the value
/// is that or more, by fewer steps than make up one.
pub proof fn law_whole(m: nat, k: int)
    requires
        k < 0,
    ensures
        ({
            let one = pow2((-k) as nat) as int;
            0 <= m - whole(m, k) * one < one
        }),
{
    let one = pow2((-k) as nat) as int;
    lemma_pow2_pos((-k) as nat);
    lemma_fundamental_div_mod(m as int, one);
    lemma_mod_bound(m as int, one);
    lemma_mul_is_commutative(whole(m, k), one);
}

proof fn lemma_whole_rescaled(m: nat, k: int, j: nat)
    ensures
        whole(m * pow2(j), k - j) == whole(m, k),
{
    let p = pow2(j) as int;
    lemma_pow2_pos(j);
    if k - j >= 0 {
        lemma_pow2_adds(j, (k - j) as nat);
        lemma_mul_is_associative(m as int, p, pow2((k - j) as nat) as int);
    } else if k >= 0 {
        let q = pow2((j - k) as nat) as int;
        let n = m * pow2(k as nat) as int;
        lemma_pow2_pos((j - k) as nat);
        lemma_pow2_adds(k as nat, (j - k) as nat);
        lemma_mul_is_associative(m as int, pow2(k as nat) as int, q);
        lemma_mul_is_commutative(n, q);
        lemma_div_multiples_vanish(n, q);
    } else {
        let q = pow2((-k) as nat) as int;
        lemma_pow2_pos((-k) as nat);
        lemma_pow2_adds(j, (-k) as nat);
        lemma_mul_is_commutative(m as int, p);
        lemma_div_multiples_vanish(m as int, p);
        lemma_div_denominator(m * p, p, q);
    }
}

proof fn lemma_whole_order(a: Binary64, b: Binary64)
    requires
        a.magnitude() <= b.magnitude(),
    ensures
        0 <= whole(a.mantissa(), a.scale()) <= whole(b.mantissa(), b.scale()),
{
    let k = a.scale();
    let j = b.scale() - k;
    let m = a.mantissa();
    assert(j >= 0);
    lemma_whole_rescaled(b.mantissa(), b.scale(), j as nat);
    let n = b.mantissa() * pow2(j as nat);
    assert(m <= n) by {
        assert(m < 2 * EXPONENT);
        if j == 0 {
            lemma2_to64();
            assert(n == b.mantissa()) by (nonlinear_arith)
                requires
                    n == b.mantissa() * pow2(j as nat),
                    pow2(j as nat) == 1,
            ;
            lemma_fundamental_div_mod(a.magnitude(), EXPONENT as int);
            lemma_fundamental_div_mod(b.magnitude(), EXPONENT as int);
        } else {
            lemma_pow2_unfold(j as nat);
            lemma_pow2_pos((j - 1) as nat);
            assert(b.mantissa() >= EXPONENT);
            assert(n >= 2 * b.mantissa()) by (nonlinear_arith)
                requires
                    n == b.mantissa() * pow2(j as nat),
                    pow2(j as nat) >= 2,
            ;
        }
    }
    if k >= 0 {
        lemma_mul_inequality(m as int, n as int, pow2(k as nat) as int);
        lemma_mul_nonnegative(m as int, pow2(k as nat) as int);
    } else {
        lemma_pow2_pos((-k) as nat);
        lemma_div_is_ordered(m as int, n as int, pow2((-k) as nat) as int);
        lemma_div_pos_is_pos(m as int, pow2((-k) as nat) as int);
    }
}

/// Truncation keeps the order of numbers.
pub proof fn law_truncated_order(a: Binary64, b: Binary64)
    requires
        b.reaches(a),
    ensures
        a.truncated() <= b.truncated(),
{
    lemma_whole_order(a, a);
    lemma_whole_order(b, b);
    if a.magnitude() == 0 && b.magnitude() == 0 {
        lemma_pow2_pos(1074);
        lemma_basic_div_specific_divisor(pow2(1074) as int);
    } else if a.magnitude() <= b.magnitude() {
        lemma_whole_order(a, b);
    } else {
        lemma_whole_order(b, a);
    }
}

/// A number is made up of its sign, its exponent `e` and its fraction `f`: without the
/// sign it is the fraction, with a leading one unless `e` is zero, times a power of two.
pub proof fn law_decoded(x: Binary64, negative: bool, e: int, f: int)
    requires
        0 <= e < 2047,
        0 <= f < 0x10_0000_0000_0000,
        x.bits == (if negative {
            0x8000_0000_0000_0000int
        } else {
            0
        }) + e * 0x10_0000_0000_0000 + f,
    ensures
        !x.is_nan(),
        x.is_negative() == negative,
        e == 0 ==> x.mantissa() == f && x.scale() == -1074,
        e > 0 ==> x.mantissa() == f + 0x10_0000_0000_0000 && x.scale() == e - 1075,
{
}

/// The value without its sign, counted in the least steps there are.
pub open spec fn steps(x: Binary64) -> nat {
    x.mantissa() * pow2((x.scale() + 1074) as nat)
}

proof fn lemma_steps_order(a: Binary64, b: Binary64)
    requires
        a.magnitude() < b.magnitude(),
    ensures
        steps(a) < steps(b),
{
    let k = (a.scale() + 1074) as nat;
    let j = b.scale() - a.scale();
    let m = a.mantissa();
    assert(j >= 0 && a.scale() >= -1074);
    let n = b.mantissa() * pow2(j as nat);
    assert(m < n) by {
        assert(m < 2 * EXPONENT);
        if j == 0 {
            lemma2_to64();
            assert(n == b.mantissa()) by (nonlinear_arith)
                requires
                    n == b.mantissa() * pow2(j as nat),
                    pow2(j as nat) == 1,
            ;
            lemma_fundamental_div_mod(a.magnitude(), EXPONENT as int);
            lemma_fundamental_div_mod(b.magnitude(), EXPONENT as int);
        } else {
            lemma_pow2_unfold(j as nat);
            lemma_pow2_pos((j - 1) as nat);
            assert(b.mantissa() >= EXPONENT);
            assert(n >= 2 * b.mantissa()) by (nonlinear_arith)
                requires
                    n == b.mantissa() * pow2(j as nat),
                    pow2(j as nat) >= 2,
            ;
        }
    }
    lemma_pow2_pos(k);
    lemma_pow2_adds(j as nat, k);
    lemma_mul_is_associative(b.mantissa() as int, pow2(j as nat) as int, pow2(k) as int);
    assert(steps(b) == n * pow2(k));
    assert(m * pow2(k) < n * pow2(k)) by (nonlinear_arith)
        requires
            m < n,
            pow2(k) > 0,
    ;
}

/// Numbers are ordered by their value: of two without a sign the one with the greater
/// value ranks after the other, of two with a sign the one with the lesser value, and
/// one without a sign never ranks before one with a sign.
pub proof fn law_rank(a: Binary64, b: Binary64)
    ensures
        !a.is_negative() && !b.is_negative() ==> (a.rank() < b.rank()) == (steps(a) < steps(b)),
        a.is_negative() && b.is_negative() ==> (a.rank() < b.rank()) == (steps(a) > steps(b)),
        a.is_negative() && !b.is_negative() ==> a.rank() <= b.rank() && (a.rank() == b.rank()) == (
        steps(a) == 0 && steps(b) == 0),
{
    let zero = Binary64 { bits: 0 };
    assert(steps(zero) == 0) by {
        assert(0 * pow2(0) == 0);
    }
    lemma_steps_zero(a);
    lemma_steps_zero(b);
    if a.magnitude() < b.magnitude() {
        lemma_steps_order(a, b);
    } else if b.magnitude() < a.magnitude() {
        lemma_steps_order(b, a);
    }
}

proof fn lemma_steps_zero(x: Binary64)
    ensures
        (steps(x) == 0) == (x.magnitude() == 0),
{
    let zero = Binary64 { bits: 0 };
    if x.magnitude() > 0 {
        lemma_steps_order(zero, x);
    } else {
        assert(x.mantissa() == 0);
        assert(0 * pow2((x.scale() + 1074) as nat) == 0) by (nonlinear_arith);
    }
}

/// The tests on numbers, by the order: none holds of what is no number.
pub proof fn law_tests(a: Binary64, b: Binary64)
    ensures
        a.is_nan() == (0x7ff0_0000_0000_0000 < a.bits < 0x8000_0000_0000_0000 || a.bits
            > 0xfff0_0000_0000_0000),
        a.at_least_zero() == (a.bits <= 0x7ff0_0000_0000_0000 || a.bits == 0x8000_0000_0000_0000),
        a.at_most_zero() == (a.bits == 0 || 0x8000_0000_0000_0000 <= a.bits
            <= 0xfff0_0000_0000_0000),
        a.reaches(b) == (!a.is_nan() && !b.is_nan() && !(a.rank() < b.rank())),
        a.non_negative_part() == (if 0 < a.bits <= 0x7ff0_0000_0000_0000 {
            a
        } else {
            Binary64 { bits: 0 }
        }),
{
}

/// A number with a fraction is rounded to the integer `n` that is nearest to it, away from
/// zero half way between two: without the signs, `n` is the value and half a unit, or
/// less than one unit below that, all counted in parts of which `one` make up a unit.
/// Without a fraction, the number is kept as far as an `i64` holds it.
pub proof fn law_rounded(x: Binary64)
    requires
        !x.is_nan(),
    ensures
        x.scale() < 0 ==> ({
            let one = pow2((-x.scale()) as nat) as int;
            let n = if x.is_negative() {
                -x.rounded()
            } else {
                x.rounded() as int
            };
            &&& n >= 0
            &&& 2 * n * one <= 2 * x.mantissa() + one
            &&& 2 * x.mantissa() + one < 2 * (n + 1) * one
        }),
        x.scale() >= 0 ==> x.rounded() == saturated(
            if x.is_negative() {
                -(x.mantissa() * pow2(x.scale() as nat))
            } else {
                x.mantissa() * pow2(x.scale() as nat) as int
            },
        ),
{
    let m = x.mantissa();
    let k = x.scale();
    if k < 0 {
        let one = pow2((-k) as nat) as int;
        let half = pow2((-k - 1) as nat) as int;
        lemma_pow2_unfold((-k) as nat);
        lemma_pow2_pos((-k - 1) as nat);
        let n = nearest(m, k);
        lemma_fundamental_div_mod(m + half, one);
        lemma_mod_bound(m + half, one);
        lemma_mul_is_commutative(n, one);
        lemma_div_pos_is_pos(m + half, one);
        assert(one >= 2);
        assert(n <= m + half) by {
            assert(n * one >= n) by (nonlinear_arith)
                requires
                    n >= 0,
                    one >= 2,
            ;
        }
        assert(n < 0x7fff_ffff_ffff_ffff) by {
            assert(m < 2 * EXPONENT);
            assert(2 * n <= n * one) by (nonlinear_arith)
                requires
                    n >= 0,
                    one >= 2,
            ;
            assert(n * one <= m + half);
            assert(n <= m + 1) by (nonlinear_arith)
                requires
                    n * one <= m + half,
                    one == 2 * half,
                    half >= 1,
                    m >= 0,
            ;
        }
        assert(2 * n * one == 2 * (n * one)) by (nonlinear_arith);
        assert(2 * (n + 1) * one == 2 * (n * one) + 2 * one) by (nonlinear_arith);
    }
}

/// A number with a fraction is truncated to the greatest integer that is not above it,
/// without the sign; without a fraction, it is kept as far as an `i64` holds it.
pub proof fn law_truncated(x: Binary64)
    requires
        !x.is_nan(),
    ensures
        x.scale() < 0 ==> ({
            let one = pow2((-x.scale()) as nat) as int;
            let n = if x.is_negative() {
                -x.truncated()
            } else {
                x.truncated() as int
            };
            &&& n >= 0
            &&& n * one <= x.mantissa()
            &&& x.mantissa() < (n + 1) * one
        }),
        x.scale() >= 0 ==> x.truncated() == saturated(
            if x.is_negative() {
                -(x.mantissa() * pow2(x.scale() as nat))
            } else {
                x.mantissa() * pow2(x.scale() as nat) as int
            },
        ),
{
    let m = x.mantissa();
    let k = x.scale();
    if k < 0 {
        let one = pow2((-k) as nat) as int;
        lemma_pow2_pos((-k) as nat);
        let n = whole(m, k);
        law_whole(m, k);
        lemma_div_pos_is_pos(m as int, one);
        assert(n <= m) by (nonlinear_arith)
            requires
                n * one <= m,
                one >= 1,
                n >= 0,
        ;
        assert(m < 2 * EXPONENT);
        assert((n + 1) * one == n * one + one) by (nonlinear_arith);
    }
}

} // verus!
