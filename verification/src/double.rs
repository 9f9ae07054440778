//! Double-precision numbers carried as their bits.
//!
//! The library stores, compares and range-checks such numbers; it never
//! computes with them. Comparison is specified on the exact value of a
//! number, scaled by `2^1074` so that every finite one is an integer.
use vstd::arithmetic::power2::*;
use vstd::prelude::*;

verus! {

/// A double, carried as its IEEE-754 bits.
#[derive(Clone, Copy, Debug, PartialEq, Eq, Structural)]
pub struct Double {
    pub bits: u64,
}

/// The lowest bits of a negative number.
pub const SIGN: u64 = 0x8000_0000_0000_0000;

/// The bits of positive infinity.
pub const INFINITY: u64 = 0x7FF0_0000_0000_0000;

/// The bits of 1.0.
pub const ONE: u64 = 0x3FF0_0000_0000_0000;

/// The exact magnitude, times `2^1074`, of the number whose bits below the
/// sign are `m`. Infinity takes the value that follows the largest double.
pub open spec fn magnitude(m: nat) -> nat {
    let e = m / 0x10_0000_0000_0000;
    let f = m % 0x10_0000_0000_0000;
    if e == 0 {
        f
    } else {
        (0x10_0000_0000_0000 + f) * pow2((e - 1) as nat)
    }
}

impl Double {
    /// The bits below the sign.
    pub open spec fn unsigned(self) -> nat {
        if self.bits >= SIGN {
            (self.bits - SIGN) as nat
        } else {
            self.bits as nat
        }
    }

    /// Not a number.
    pub open spec fn nan(self) -> bool {
        self.unsigned() > INFINITY
    }

    /// Neither infinite nor NaN.
    pub open spec fn finite(self) -> bool {
        self.unsigned() < INFINITY
    }

    /// The exact value times `2^1074`; meaningless for NaN.
    pub open spec fn scaled(self) -> int {
        if self.bits >= SIGN {
            -(magnitude(self.unsigned()) as int)
        } else {
            magnitude(self.unsigned()) as int
        }
    }

    /// `self < other` as doubles compare: false when either is NaN.
    pub open spec fn below(self, other: Double) -> bool {
        !self.nan() && !other.nan() && self.scaled() < other.scaled()
    }

    /// From 0 to 1, both included.
    pub open spec fn unit(self) -> bool {
        !self.nan() && 0 <= self.scaled() <= pow2(1074)
    }

    /// Every finite number is below infinity.
    pub proof fn finite_is_below_infinity(self, infinity: Double)
        requires
            self.finite(),
            infinity.bits == INFINITY,
        ensures
            self.below(infinity),
    {
        lemma_magnitude_order(self.unsigned(), INFINITY as nat);
    }

    /// 1 and 0 are from 0 to 1.
    pub proof fn outcomes_are_in_the_unit_interval()
        ensures
            (Double { bits: ONE }).unit(),
            (Double { bits: 0 }).unit(),
    {
        lemma_one();
        lemma_magnitude_zero(0);
        lemma_pow2_pos(1074);
    }

    /// The number with these bits.
    pub fn from_bits(bits: u64) -> (r: Double)
        ensures
            r.bits == bits,
    {
        Double { bits }
    }

    /// The bits of the number.
    pub fn to_bits(self) -> (r: u64)
        ensures
            r == self.bits,
    {
        self.bits
    }

    /// 1.0.
    pub fn one() -> (r: Double)
        ensures
            r.bits == ONE,
            r.scaled() == pow2(1074),
    {
        proof {
            lemma_one();
        }
        Double { bits: ONE }
    }

    /// 0.0.
    pub fn zero() -> (r: Double)
        ensures
            r.bits == 0,
            r.scaled() == 0,
    {
        proof {
            lemma_magnitude_zero(0);
        }
        Double { bits: 0 }
    }

    /// Positive infinity.
    pub fn infinity() -> (r: Double)
        ensures
            r.bits == INFINITY,
            !r.nan(),
            !r.finite(),
    {
        Double { bits: INFINITY }
    }

    /// Whether the number is neither infinite nor NaN.
    pub fn is_finite(self) -> (r: bool)
        ensures
            r == self.finite(),
    {
        if self.bits >= SIGN {
            self.bits - SIGN < INFINITY
        } else {
            self.bits < INFINITY
        }
    }

    /// Whether `self < other`; false when either is NaN.
    pub fn less_than(self, other: Double) -> (r: bool)
        ensures
            r == self.below(other),
    {
        let negative = self.bits >= SIGN;
        let other_negative = other.bits >= SIGN;
        let m: u64 = if negative {
            self.bits - SIGN
        } else {
            self.bits
        };
        let n: u64 = if other_negative {
            other.bits - SIGN
        } else {
            other.bits
        };
        if m > INFINITY || n > INFINITY {
            return false;
        }
        proof {
            lemma_magnitude_order(m as nat, n as nat);
            lemma_magnitude_order(n as nat, m as nat);
            lemma_magnitude_zero(m as nat);
            lemma_magnitude_zero(n as nat);
        }
        if negative {
            if other_negative {
                n < m
            } else {
                m != 0 || n != 0
            }
        } else {
            !other_negative && m < n
        }
    }

    /// Whether `0.0 <= self <= 1.0`.
    pub fn in_unit_interval(self) -> (r: bool)
        ensures
            r == self.unit(),
    {
        proof {
            lemma_one();
            let m = self.unsigned();
            lemma_magnitude_zero(m);
            lemma_magnitude_order(m, ONE as nat);
            lemma_magnitude_order(ONE as nat, m);
            lemma_magnitude_order(m, INFINITY as nat);
        }
        self.bits <= ONE || self.bits == SIGN
    }

    /// Whether the number is finite and at least 0.0.
    pub fn is_finite_and_nonnegative(self) -> (r: bool)
        ensures
            r == (self.finite() && 0 <= self.scaled()),
    {
        proof {
            lemma_magnitude_zero(self.unsigned());
        }
        self.bits < INFINITY || self.bits == SIGN
    }
}

proof fn lemma_one()
    ensures
        magnitude(ONE as nat) == pow2(1074),
{
    let e: nat = ONE as nat / 0x10_0000_0000_0000;
    assert(e == 0x3FF);
    lemma2_to64_rest();
    lemma_pow2_adds(52, 1022);
}

/// Only zero has magnitude zero.
proof fn lemma_magnitude_zero(m: nat)
    ensures
        (magnitude(m) == 0) == (m == 0),
{
    let e = m / 0x10_0000_0000_0000;
    let f = m % 0x10_0000_0000_0000;
    if e != 0 {
        lemma_pow2_pos((e - 1) as nat);
        assert((0x10_0000_0000_0000 + f) * pow2((e - 1) as nat) > 0) by (nonlinear_arith)
            requires
                pow2((e - 1) as nat) > 0,
                f >= 0,
        ;
    }
}

/// Larger bits below the sign mean a larger magnitude.
proof fn lemma_magnitude_order(m: nat, n: nat)
    ensures
        m < n ==> magnitude(m) < magnitude(n),
{
    if m < n {
        let e = m / 0x10_0000_0000_0000;
        let f = m % 0x10_0000_0000_0000;
        let d = n / 0x10_0000_0000_0000;
        let g = n % 0x10_0000_0000_0000;
        assert(e <= d);
        if e == d {
            assert(f < g);
            if e > 0 {
                let p = pow2((e - 1) as nat);
                lemma_pow2_pos((e - 1) as nat);
                assert((0x10_0000_0000_0000 + f) * p < (0x10_0000_0000_0000 + g) * p)
                    by (nonlinear_arith)
                    requires
                        f < g,
                        p > 0,
                ;
            }
        } else {
            let q = pow2((d - 1) as nat);
            lemma_pow2_pos((d - 1) as nat);
            assert((0x10_0000_0000_0000 + g) * q >= 0x10_0000_0000_0000 * q) by (nonlinear_arith)
                requires
                    g >= 0,
                    q > 0,
            ;
            if e > 0 {
                let p = pow2((e - 1) as nat);
                lemma_pow2_pos((e - 1) as nat);
                lemma_pow2_adds(1, (e - 1) as nat);
                lemma2_to64();
                if e < d - 1 {
                    lemma_pow2_strictly_increases(e, (d - 1) as nat);
                }
                assert(2 * p <= q);
                assert((0x10_0000_0000_0000 + f) * p < 0x10_0000_0000_0000 * (2 * p))
                    by (nonlinear_arith)
                    requires
                        f < 0x10_0000_0000_0000,
                        p > 0,
                ;
            }
        }
    }
}

/// Doubles are ordered as their bits are: positive ones upwards, negative
/// ones downwards, and every negative one but zero below every positive one.
/// Nothing is ordered against NaN.
pub proof fn doubles_are_ordered_by_their_bits(a: Double, b: Double)
    ensures
        a.nan() <==> 0x7FF0_0000_0000_0000 < a.bits < 0x8000_0000_0000_0000 || a.bits
            > 0xFFF0_0000_0000_0000,
        a.below(b) <==> !a.nan() && !b.nan() && if a.bits < 0x8000_0000_0000_0000 {
            a.bits < b.bits < 0x8000_0000_0000_0000
        } else if b.bits < 0x8000_0000_0000_0000 {
            a.bits != 0x8000_0000_0000_0000 || b.bits != 0
        } else {
            b.bits < a.bits
        },
        !a.nan() && !b.nan() ==> (a.below(b) <==> a.scaled() < b.scaled()),
{
    let m = a.unsigned();
    let n = b.unsigned();
    lemma_magnitude_order(m, n);
    lemma_magnitude_order(n, m);
    lemma_magnitude_zero(m);
    lemma_magnitude_zero(n);
}

/// The bits that stand for a number from 0 to 1, for one that is neither
/// infinite nor NaN, and for such a one that is not negative.
pub proof fn ranges_are_told_by_bits(a: Double)
    ensures
        a.unit() <==> a.bits <= 0x3FF0_0000_0000_0000 || a.bits == 0x8000_0000_0000_0000,
        a.finite() <==> a.bits < 0x7FF0_0000_0000_0000 || 0x8000_0000_0000_0000 <= a.bits
            < 0xFFF0_0000_0000_0000,
        a.finite() && a.scaled() >= 0 <==> a.bits < 0x7FF0_0000_0000_0000 || a.bits
            == 0x8000_0000_0000_0000,
{
    lemma_one();
    let m = a.unsigned();
    lemma_magnitude_zero(m);
    lemma_magnitude_order(m, ONE as nat);
    lemma_magnitude_order(ONE as nat, m);
    lemma_magnitude_order(m, INFINITY as nat);
}

/// The value behind the bits: up to twice the least normal number it counts
/// in steps of one, and from there on each exponent doubles it.
pub proof fn exponents_double_the_value(bits: u64)
    requires
        bits < 0x7FE0_0000_0000_0000,
    ensures
        bits < 0x0020_0000_0000_0000 ==> (Double { bits }).scaled() == bits,
        bits >= 0x0010_0000_0000_0000 ==> (Double {
            bits: (bits + 0x0010_0000_0000_0000) as u64,
        }).scaled() == 2 * (Double { bits }).scaled(),
        (Double { bits: (bits + 0x8000_0000_0000_0000) as u64 }).scaled() == -(Double {
            bits,
        }).scaled(),
{
    let m = bits as nat;
    let e = m / 0x10_0000_0000_0000;
    let f = m % 0x10_0000_0000_0000;
    lemma2_to64();
    if e == 1 {
        assert((0x10_0000_0000_0000 + f) * pow2(0) == 0x10_0000_0000_0000 + f);
    }
    if e >= 1 {
        let up = m + 0x10_0000_0000_0000;
        assert(up / 0x10_0000_0000_0000 == e + 1);
        assert(up % 0x10_0000_0000_0000 == f);
        let p = pow2((e - 1) as nat);
        lemma_pow2_unfold(e);
        assert((0x10_0000_0000_0000 + f) * (2 * p) == 2 * ((0x10_0000_0000_0000 + f) * p))
            by (nonlinear_arith);
    }
}

/// Two numbers of the same value have the same bits, but for the two zeros.
pub proof fn equal_values_have_equal_bits(a: Double, b: Double)
    requires
        a.scaled() == b.scaled(),
        a.scaled() != 0,
    ensures
        a == b,
{
    lemma_magnitude_order(a.unsigned(), b.unsigned());
    lemma_magnitude_order(b.unsigned(), a.unsigned());
    lemma_magnitude_zero(a.unsigned());
    lemma_magnitude_zero(b.unsigned());
}

/// The value of one.
pub proof fn one_is_a_power_of_two()
    ensures
        (Double { bits: 0x3FF0_0000_0000_0000 }).scaled() == pow2(1074),
{
    lemma_one();
}

} // verus!
