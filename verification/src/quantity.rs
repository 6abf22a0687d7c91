//! Non-negative amounts, held as binary64 bit patterns.
//!
//! Sample weights, estimated sizes and rates are kept as [`Quantity`] values. Every
//! operation returns the exact result rounded to the binary64 grid, so a value here
//! and a hardware double that went through the same operations have the same bits.
use crate::mantissa::{brackets, lemma_brackets_exact, round, scale_down, scale_up, shifted};
use crate::rounding::{
    is_nearest, lemma_nearest_exact, lemma_nearest_exists, lemma_nearest_is,
    lemma_nearest_monotone, lemma_units_of_parts, lemma_units_ordered, nearest, one_units, units,
    FRACTION, INFINITY, ONE_EXPONENT,
};
use vstd::arithmetic::div_mod::{lemma_fundamental_div_mod, lemma_fundamental_div_mod_converse};
use vstd::arithmetic::power2::{
    lemma2_to64, lemma2_to64_rest, lemma_pow2_adds, lemma_pow2_pos, lemma_pow2_strictly_increases,
    lemma_pow2_unfold, pow2,
};
use vstd::prelude::*;

verus! {

/// A non-negative binary64 number, infinity included.
#[derive(Debug, Clone, Copy, PartialEq, Eq, Structural)]
pub struct Quantity {
    pub bits: u64,
}

impl Quantity {
    /// The bit pattern is that of a non-negative number or of infinity.
    pub open spec fn wf(self) -> bool {
        self.bits <= INFINITY
    }

    pub open spec fn is_finite(self) -> bool {
        self.bits < INFINITY
    }

    /// The amount, in units of the least positive binary64 number.
    pub open spec fn amount(self) -> nat {
        units(self.bits as nat)
    }

    /// The fraction `n / d` of units, rounded.
    pub open spec fn rounded(n: nat, d: nat) -> Quantity {
        Quantity { bits: nearest(n, d) as u64 }
    }

    /// The integer `v`, rounded.
    pub open spec fn of(v: nat) -> Quantity {
        Quantity::rounded(v * one_units(), 1)
    }

    /// The sum of two amounts; infinite if either is.
    pub open spec fn sum(self, other: Quantity) -> Quantity {
        if self.is_finite() && other.is_finite() {
            Quantity::rounded(self.amount() + other.amount(), 1)
        } else {
            Quantity { bits: INFINITY }
        }
    }

    /// By how much this amount exceeds the other, zero where it does not.
    pub open spec fn excess(self, other: Quantity) -> Quantity {
        if self.bits <= other.bits {
            Quantity { bits: 0 }
        } else if self.is_finite() {
            Quantity::rounded((self.amount() - other.amount()) as nat, 1)
        } else {
            Quantity { bits: INFINITY }
        }
    }

    /// The product of two amounts; infinite if either is.
    pub open spec fn product(self, other: Quantity) -> Quantity {
        if self.is_finite() && other.is_finite() {
            Quantity::rounded(self.amount() * other.amount(), one_units())
        } else {
            Quantity { bits: INFINITY }
        }
    }

    /// The quotient of two amounts, of which the second is not zero.
    pub open spec fn quotient(self, other: Quantity) -> Quantity {
        if !self.is_finite() {
            Quantity { bits: INFINITY }
        } else if other.is_finite() {
            Quantity::rounded(self.amount() * one_units(), other.amount())
        } else {
            Quantity { bits: 0 }
        }
    }

    /// The whole part of the amount, at most the greatest index.
    pub open spec fn whole_part(self) -> nat {
        let w = self.amount() / one_units();
        if w < usize::MAX {
            w
        } else {
            usize::MAX as nat
        }
    }

    /// The integer nearest to the amount, halves going up, at most the greatest index.
    pub open spec fn nearest_whole(self) -> nat {
        let w = (2 * self.amount() + one_units()) / (2 * one_units());
        if w < usize::MAX {
            w
        } else {
            usize::MAX as nat
        }
    }

    /// The amount nothing.
    pub fn zero() -> (r: Quantity)
        ensures
            r.bits == 0,
            r.amount() == 0,
            r.is_finite(),
    {
        Quantity { bits: 0 }
    }

    /// Mantissa and exponent.
    pub(crate) fn parts(self) -> (r: (u64, u64))
        requires
            self.is_finite(),
        ensures
            self.amount() == r.0 as nat * pow2(r.1 as nat),
            r.0 < 2 * FRACTION,
            r.0 >= FRACTION || r.1 == 0,
            r.1 <= 2045,
            r.0 == 0 <==> self.bits == 0,
    {
        let e: u64 = self.bits / FRACTION;
        let f: u64 = self.bits % FRACTION;
        proof {
            lemma2_to64();
            assert(self.bits * pow2(0) == self.bits);
        }
        if e == 0 {
            (self.bits, 0)
        } else {
            (FRACTION + f, e - 1)
        }
    }

    /// A mantissa of 53 bits, with its exponent counted from the unit of the number one.
    pub(crate) fn normal_parts(self) -> (r: (u64, u64))
        requires
            0 < self.bits < INFINITY,
        ensures
            self.amount() * one_units() == r.0 as nat * pow2(r.1 as nat),
            FRACTION <= r.0 < 2 * FRACTION,
            1022 <= r.1 <= 2045 + 1074,
    {
        let ghost n = self.amount() * one_units();
        let (m, x) = self.parts();
        let mut top: u64 = m;
        let mut e: u64 = x + ONE_EXPONENT;
        proof {
            lemma_pow2_adds(x as nat, ONE_EXPONENT as nat);
            let p = pow2(x as nat);
            let q = one_units();
            assert((m * p) * q == m * (p * q)) by (nonlinear_arith);
            lemma2_to64();
        }
        while top < FRACTION && e > 1022
            invariant
                0 < top < 2 * FRACTION,
                n == top * pow2(e as nat),
                1022 <= e <= 2045 + 1074,
                top < FRACTION ==> top >= pow2((1074 - e) as nat),
                top < FRACTION ==> e <= 1074,
            decreases e,
        {
            proof {
                lemma_pow2_unfold(e as nat);
                let p = pow2((e - 1) as nat);
                assert(top * (2 * p) == (top * 2) * p) by (nonlinear_arith);
                lemma_pow2_unfold((1074 - e + 1) as nat);
            }
            top = top * 2;
            e = e - 1;
        }
        proof {
            lemma2_to64_rest();
        }
        (top, e)
    }

    /// The integer `v` as a quantity: exact below 2 to the power of 53.
    pub fn from_u64(v: u64) -> (r: Quantity)
        ensures
            r == Quantity::of(v as nat),
            r.wf(),
    {
        let ghost n = v as nat * one_units();
        proof {
            lemma_brackets_exact(n, v as nat, ONE_EXPONENT as nat, 0);
            lemma2_to64();
        }
        Quantity { bits: round(Ghost(n), Ghost(1), v as u128, ONE_EXPONENT as i64, false) }
    }

    /// The sum of two quantities.
    pub fn plus(self, other: Quantity) -> (r: Quantity)
        requires
            self.wf(),
            other.wf(),
        ensures
            r == self.sum(other),
            r.wf(),
    {
        if self.bits == INFINITY || other.bits == INFINITY {
            return Quantity { bits: INFINITY };
        }
        if self.bits < other.bits {
            other.plus_smaller(self)
        } else {
            self.plus_smaller(other)
        }
    }

    fn plus_smaller(self, other: Quantity) -> (r: Quantity)
        requires
            other.bits <= self.bits < INFINITY,
        ensures
            r == Quantity::rounded(self.amount() + other.amount(), 1),
            r.wf(),
    {
        let (m, x) = self.parts();
        let (k, y) = other.parts();
        let ghost n = self.amount() + other.amount();
        proof {
            lemma_exponents_ordered(self.bits as nat, other.bits as nat, m as nat, x as nat, k as nat, y as nat);
        }
        let gap: u64 = x - y;
        if gap <= 64 {
            proof {
                lemma_aligned(m as nat, x as nat, y as nat);
                lemma_shift_fits(m as nat, gap as nat);
            }
            let wide: u128 = shifted(m as u128, gap);
            let total: u128 = wide + k as u128;
            proof {
                assert(total * pow2(y as nat) == n) by (nonlinear_arith)
                    requires
                        total == wide + k,
                        n == wide * pow2(y as nat) + k * pow2(y as nat),
                ;
                lemma_brackets_exact(n, total as nat, y as nat, 0);
                lemma2_to64();
            }
            Quantity { bits: round(Ghost(n), Ghost(1), total, y as i64, false) }
        } else {
            proof {
                lemma_far_apart(n, m as nat, x as nat, k as nat, y as nat, true);
            }
            let total: u128 = m as u128 * 1024;
            Quantity { bits: round(Ghost(n), Ghost(1), total, x as i64 - 10, k > 0) }
        }
    }

    /// By how much this quantity exceeds the other, zero where it does not.
    pub fn excess_over(self, other: Quantity) -> (r: Quantity)
        requires
            self.wf(),
            other.wf(),
        ensures
            r == self.excess(other),
            r.wf(),
    {
        if self.bits <= other.bits {
            return Quantity { bits: 0 };
        }
        if self.bits == INFINITY {
            return Quantity { bits: INFINITY };
        }
        let (m, x) = self.parts();
        let (k, y) = other.parts();
        let ghost n = (self.amount() - other.amount()) as nat;
        proof {
            lemma_units_ordered(self.bits as nat, other.bits as nat);
            lemma_exponents_ordered(
                self.bits as nat,
                other.bits as nat,
                m as nat,
                x as nat,
                k as nat,
                y as nat,
            );
        }
        let gap: u64 = x - y;
        if gap <= 64 || k == 0 {
            if k == 0 {
                proof {
                    assert(k * pow2(y as nat) == 0) by (nonlinear_arith)
                        requires
                            k == 0,
                    ;
                    lemma_nearest_exact(n, 1, self.bits as nat);
                }
                return self;
            }
            proof {
                lemma_aligned(m as nat, x as nat, y as nat);
                lemma_shift_fits(m as nat, gap as nat);
                lemma_pow2_pos(y as nat);
            }
            let wide: u128 = shifted(m as u128, gap);
            proof {
                let p = pow2(y as nat);
                assert(wide > k) by (nonlinear_arith)
                    requires
                        wide * p > k * p,
                        p > 0,
                ;
            }
            let rest: u128 = wide - k as u128;
            proof {
                assert(rest * pow2(y as nat) == n) by (nonlinear_arith)
                    requires
                        rest == wide - k,
                        n == wide * pow2(y as nat) - k * pow2(y as nat),
                ;
                lemma_brackets_exact(n, rest as nat, y as nat, 0);
                lemma2_to64();
            }
            Quantity { bits: round(Ghost(n), Ghost(1), rest, y as i64, false) }
        } else {
            proof {
                lemma_far_apart(n, m as nat, x as nat, k as nat, y as nat, false);
            }
            let rest: u128 = m as u128 * 1024 - 1;
            Quantity { bits: round(Ghost(n), Ghost(1), rest, x as i64 - 10, true) }
        }
    }

    /// The product of two quantities, not of zero and infinity.
    pub fn times(self, other: Quantity) -> (r: Quantity)
        requires
            self.wf(),
            other.wf(),
            self.bits == 0 ==> other.is_finite(),
            other.bits == 0 ==> self.is_finite(),
        ensures
            r == self.product(other),
            r.wf(),
    {
        if self.bits == INFINITY || other.bits == INFINITY {
            return Quantity { bits: INFINITY };
        }
        let (m, x) = self.parts();
        let (k, y) = other.parts();
        let ghost n = self.amount() * other.amount();
        proof {
            let p = pow2(x as nat);
            let q = pow2(y as nat);
            lemma_pow2_adds(x as nat, y as nat);
            assert((m * p) * (k * q) == (m * k) * (p * q)) by (nonlinear_arith);
            assert(0 <= m * k < 0x20_0000_0000_0000 * 0x20_0000_0000_0000) by (nonlinear_arith)
                requires
                    0 <= m < 0x20_0000_0000_0000,
                    0 <= k < 0x20_0000_0000_0000,
            ;
        }
        let total: u128 = m as u128 * k as u128;
        proof {
            lemma_brackets_exact(n, total as nat, (x + y) as nat, ONE_EXPONENT as nat);
            lemma_pow2_pos(ONE_EXPONENT as nat);
        }
        let exponent: i64 = x as i64 + y as i64 - ONE_EXPONENT as i64;
        Quantity { bits: round(Ghost(n), Ghost(one_units()), total, exponent, false) }
    }

    /// The quotient of two quantities, of which the second is not zero and not both
    /// are infinite.
    pub fn over(self, other: Quantity) -> (r: Quantity)
        requires
            self.wf(),
            other.wf(),
            other.bits > 0,
            self.is_finite() || other.is_finite(),
        ensures
            r == self.quotient(other),
            r.wf(),
    {
        if self.bits == INFINITY {
            return Quantity { bits: INFINITY };
        }
        if other.bits == INFINITY {
            return Quantity { bits: 0 };
        }
        let ghost n = self.amount() * one_units();
        let ghost d = other.amount();
        proof {
            lemma_units_ordered(other.bits as nat, 0);
        }
        if self.bits == 0 {
            proof {
                assert(n == d * units(0)) by (nonlinear_arith)
                    requires
                        n == self.amount() * one_units(),
                        self.amount() == 0,
                        units(0) == 0,
                ;
                lemma_nearest_exact(n, d, 0);
            }
            return Quantity { bits: 0 };
        }
        let (m, e) = self.normal_parts();
        let top: u128 = m as u128;
        let (k, y) = other.parts();
        proof {
            lemma_shift_fits(top as nat, 64);
            lemma2_to64();
        }
        let wide: u128 = top * 0x1_0000_0000_0000_0000;
        let q: u128 = wide / k as u128;
        let rem: u128 = wide % k as u128;
        let exponent: i64 = e as i64 - y as i64 - 64;
        proof {
            lemma_fundamental_div_mod(wide as int, k as int);
            assert(k * q == q * k) by (nonlinear_arith);
            assert(q >= 2 * FRACTION) by (nonlinear_arith)
                requires
                    q * k + rem == top * 0x1_0000_0000_0000_0000,
                    rem < k,
                    k < 0x20_0000_0000_0000,
                    top >= 0x10_0000_0000_0000,
                    FRACTION == 0x10_0000_0000_0000,
            ;
            lemma_division(n, d, top as nat, e as nat, k as nat, y as nat, q as nat, rem as nat);
        }
        Quantity { bits: round(Ghost(n), Ghost(d), q, exponent, rem != 0) }
    }

    /// The whole part of the amount.
    pub fn truncate(self) -> (r: usize)
        requires
            self.wf(),
        ensures
            r == self.whole_part(),
    {
        match self.integer(false) {
            Some(w) => if w < usize::MAX as u128 {
                w as usize
            } else {
                usize::MAX
            },
            None => usize::MAX,
        }
    }

    /// The nearest integer, halves going up.
    pub fn round(self) -> (r: usize)
        requires
            self.wf(),
        ensures
            r == self.nearest_whole(),
    {
        match self.integer(true) {
            Some(w) => if w < usize::MAX as u128 {
                w as usize
            } else {
                usize::MAX
            },
            None => usize::MAX,
        }
    }

    /// The integer that the amount becomes, rounded or cut, if it is below 2 to the
    /// power of 65.
    fn integer(self, rounding: bool) -> (r: Option<u128>)
        requires
            self.wf(),
        ensures
            ({
                let w = if rounding {
                    (2 * self.amount() + one_units()) / (2 * one_units())
                } else {
                    self.amount() / one_units()
                };
                match r {
                    Some(v) => v == w,
                    None => w >= 0x1_0000_0000_0000_0000,
                }
            }),
    {
        let ghost one = one_units();
        let ghost a = self.amount();
        proof {
            lemma_pow2_pos(ONE_EXPONENT as nat);
            lemma2_to64();
        }
        if self.bits == INFINITY {
            proof {
                lemma_units_of_parts(FRACTION as nat, 2046);
                lemma_pow2_adds(ONE_EXPONENT as nat, 972);
                lemma_pow2_strictly_increases(64, 972);
                let p = pow2(972);
                assert(a == (FRACTION * p) * one) by (nonlinear_arith)
                    requires
                        a == FRACTION * (one * p),
                ;
                lemma_whole(FRACTION as nat * p, one);
                assert(FRACTION * p >= p) by (nonlinear_arith)
                    requires
                        FRACTION >= 1,
                ;
            }
            return None;
        }
        let (m, x) = self.parts();
        if x >= ONE_EXPONENT {
            let up: u64 = x - ONE_EXPONENT;
            proof {
                let p = pow2(up as nat);
                lemma_pow2_adds(up as nat, ONE_EXPONENT as nat);
                assert(a == (m * p) * one) by (nonlinear_arith)
                    requires
                        a == m * (p * one),
                ;
                lemma_whole(m as nat * p, one);
            }
            if up > 12 {
                proof {
                    lemma_pow2_strictly_increases(12, up as nat);
                    let p = pow2(up as nat);
                    assert(m * p >= 0x10_0000_0000_0000 * 4096) by (nonlinear_arith)
                        requires
                            m >= 0x10_0000_0000_0000,
                            p >= 4096,
                    ;
                }
                None
            } else {
                proof {
                    lemma_shift_fits(m as nat, up as nat);
                }
                Some(shifted(m as u128, up))
            }
        } else {
            let down: u64 = ONE_EXPONENT - x;
            proof {
                let q = pow2(x as nat);
                let p = pow2(down as nat);
                lemma_pow2_adds(down as nat, x as nat);
                lemma_pow2_pos(x as nat);
                lemma_pow2_pos(down as nat);
                assert(one == p * q);
                lemma_whole_scaled(m as nat, p, q);
            }
            if down > 54 {
                proof {
                    lemma_pow2_strictly_increases(54, down as nat);
                    lemma2_to64_rest();
                    let p = pow2(down as nat);
                    lemma_fundamental_div_mod_converse(m as int, p as int, 0, m as int);
                    lemma_fundamental_div_mod_converse(
                        2 * m + p,
                        2 * p as int,
                        0,
                        2 * m + p,
                    );
                }
                Some(0)
            } else {
                proof {
                    lemma_shift_fits(1, down as nat);
                }
                let p: u128 = shifted(1, down);
                if rounding {
                    Some((2 * m as u128 + p) / (2 * p))
                } else {
                    Some(m as u128 / p)
                }
            }
        }
    }
}

/// The bit pattern of 2 to the power of `k`.
pub open spec fn power_bits(k: nat) -> nat {
    (1023 + k) * FRACTION as nat
}

/// What [`power_bits`] names, in units.
pub proof fn lemma_power_bits(k: nat)
    ensures
        units(power_bits(k)) == pow2(1074 + k),
        k <= 1023 ==> power_bits(k) < INFINITY,
{
    let f = FRACTION as nat;
    lemma_units_of_parts(f, 1022 + k);
    assert((1022 + k) * f + f == power_bits(k)) by (nonlinear_arith)
        requires
            power_bits(k) == (1023 + k) * f,
    ;
    lemma2_to64_rest();
    lemma_pow2_adds(52, 1022 + k);
    if k <= 1023 {
        assert((1023 + k) * f < 0x7FF0_0000_0000_0000) by (nonlinear_arith)
            requires
                k <= 1023,
                f == 0x10_0000_0000_0000,
        ;
    }
}

/// Powers of two that fit are integers that need no rounding.
pub proof fn lemma_of_power(k: nat)
    requires
        k <= 64,
    ensures
        Quantity::of(pow2(k)).bits == power_bits(k),
{
    lemma_power_bits(k);
    lemma_pow2_adds(k, 1074);
    lemma_nearest_exact(pow2(k) * one_units(), 1, power_bits(k));
}

/// An integer below 2 to the power of 64 becomes a finite amount, and one that is not
/// zero an amount of at least one.
pub proof fn lemma_of_bounds(v: nat)
    requires
        v <= u64::MAX,
    ensures
        Quantity::of(v).bits <= power_bits(64),
        Quantity::of(v).is_finite(),
        v > 0 ==> Quantity::of(v).bits >= power_bits(0),
        v == 0 ==> Quantity::of(v).bits == 0,
        power_bits(0) > 0,
{
    let one = one_units();
    lemma2_to64();
    lemma_power_bits(64);
    lemma_of_power(64);
    lemma_of_power(0);
    lemma_pow2_pos(1074);
    assert(v * one <= pow2(64) * one) by (nonlinear_arith)
        requires
            v <= pow2(64),
    ;
    lemma_nearest_monotone(v * one, 1, pow2(64) * one, 1);
    lemma_nearest_exists(pow2(64) * one, 1);
    lemma_nearest_exists(pow2(0) * one, 1);
    if v > 0 {
        assert(pow2(0) * one <= v * one) by (nonlinear_arith)
            requires
                pow2(0) <= v,
        ;
        lemma_nearest_monotone(pow2(0) * one, 1, v * one, 1);
    } else {
        assert(v * one == 0) by (nonlinear_arith)
            requires
                v == 0,
        ;
        lemma_nearest_exact(0, 1, 0);
    }
    lemma_nearest_exists(v * one, 1);
}

/// A sum of two amounts of at most 2 to the power of `k` is at most twice that.
pub proof fn lemma_sum_bounded(a: Quantity, b: Quantity, k: nat)
    requires
        k <= 1000,
        a.bits <= power_bits(k),
        b.bits <= power_bits(k),
    ensures
        a.sum(b).bits <= power_bits(k + 1),
        a.sum(b).is_finite(),
{
    lemma_power_bits(k);
    lemma_power_bits(k + 1);
    lemma_pow2_unfold(1074 + k + 1);
    lemma_units_ordered(a.bits as nat, power_bits(k));
    lemma_units_ordered(b.bits as nat, power_bits(k));
    lemma_nearest_exact(units(power_bits(k + 1)), 1, power_bits(k + 1));
    lemma_nearest_monotone(a.amount() + b.amount(), 1, units(power_bits(k + 1)), 1);
}

/// Adding to a greater amount gives no smaller sum.
pub proof fn lemma_sum_monotone(a: Quantity, b: Quantity, c: Quantity)
    requires
        a.wf(),
        b.wf(),
        c.wf(),
        a.bits <= b.bits,
    ensures
        a.sum(c).bits <= b.sum(c).bits,
        a.sum(c).wf(),
{
    lemma_units_ordered(a.bits as nat, b.bits as nat);
    lemma_nearest_exists(a.amount() + c.amount(), 1);
    lemma_nearest_exists(b.amount() + c.amount(), 1);
    lemma_nearest_monotone(a.amount() + c.amount(), 1, b.amount() + c.amount(), 1);
}

/// A sum is no smaller than either of its parts.
pub proof fn lemma_sum_grows(a: Quantity, b: Quantity)
    requires
        a.wf(),
        b.wf(),
    ensures
        a.sum(b).wf(),
        a.bits <= a.sum(b).bits,
        b.bits <= a.sum(b).bits,
{
    lemma_nearest_exists(a.amount() + b.amount(), 1);
    lemma_nearest_exact(a.amount(), 1, a.bits as nat);
    lemma_nearest_exact(b.amount(), 1, b.bits as nat);
    lemma_nearest_monotone(a.amount(), 1, a.amount() + b.amount(), 1);
    lemma_nearest_monotone(b.amount(), 1, a.amount() + b.amount(), 1);
}

/// Dividing by an amount of at least one gives no more.
pub proof fn lemma_quotient_shrinks(a: Quantity, b: Quantity)
    requires
        a.wf(),
        b.is_finite(),
        b.bits >= power_bits(0),
    ensures
        a.quotient(b).bits <= a.bits,
{
    let one = one_units();
    lemma_power_bits(0);
    lemma_pow2_pos(1074);
    lemma_units_ordered(power_bits(0), b.bits as nat);
    if a.is_finite() {
        let n = a.amount() * one;
        let d = b.amount();
        assert(n * one <= n * d) by (nonlinear_arith)
            requires
                one <= d,
                n >= 0,
        ;
        assert(n == one * units(a.bits as nat)) by (nonlinear_arith)
            requires
                n == units(a.bits as nat) * one,
        ;
        lemma_nearest_exact(n, one, a.bits as nat);
        lemma_nearest_monotone(n, d, n, one);
    }
}

/// The power of two at an integer or below it.
proof fn lemma_power_below(v: nat, k: nat) -> (j: nat)
    requires
        0 < v < pow2(k),
    ensures
        j < k,
        pow2(j) <= v < pow2(j + 1),
    decreases k,
{
    lemma2_to64();
    if k == 0 {
        0
    } else if v < pow2((k - 1) as nat) {
        lemma_power_below(v, (k - 1) as nat)
    } else {
        (k - 1) as nat
    }
}

/// An integer of at most 2 to the power of 53 is held exactly.
pub proof fn lemma_of_exact(v: nat)
    requires
        v <= pow2(53),
    ensures
        Quantity::of(v).amount() == v * one_units(),
        Quantity::of(v).is_finite(),
{
    let one = one_units();
    lemma2_to64();
    lemma2_to64_rest();
    lemma_of_bounds(v);
    if v == 0 {
        assert(v * one == 0) by (nonlinear_arith)
            requires
                v == 0,
        ;
    } else if v == pow2(53) {
        lemma_of_power(53);
        lemma_power_bits(53);
        lemma_pow2_adds(53, 1074);
    } else {
        let j = lemma_power_below(v, 53);
        let shift = (52 - j) as nat;
        let x = (1022 + j) as nat;
        let p = pow2(shift);
        let m = v * p;
        lemma_pow2_pos(shift);
        lemma_pow2_adds(j, shift);
        lemma_pow2_adds(j + 1, shift);
        lemma_pow2_adds(shift, x);
        assert(pow2(52) <= m < pow2(53)) by (nonlinear_arith)
            requires
                m == v * p,
                pow2(j) <= v < pow2(j + 1),
                pow2(j) * p == pow2(52),
                pow2(j + 1) * p == pow2(53),
                p > 0,
        ;
        lemma_units_of_parts(m, x);
        let b = x * FRACTION as nat + m;
        assert(m * pow2(x) == v * (p * pow2(x))) by (nonlinear_arith)
            requires
                m == v * p,
        ;
        assert(units(b) == v * one);
        assert(b <= INFINITY) by (nonlinear_arith)
            requires
                b == x * 0x10_0000_0000_0000 + m,
                x <= 1074,
                m < 0x20_0000_0000_0000,
                INFINITY == 0x7FF0_0000_0000_0000,
        ;
        lemma_nearest_exact(v * one, 1, b);
    }
}

/// Counting up by one is exact up to 2 to the power of 53.
pub proof fn law_counting_is_exact(v: nat)
    requires
        v < pow2(53),
    ensures
        Quantity::of(v).sum(Quantity::of(1)) == Quantity::of(v + 1),
{
    let one = one_units();
    lemma2_to64();
    lemma2_to64_rest();
    lemma_of_exact(v);
    lemma_of_exact(1);
    assert(v * one + 1 * one == (v + 1) * one) by (nonlinear_arith);
}

/// Of two integers the greater one is no smaller when rounded.
pub proof fn lemma_of_monotone(a: nat, b: nat)
    requires
        a <= b <= u64::MAX,
    ensures
        Quantity::of(a).bits <= Quantity::of(b).bits,
{
    let one = one_units();
    assert(a * one <= b * one) by (nonlinear_arith)
        requires
            a <= b,
    ;
    lemma_nearest_exists(a * one, 1);
    lemma_nearest_exists(b * one, 1);
    lemma_nearest_monotone(a * one, 1, b * one, 1);
}

/// A greater amount gives no smaller quotient, and a greater divisor no greater one.
pub proof fn lemma_quotient_monotone(a: Quantity, b: Quantity, d: Quantity, e: Quantity)
    requires
        a.wf(),
        b.wf(),
        a.bits <= b.bits,
        d.is_finite(),
        e.is_finite(),
        0 < e.bits <= d.bits,
    ensures
        a.quotient(d).bits <= b.quotient(e).bits,
        a.quotient(d).wf(),
{
    let one = one_units();
    lemma_units_ordered(0, e.bits as nat);
    lemma_units_ordered(e.bits as nat, d.bits as nat);
    lemma_units_ordered(a.bits as nat, b.bits as nat);
    let n = a.amount() * one;
    let m = b.amount() * one;
    lemma_nearest_exists(n, d.amount());
    lemma_nearest_exists(m, e.amount());
    assert(n * e.amount() <= m * d.amount()) by (nonlinear_arith)
        requires
            n == a.amount() * one,
            m == b.amount() * one,
            a.amount() <= b.amount(),
            e.amount() <= d.amount(),
    ;
    lemma_nearest_monotone(n, d.amount(), m, e.amount());
}

/// Greater amounts give no smaller product.
pub proof fn lemma_product_monotone(a: Quantity, b: Quantity, c: Quantity)
    requires
        a.wf(),
        b.wf(),
        c.wf(),
        a.bits <= b.bits,
    ensures
        a.product(c).bits <= b.product(c).bits,
        a.product(c).wf(),
{
    let one = one_units();
    lemma_pow2_pos(1074);
    lemma_units_ordered(a.bits as nat, b.bits as nat);
    let n = a.amount() * c.amount();
    let m = b.amount() * c.amount();
    lemma_nearest_exists(n, one);
    lemma_nearest_exists(m, one);
    assert(n * one <= m * one) by (nonlinear_arith)
        requires
            n == a.amount() * c.amount(),
            m == b.amount() * c.amount(),
            a.amount() <= b.amount(),
    ;
    lemma_nearest_monotone(n, one, m, one);
}

/// An amount over itself is one, and one times an amount is the amount.
pub proof fn lemma_one_is_neutral(a: Quantity)
    requires
        a.is_finite(),
    ensures
        a.bits > 0 ==> a.quotient(a) == Quantity::of(1),
        Quantity::of(1).product(a) == a,
{
    let one = one_units();
    lemma2_to64();
    lemma_pow2_pos(1074);
    lemma_of_power(0);
    lemma_power_bits(0);
    lemma_units_ordered(0, a.bits as nat);
    let n = a.amount() * one;
    if a.bits > 0 {
        lemma_nearest_exact(n, a.amount(), power_bits(0));
    }
    assert(one * a.amount() == n) by (nonlinear_arith)
        requires
            n == a.amount() * one,
    ;
    lemma_nearest_exact(one * a.amount(), one, a.bits as nat);
}

/// Of two amounts the greater one has no smaller whole part.
pub proof fn lemma_whole_part_monotone(a: Quantity, b: Quantity)
    requires
        a.bits <= b.bits,
    ensures
        a.whole_part() <= b.whole_part(),
{
    lemma_pow2_pos(1074);
    lemma_units_ordered(a.bits as nat, b.bits as nat);
    vstd::arithmetic::div_mod::lemma_div_is_ordered(
        a.amount() as int,
        b.amount() as int,
        one_units() as int,
    );
}

/// From 2 to the power of 53 on, adding an amount of at most one changes nothing; below
/// it, the sum does not pass it.
pub proof fn lemma_sum_with_weight(a: Quantity, w: Quantity)
    requires
        a.bits <= power_bits(53),
        w.bits <= power_bits(0),
    ensures
        a.sum(w).bits <= power_bits(53),
        a.sum(w).is_finite(),
{
    let top = power_bits(53);
    let one = one_units();
    lemma_power_bits(53);
    lemma_power_bits(0);
    lemma_pow2_adds(53, 1074);
    lemma2_to64_rest();
    lemma_units_ordered(a.bits as nat, top);
    lemma_units_ordered(w.bits as nat, power_bits(0));
    // The next grid point is two further on.
    let f = FRACTION as nat;
    lemma_units_of_parts(f + 1, 1022 + 53);
    assert((1022 + 53) * f + (f + 1) == top + 1);
    lemma_units_of_parts(f, 1022 + 53);
    lemma_pow2_adds(1, 1074);
    lemma2_to64();
    assert(pow2(1075) == 2 * one);
    assert(units(top + 1) == (f + 1) * (2 * one));
    assert(units(top) == f * (2 * one));
    assert((f + 1) * (2 * one) == f * (2 * one) + 2 * one) by (nonlinear_arith);
    let n = units(top) + one;
    lemma_units_ordered((top - 1) as nat, top);
    assert(top % 2 == 0);
    assert(is_nearest(n, 1, top));
    lemma_nearest_is(n, 1, top);
    lemma_nearest_monotone(a.amount() + w.amount(), 1, n, 1);
}

/// An amount that is an integer is neither cut nor rounded.
proof fn lemma_whole(w: nat, one: nat)
    requires
        one > 0,
    ensures
        (w * one) / one == w,
        (2 * (w * one) + one) / (2 * one) == w,
{
    lemma_fundamental_div_mod_converse((w * one) as int, one as int, w as int, 0);
    assert(2 * (w * one) + one == w * (2 * one) + one) by (nonlinear_arith);
    lemma_fundamental_div_mod_converse(
        (2 * (w * one) + one) as int,
        (2 * one) as int,
        w as int,
        one as int,
    );
}

/// A common factor of amount and unit cancels.
proof fn lemma_whole_scaled(m: nat, p: nat, q: nat)
    requires
        p > 0,
        q > 0,
    ensures
        (m * q) / (p * q) == m / p,
        (2 * (m * q) + p * q) / (2 * (p * q)) == (2 * m + p) / (2 * p),
{
    assert(m * q == q * m && p * q == q * p) by (nonlinear_arith);
    lemma_cancel(m, p, q);
    lemma_cancel(2 * m + p, 2 * p, q);
    assert(q * (2 * m + p) == 2 * (m * q) + p * q) by (nonlinear_arith);
    assert(q * (2 * p) == 2 * (p * q)) by (nonlinear_arith);
}

proof fn lemma_cancel(m: nat, p: nat, q: nat)
    requires
        p > 0,
        q > 0,
    ensures
        (q * m) / (q * p) == m / p,
{
    let w = m / p;
    let r = m % p;
    lemma_fundamental_div_mod(m as int, p as int);
    assert(q * m == w * (q * p) + q * r) by (nonlinear_arith)
        requires
            m == p * w + r,
    ;
    assert(0 <= q * r < q * p) by (nonlinear_arith)
        requires
            0 <= r < p,
            q > 0,
    ;
    lemma_fundamental_div_mod_converse((q * m) as int, (q * p) as int, w as int, (q * r) as int);
}

/// The quotient of the mantissas, taken to 64 bits more, brackets the quotient.
proof fn lemma_division(n: nat, d: nat, top: nat, e: nat, k: nat, y: nat, q: nat, rem: nat)
    requires
        n == top * pow2(e),
        d == k * pow2(y),
        k > 0,
        top * 0x1_0000_0000_0000_0000 == q * k + rem,
        rem < k,
    ensures
        brackets(n, d, q, e - y - 64, rem != 0),
{
    let x = e - y - 64;
    lemma2_to64();
    let c = 0x1_0000_0000_0000_0000nat;
    assert(pow2(64) == c);
    let a = d * scale_up(x);
    let v = n * scale_down(x);
    let p = if x >= 0 {
        pow2((y + x) as nat)
    } else {
        pow2(y)
    };
    lemma_pow2_pos(
        if x >= 0 {
            (y + x) as nat
        } else {
            y
        },
    );
    if x >= 0 {
        lemma_pow2_adds(y, x as nat);
        lemma_pow2_adds((y + x) as nat, 64);
        assert((k * pow2(y)) * scale_up(x) == k * (pow2(y) * scale_up(x))) by (nonlinear_arith);
        assert(a == k * p);
        assert(v == top * (p * c)) by (nonlinear_arith)
            requires
                v == n * scale_down(x),
                scale_down(x) == 1,
                n == top * (p * c),
        ;
    } else {
        let z = (-x) as nat;
        lemma_pow2_adds(e, z);
        lemma_pow2_adds(y, 64);
        assert(a == k * p) by (nonlinear_arith)
            requires
                a == d * scale_up(x),
                scale_up(x) == 1,
                d == k * p,
        ;
        assert((top * pow2(e)) * pow2(z) == top * (pow2(e) * pow2(z))) by (nonlinear_arith);
        assert(v == top * (p * c));
    }
    assert(v == (top * c) * p) by (nonlinear_arith)
        requires
            v == top * (p * c),
    ;
    assert((q * k + rem) * p == q * (k * p) + rem * p) by (nonlinear_arith);
    assert((q + 1) * (k * p) == q * (k * p) + k * p) by (nonlinear_arith);
    assert(rem * p < k * p) by (nonlinear_arith)
        requires
            rem < k,
            p > 0,
    ;
    assert(rem > 0 ==> rem * p > 0) by (nonlinear_arith)
        requires
            p > 0,
    ;
    assert(rem == 0 ==> rem * p == 0) by (nonlinear_arith);
}

/// `m` at exponent `x` is the mantissa `m * 2^(x - y)` at the smaller exponent `y`.
proof fn lemma_aligned(m: nat, x: nat, y: nat)
    requires
        y <= x,
    ensures
        m * pow2(x) == (m * pow2((x - y) as nat)) * pow2(y),
{
    let g = pow2((x - y) as nat);
    let p = pow2(y);
    lemma_pow2_adds((x - y) as nat, y);
    assert(m * (g * p) == (m * g) * p) by (nonlinear_arith);
}

proof fn lemma_shift_fits(m: nat, gap: nat)
    requires
        m < 2 * FRACTION,
        gap <= 64,
    ensures
        m * pow2(gap) <= 0x20_0000_0000_0000_0000_0000_0000_0000,
{
    lemma2_to64();
    if gap < 64 {
        lemma_pow2_strictly_increases(gap, 64);
    }
    assert(pow2(64) == 0x1_0000_0000_0000_0000);
    let p = pow2(gap);
    assert(m * p <= 0x20_0000_0000_0000 * 0x1_0000_0000_0000_0000) by (nonlinear_arith)
        requires
            m <= 0x20_0000_0000_0000,
            p <= 0x1_0000_0000_0000_0000,
    ;
}

/// The greater of two numbers does not have the smaller exponent.
proof fn lemma_exponents_ordered(a: nat, b: nat, m: nat, x: nat, k: nat, y: nat)
    requires
        b <= a,
        units(a) == m * pow2(x),
        units(b) == k * pow2(y),
        m < 2 * FRACTION,
        k >= FRACTION || y == 0,
    ensures
        y <= x,
{
    lemma_units_ordered(a, b);
    if x < y {
        let p = pow2(x);
        let q = pow2((y - x) as nat);
        lemma_pow2_adds(x, (y - x) as nat);
        lemma_pow2_pos(x);
        lemma2_to64();
        if y - x > 1 {
            lemma_pow2_strictly_increases(1, (y - x) as nat);
        }
        assert(m * p < k * (p * q)) by (nonlinear_arith)
            requires
                m < 2 * k,
                q >= 2,
                p > 0,
        ;
    }
}

/// A number far below another one only makes the sum, or the difference, inexact.
proof fn lemma_far_apart(n: nat, m: nat, x: nat, k: nat, y: nat, added: bool)
    requires
        y + 64 < x,
        m >= FRACTION,
        k < 2 * FRACTION,
        added ==> n == m * pow2(x) + k * pow2(y),
        !added ==> k > 0 && n == m * pow2(x) - k * pow2(y),
    ensures
        added ==> brackets(n, 1, m * 1024, x - 10, k > 0),
        !added ==> brackets(n, 1, (m * 1024 - 1) as nat, x - 10, true),
{
    let e = (x - 10) as nat;
    let p = pow2(e);
    let s = pow2(y);
    lemma2_to64();
    lemma_pow2_adds(10, e);
    assert(pow2(x) == 1024 * p);
    lemma_pow2_adds(y, (e - y) as nat);
    lemma_pow2_pos(y);
    let g = pow2((e - y) as nat);
    lemma2_to64_rest();
    assert(g >= pow2(53)) by {
        if e - y > 53 {
            lemma_pow2_strictly_increases(53, (e - y) as nat);
        }
    }
    assert(k * s < p) by (nonlinear_arith)
        requires
            p == s * g,
            g >= 0x20_0000_0000_0000,
            k < 0x20_0000_0000_0000,
            s > 0,
    ;
    assert(m * (1024 * p) == (m * 1024) * p) by (nonlinear_arith);
    assert(k > 0 ==> k * s > 0) by (nonlinear_arith)
        requires
            s > 0,
    ;
    assert(k == 0 ==> k * s == 0) by (nonlinear_arith);
    assert((m * 1024 + 1) * p == (m * 1024) * p + p) by (nonlinear_arith);
    assert((m * 1024 - 1) * p == (m * 1024) * p - p) by (nonlinear_arith);
    assert(1 * scale_up(x - 10) == p);
    assert(n * scale_down(x - 10) == n) by (nonlinear_arith)
        requires
            scale_down(x - 10) == 1,
    ;
}

} // verus!
