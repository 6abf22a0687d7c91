//! Exact values as mantissa and exponent, on their way to the binary64 grid.
use crate::rounding::{
    is_nearest, lemma_nearest_between, lemma_nearest_is, lemma_nearest_overflow,
    lemma_units_of_parts, lemma_units_ordered, nearest, units, FRACTION, INFINITY,
};
use vstd::arithmetic::power2::{
    lemma2_to64, lemma_pow2_adds, lemma_pow2_pos, lemma_pow2_unfold, pow2,
};
use vstd::prelude::*;

verus! {

/// 2 to the power of `x`, or one where `x` is negative.
pub open spec fn scale_up(x: int) -> nat {
    pow2(
        if x > 0 {
            x as nat
        } else {
            0
        },
    )
}

/// 2 to the power of `-x`, or one where `x` is positive.
pub open spec fn scale_down(x: int) -> nat {
    pow2(
        if x < 0 {
            (-x) as nat
        } else {
            0
        },
    )
}

/// `n / d` is `m` times 2 to the power of `x`, plus a part of one such step that is
/// there exactly if `inexact`.
pub open spec fn brackets(n: nat, d: nat, m: nat, x: int, inexact: bool) -> bool {
    let a = d * scale_up(x);
    let v = n * scale_down(x);
    &&& m * a <= v < (m + 1) * a
    &&& inexact == (v != m * a)
}

proof fn lemma_scale_positive(x: int)
    ensures
        scale_up(x) > 0,
        scale_down(x) > 0,
{
    lemma_pow2_pos(
        if x > 0 {
            x as nat
        } else {
            0
        },
    );
    lemma_pow2_pos(
        if x < 0 {
            (-x) as nat
        } else {
            0
        },
    );
}

/// The factor between two neighbouring exponents is two.
proof fn lemma_scale_step(d: nat, n: nat, x: int)
    ensures
        x >= 0 ==> d * scale_up(x + 1) == 2 * (d * scale_up(x)) && n * scale_down(x + 1) == n
            && n * scale_down(x) == n,
        x < 0 ==> d * scale_up(x + 1) == d && d * scale_up(x) == d && n * scale_down(x) == 2 * (n
            * scale_down(x + 1)),
{
    lemma2_to64();
    if x >= 0 {
        lemma_pow2_unfold((x + 1) as nat);
        let p = scale_up(x);
        assert(d * (2 * p) == 2 * (d * p)) by (nonlinear_arith);
        assert(n * 1 == n);
    } else {
        lemma_pow2_unfold((-x) as nat);
        let p = scale_down(x + 1);
        assert(n * (2 * p) == 2 * (n * p)) by (nonlinear_arith);
        assert(d * 1 == d);
    }
}

/// Drops the last bit of the mantissa.
proof fn lemma_brackets_halve(n: nat, d: nat, m: nat, x: int, inexact: bool)
    requires
        d > 0,
        brackets(n, d, m, x, inexact),
    ensures
        brackets(n, d, m / 2, x + 1, inexact || m % 2 == 1),
{
    lemma_scale_step(d, n, x);
    let h = m / 2;
    let b = m % 2;
    assert(m == 2 * h + b);
    let a = d * scale_up(x);
    let v = n * scale_down(x);
    lemma_scale_positive(x);
    assert(a > 0) by (nonlinear_arith)
        requires
            a == d * scale_up(x),
            d > 0,
            scale_up(x) > 0,
    ;
    assert(m * a == 2 * (h * a) + b * a) by (nonlinear_arith)
        requires
            m == 2 * h + b,
    ;
    assert((m + 1) * a == 2 * (h * a) + b * a + a) by (nonlinear_arith)
        requires
            m == 2 * h + b,
    ;
    assert((h + 1) * a == h * a + a) by (nonlinear_arith);
    assert(b == 0 ==> b * a == 0) by (nonlinear_arith);
    assert(b == 1 ==> b * a == a) by (nonlinear_arith);
    if x >= 0 {
        assert(h * (2 * a) == 2 * (h * a)) by (nonlinear_arith);
        assert((h + 1) * (2 * a) == 2 * (h * a) + 2 * a) by (nonlinear_arith);
    }
}

/// Adds a zero bit to the mantissa of an exact value.
proof fn lemma_brackets_double(n: nat, d: nat, m: nat, x: int)
    requires
        d > 0,
        brackets(n, d, m, x, false),
    ensures
        brackets(n, d, 2 * m, x - 1, false),
{
    lemma_scale_step(d, n, x - 1);
    let a = d * scale_up(x - 1);
    let c = d * scale_up(x);
    lemma_scale_positive(x - 1);
    assert(a > 0) by (nonlinear_arith)
        requires
            a == d * scale_up(x - 1),
            d > 0,
            scale_up(x - 1) > 0,
    ;
    assert((2 * m + 1) * a == 2 * (m * a) + a) by (nonlinear_arith);
    assert((2 * m) * a == 2 * (m * a)) by (nonlinear_arith);
    if x - 1 >= 0 {
        assert(m * (2 * a) == 2 * (m * a)) by (nonlinear_arith);
    }
}

/// A mantissa of 53 bits and one more tells where the value lies on the grid.
proof fn lemma_brackets_settle(n: nat, d: nat, m: nat, x: int, inexact: bool)
    requires
        d > 0,
        brackets(n, d, m, x, inexact),
        x >= -1,
        m < 4 * FRACTION,
        m >= 2 * FRACTION || x == -1,
    ensures
        ({
            let lo = ((x + 1) * FRACTION + m / 2) as nat;
            let mid = d * (units(lo) + units(lo + 1));
            &&& d * units(lo) <= n < d * units(lo + 1)
            &&& 2 * n > mid <==> m % 2 == 1 && inexact
            &&& 2 * n == mid <==> m % 2 == 1 && !inexact
        }),
{
    let f = FRACTION as nat;
    let h = m / 2;
    let b = m % 2;
    let y = (x + 1) as nat;
    let lo = y * f + h;
    assert(lo == ((x + 1) * FRACTION + m / 2) as nat);
    lemma_units_of_parts(h, y);
    let p = pow2(y);
    assert(units(lo + 1) == (h + 1) * p) by {
        if h + 1 < 2 * f {
            lemma_units_of_parts(h + 1, y);
            assert(lo + 1 == y * f + (h + 1));
        } else {
            lemma_units_of_parts(f, y + 1);
            assert((y + 1) * f + f == y * f + 2 * f) by (nonlinear_arith);
            lemma_pow2_unfold(y + 1);
            assert(f * (2 * p) == (2 * f) * p) by (nonlinear_arith);
        }
    }
    lemma_scale_step(d, n, x);
    let a = d * scale_up(x);
    // Half a step of the grid, times d.
    let q = d * p;
    assert(d * (h * p) == h * q) by (nonlinear_arith)
        requires
            q == d * p,
    ;
    assert(d * ((h + 1) * p) == h * q + q) by (nonlinear_arith)
        requires
            q == d * p,
    ;
    assert(d * (h * p + (h + 1) * p) == 2 * (h * q) + q) by (nonlinear_arith)
        requires
            q == d * p,
    ;
    assert(m * a == 2 * (h * a) + b * a) by (nonlinear_arith)
        requires
            m == 2 * h + b,
    ;
    assert((m + 1) * a == 2 * (h * a) + b * a + a) by (nonlinear_arith)
        requires
            m == 2 * h + b,
    ;
    assert(b == 0 ==> b * a == 0) by (nonlinear_arith);
    assert(b == 1 ==> b * a == a) by (nonlinear_arith);
    if x >= 0 {
        assert(q == 2 * a);
        assert(h * (2 * a) == 2 * (h * a)) by (nonlinear_arith);
    } else {
        lemma2_to64();
        assert(q == a);
        assert(n * scale_down(x) == 2 * n) by (nonlinear_arith)
            requires
                scale_down(x) == 2,
        ;
    }
}

/// A mantissa that is not below 53 bits, at the greatest exponent or beyond, is past
/// the end of the grid.
proof fn lemma_brackets_overflow(n: nat, d: nat, m: nat, x: int, inexact: bool)
    requires
        d > 0,
        brackets(n, d, m, x, inexact),
        x >= 2046,
        m >= 2 * FRACTION,
    ensures
        is_nearest(n, d, INFINITY as nat),
{
    let f = FRACTION as nat;
    lemma_units_of_parts(f, 2046);
    assert(2046 * f + f == INFINITY as nat);
    let p = pow2(2046);
    let s = scale_up(x);
    let rest = pow2((x - 2046) as nat);
    lemma_pow2_adds(2046, (x - 2046) as nat);
    lemma_pow2_pos((x - 2046) as nat);
    assert(p <= s) by (nonlinear_arith)
        requires
            s == p * rest,
            rest >= 1,
    ;
    assert(d * (f * p) <= m * (d * s)) by (nonlinear_arith)
        requires
            p <= s,
            f <= m,
            d > 0,
    ;
    lemma2_to64();
    assert(n * scale_down(x) == n) by (nonlinear_arith)
        requires
            scale_down(x) == 1,
    ;
    lemma_nearest_overflow(n, d);
}

/// Rounds `n / d`, given as a mantissa and an exponent, to the grid.
pub(crate) fn round(
    Ghost(n): Ghost<nat>,
    Ghost(d): Ghost<nat>,
    mantissa: u128,
    exponent: i64,
    inexact: bool,
) -> (r: u64)
    requires
        d > 0,
        brackets(n, d, mantissa as nat, exponent as int, inexact),
        -10_000 <= exponent <= 10_000,
        inexact ==> mantissa >= 2 * FRACTION || exponent <= -1,
    ensures
        r == nearest(n, d),
        r <= INFINITY,
{
    let mut m: u128 = mantissa;
    let mut x: i64 = exponent;
    let mut sticky: bool = inexact;
    while m < 0x20_0000_0000_0000 && x > -1
        invariant
            d > 0,
            brackets(n, d, m as nat, x as int, sticky),
            -10_000 <= x <= 10_000,
            sticky ==> m >= 2 * FRACTION || x <= -1,
            sticky == inexact,
        decreases x + 1,
    {
        proof {
            lemma_brackets_double(n, d, m as nat, x as int);
        }
        m = m * 2;
        x = x - 1;
    }
    while (m >= 0x40_0000_0000_0000 && x < 2046) || x < -1
        invariant
            d > 0,
            brackets(n, d, m as nat, x as int, sticky),
            -10_000 <= x <= 10_000,
            m >= 2 * FRACTION || x <= -1,
        decreases m, 10_000 - x,
    {
        proof {
            lemma_brackets_halve(n, d, m as nat, x as int, sticky);
        }
        sticky = sticky || m % 2 == 1;
        m = m / 2;
        x = x + 1;
    }
    if x >= 2046 {
        proof {
            lemma_brackets_overflow(n, d, m as nat, x as int, sticky);
            lemma_nearest_is(n, d, INFINITY as nat);
        }
        return INFINITY;
    }
    let half: u64 = (m / 2) as u64;
    let odd: bool = m % 2 == 1;
    let low: u64 = (x + 1) as u64 * FRACTION + half;
    proof {
        lemma_brackets_settle(n, d, m as nat, x as int, sticky);
        assert(low == ((x + 1) * FRACTION + m as nat / 2) as nat);
    }
    if low >= INFINITY {
        proof {
            lemma_units_ordered(INFINITY as nat, low as nat);
            assert(d * units(INFINITY as nat) <= d * units(low as nat)) by (nonlinear_arith)
                requires
                    units(INFINITY as nat) <= units(low as nat),
            ;
            lemma_nearest_overflow(n, d);
            lemma_nearest_is(n, d, INFINITY as nat);
        }
        return INFINITY;
    }
    proof {
        lemma_nearest_between(n, d, low as nat);
    }
    if odd && (sticky || low % 2 == 1) {
        proof {
            lemma_nearest_is(n, d, (low + 1) as nat);
        }
        low + 1
    } else {
        proof {
            lemma_nearest_is(n, d, low as nat);
        }
        low
    }
}

/// An exact value that is `m` times 2 to the power of `e`, over 2 to the power of `k`,
/// is a mantissa with exponent `e - k`.
pub proof fn lemma_brackets_exact(n: nat, m: nat, e: nat, k: nat)
    requires
        n == m * pow2(e),
    ensures
        brackets(n, pow2(k), m, e - k, false),
{
    let x = e - k;
    lemma_pow2_pos(k);
    lemma_scale_positive(x);
    lemma2_to64();
    let a = pow2(k) * scale_up(x);
    let v = n * scale_down(x);
    if x >= 0 {
        lemma_pow2_adds(k, x as nat);
        assert(a == pow2(e));
        assert(scale_down(x) == 1);
        assert(v == n) by (nonlinear_arith)
            requires
                v == n * scale_down(x),
                scale_down(x) == 1,
        ;
    } else {
        let y = (-x) as nat;
        lemma_pow2_adds(e, y);
        assert(scale_up(x) == 1);
        assert(a == pow2(k)) by (nonlinear_arith)
            requires
                a == pow2(k) * scale_up(x),
                scale_up(x) == 1,
        ;
        assert(v == m * a) by (nonlinear_arith)
            requires
                v == n * pow2(y),
                n == m * pow2(e),
                a == pow2(e) * pow2(y),
        ;
    }
    assert(a > 0) by (nonlinear_arith)
        requires
            a == pow2(k) * scale_up(x),
            pow2(k) > 0,
            scale_up(x) > 0,
    ;
    assert((m + 1) * a == m * a + a) by (nonlinear_arith);
}

/// `m` times 2 to the power of `k`.
pub(crate) fn shifted(m: u128, k: u64) -> (r: u128)
    requires
        m * pow2(k as nat) <= u128::MAX,
    ensures
        r == m * pow2(k as nat),
{
    let mut r: u128 = m;
    let mut i: u64 = 0;
    proof {
        lemma2_to64();
        assert(m * pow2(0) == m);
    }
    while i < k
        invariant
            i <= k,
            r == m * pow2(i as nat),
            m * pow2(k as nat) <= u128::MAX,
        decreases k - i,
    {
        proof {
            let p = pow2(i as nat);
            lemma_pow2_unfold((i + 1) as nat);
            assert(m * (2 * p) == 2 * (m * p)) by (nonlinear_arith);
            lemma_pow2_adds((i + 1) as nat, (k - i - 1) as nat);
            let q = pow2((i + 1) as nat);
            let t = pow2((k - i - 1) as nat);
            lemma_pow2_pos((k - i - 1) as nat);
            assert(m * q <= m * (q * t)) by (nonlinear_arith)
                requires
                    t >= 1,
            ;
        }
        r = r * 2;
        i = i + 1;
    }
    r
}

} // verus!
