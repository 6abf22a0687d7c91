//! Rounding to the binary64 grid.
//!
//! The non-negative binary64 numbers, read in ascending order, are numbered by
//! their own bit patterns: `0` is zero, `1` the least positive number, and
//! [`INFINITY`] closes the list. Counted in steps of the least positive number
//! (2 to the power of -1074) each of them is a natural number, [`units`]. An exact
//! result is a fraction `n / d` of such steps, and rounding picks the nearest grid
//! point, the one with an even bit pattern where two are equally near.
use vstd::arithmetic::power2::{lemma_pow2_pos, lemma_pow2_unfold, pow2};
use vstd::prelude::*;

verus! {

/// The number of grid points that share one exponent: 2 to the power of 52.
pub const FRACTION: u64 = 0x10_0000_0000_0000;

/// The bit pattern of positive infinity, the end of the grid.
pub const INFINITY: u64 = 0x7FF0_0000_0000_0000;

/// The exponent of the number one: it is 2 to the power of 1074 units.
pub const ONE_EXPONENT: u64 = 1074;

/// The grid point with bit pattern `bits`, in units of the least positive one.
pub open spec fn units(bits: nat) -> nat {
    if bits / (FRACTION as nat) == 0 {
        bits
    } else {
        (FRACTION as nat + bits % (FRACTION as nat)) * pow2(
            (bits / (FRACTION as nat) - 1) as nat,
        )
    }
}

/// The number one, in units.
pub open spec fn one_units() -> nat {
    pow2(ONE_EXPONENT as nat)
}

/// Grid point `r` is where `n / d` units round to: `n / d` lies between the
/// midpoints to the two neighbours of `r`, on a midpoint only if `r` is even.
pub open spec fn is_nearest(n: nat, d: nat, r: nat) -> bool {
    &&& r <= INFINITY
    &&& r < INFINITY ==> {
        ||| 2 * n < d * (units(r) + units(r + 1))
        ||| 2 * n == d * (units(r) + units(r + 1)) && r % 2 == 0
    }
    &&& r > 0 ==> {
        ||| d * (units((r - 1) as nat) + units(r)) < 2 * n
        ||| d * (units((r - 1) as nat) + units(r)) == 2 * n && r % 2 == 0
    }
}

/// The bit pattern that `n / d` units round to.
pub open spec fn nearest(n: nat, d: nat) -> nat {
    choose|r: nat| is_nearest(n, d, r)
}

/// Each grid point lies strictly above the one before it.
pub proof fn lemma_units_step(b: nat)
    ensures
        units(b) < units(b + 1),
{
    let f = FRACTION as nat;
    let e = b / f;
    let m = b % f;
    assert(b == e * f + m) by {
        vstd::arithmetic::div_mod::lemma_fundamental_div_mod(b as int, f as int);
        assert(f * e == e * f) by (nonlinear_arith);
    }
    if e >= 1 {
        lemma_pow2_pos((e - 1) as nat);
    }
    if m + 1 < f {
        assert((b + 1) / f == e && (b + 1) % f == m + 1) by {
            vstd::arithmetic::div_mod::lemma_fundamental_div_mod_converse(
                (b + 1) as int,
                f as int,
                e as int,
                (m + 1) as int,
            );
        }
        if e >= 1 {
            let p = pow2((e - 1) as nat);
            assert((f + m) * p < (f + m + 1) * p) by (nonlinear_arith)
                requires
                    p > 0,
            ;
            assert(units(b + 1) == (f + m + 1) * p);
        }
    } else {
        assert((b + 1) / f == e + 1 && (b + 1) % f == 0) by {
            assert((e + 1) * f == e * f + f) by (nonlinear_arith);
            vstd::arithmetic::div_mod::lemma_fundamental_div_mod_converse(
                (b + 1) as int,
                f as int,
                (e + 1) as int,
                0,
            );
        }
        if e == 0 {
            vstd::arithmetic::power2::lemma2_to64();
            assert(units(b + 1) == f * 1);
        } else {
            lemma_pow2_unfold(e);
            let p = pow2((e - 1) as nat);
            assert((f + m) * p < f * (2 * p)) by (nonlinear_arith)
                requires
                    p > 0,
                    m < f,
            ;
            assert(units(b + 1) == f * pow2(e));
        }
    }
}

/// The grid is listed in ascending order.
pub proof fn lemma_units_ordered(a: nat, b: nat)
    ensures
        a < b ==> units(a) < units(b),
        a == b ==> units(a) == units(b),
        a > b ==> units(a) > units(b),
    decreases a + b,
{
    if a < b {
        lemma_units_step((b - 1) as nat);
        lemma_units_ordered(a, (b - 1) as nat);
    } else if a > b {
        lemma_units_step((a - 1) as nat);
        lemma_units_ordered((a - 1) as nat, b);
    }
}

/// The grid point with mantissa `m` and exponent `x` has the bit pattern
/// `x * FRACTION + m`.
pub proof fn lemma_units_of_parts(m: nat, x: nat)
    requires
        m < 2 * FRACTION,
        m >= FRACTION || x == 0,
    ensures
        units(x * FRACTION as nat + m) == m * pow2(x),
{
    let f = FRACTION as nat;
    let b = x * f + m;
    vstd::arithmetic::power2::lemma2_to64();
    if m < f {
        assert(x * f == 0) by (nonlinear_arith)
            requires
                x == 0,
        ;
        assert(b / f == 0) by {
            vstd::arithmetic::div_mod::lemma_basic_div(b as int, f as int);
        }
        assert(m * pow2(0) == m);
    } else {
        assert((x + 1) * f == x * f + f) by (nonlinear_arith);
        vstd::arithmetic::div_mod::lemma_fundamental_div_mod_converse(
            b as int,
            f as int,
            (x + 1) as int,
            (m - f) as int,
        );
        assert(f + (m - f) as nat == m);
    }
}

/// At most one grid point is nearest.
pub proof fn lemma_nearest_unique(n: nat, d: nat, r: nat, s: nat)
    requires
        d > 0,
        is_nearest(n, d, r),
        is_nearest(n, d, s),
    ensures
        r == s,
{
    if r < s {
        lemma_nearest_no_gap(n, d, r, s);
    } else {
        lemma_nearest_no_gap(n, d, s, r);
    }
}

proof fn lemma_nearest_no_gap(n: nat, d: nat, r: nat, s: nat)
    requires
        d > 0,
        r <= s,
        is_nearest(n, d, r),
        is_nearest(n, d, s),
    ensures
        r == s,
{
    if r < s {
        let t = (s - 1) as nat;
        lemma_units_ordered(r, t);
        lemma_units_ordered(r + 1, s);
        let up = units(r) + units(r + 1);
        let dn = units(t) + units(s);
        assert(d * up <= d * dn) by (nonlinear_arith)
            requires
                up <= dn,
        ;
        // The two midpoints meet only between neighbours, one of which is odd.
        if r + 1 < s {
            assert(d * up < d * dn) by (nonlinear_arith)
                requires
                    up < dn,
                    d > 0,
            ;
        }
    }
}

/// Once some grid point is known to be nearest, it is the value of [`nearest`].
pub proof fn lemma_nearest_is(n: nat, d: nat, r: nat)
    requires
        d > 0,
        is_nearest(n, d, r),
    ensures
        nearest(n, d) == r,
{
    lemma_nearest_unique(n, d, r, nearest(n, d));
}

/// A value from a grid point up to, but not including, the next one rounds to one of
/// the two, and to which is told by the midpoint between them.
pub proof fn lemma_nearest_between(n: nat, d: nat, lo: nat)
    requires
        d > 0,
        lo < INFINITY,
        d * units(lo) <= n < d * units(lo + 1),
    ensures
        ({
            let mid = d * (units(lo) + units(lo + 1));
            let up = 2 * n > mid || (2 * n == mid && lo % 2 == 1);
            is_nearest(n, d, if up { lo + 1 } else { lo })
        }),
{
    let mid = d * (units(lo) + units(lo + 1));
    let up = 2 * n > mid || (2 * n == mid && lo % 2 == 1);
    assert(mid == d * units(lo) + d * units(lo + 1)) by (nonlinear_arith)
        requires
            mid == d * (units(lo) + units(lo + 1)),
    ;
    if up {
        if lo + 1 < INFINITY {
            lemma_units_step(lo + 1);
            let a = units(lo + 1);
            let b = units(lo + 2);
            assert(d * a + d * a < d * (a + b)) by (nonlinear_arith)
                requires
                    a < b,
                    d > 0,
            ;
        }
        assert((lo + 1 - 1) as nat == lo);
    } else {
        if lo > 0 {
            lemma_units_step((lo - 1) as nat);
            let a = units((lo - 1) as nat);
            let b = units(lo);
            assert(d * (a + b) < d * b + d * b) by (nonlinear_arith)
                requires
                    a < b,
                    d > 0,
            ;
        }
    }
}

/// A value at or above the end of the grid rounds to the end.
pub proof fn lemma_nearest_overflow(n: nat, d: nat)
    requires
        d > 0,
        d * units(INFINITY as nat) <= n,
    ensures
        is_nearest(n, d, INFINITY as nat),
{
    let a = units((INFINITY - 1) as nat);
    let b = units(INFINITY as nat);
    lemma_units_step((INFINITY - 1) as nat);
    assert(d * (a + b) < d * b + d * b) by (nonlinear_arith)
        requires
            a < b,
            d > 0,
    ;
}

proof fn lemma_floor_exists(n: nat, d: nat, b: nat) -> (lo: nat)
    requires
        d > 0,
        n < d * units(b),
    ensures
        lo < b,
        d * units(lo) <= n < d * units(lo + 1),
    decreases b,
{
    assert(units(0) == 0);
    if b == 0 {
        assert(d * units(b) == 0) by (nonlinear_arith)
            requires
                units(b) == 0,
        ;
        0
    } else if n < d * units((b - 1) as nat) {
        lemma_floor_exists(n, d, (b - 1) as nat)
    } else {
        (b - 1) as nat
    }
}

/// Every fraction rounds to exactly one grid point.
pub proof fn lemma_nearest_exists(n: nat, d: nat)
    requires
        d > 0,
    ensures
        is_nearest(n, d, nearest(n, d)),
        nearest(n, d) <= INFINITY,
{
    if d * units(INFINITY as nat) <= n {
        lemma_nearest_overflow(n, d);
    } else {
        let lo = lemma_floor_exists(n, d, INFINITY as nat);
        lemma_nearest_between(n, d, lo);
    }
}

/// A value on the grid is not changed by rounding.
pub proof fn lemma_nearest_exact(n: nat, d: nat, b: nat)
    requires
        d > 0,
        b <= INFINITY,
        n == d * units(b),
    ensures
        nearest(n, d) == b,
{
    if b < INFINITY {
        lemma_units_step(b);
        assert(n < d * units(b + 1)) by (nonlinear_arith)
            requires
                n == d * units(b),
                units(b) < units(b + 1),
                d > 0,
        ;
        lemma_nearest_between(n, d, b);
        let mid = d * (units(b) + units(b + 1));
        assert(2 * n < mid) by (nonlinear_arith)
            requires
                mid == d * (units(b) + units(b + 1)),
                n == d * units(b),
                units(b) < units(b + 1),
                d > 0,
        ;
    } else {
        lemma_nearest_overflow(n, d);
    }
    lemma_nearest_is(n, d, b);
}

/// Rounding keeps the order of the values.
pub proof fn lemma_nearest_monotone(n: nat, d: nat, m: nat, e: nat)
    requires
        d > 0,
        e > 0,
        n * e <= m * d,
    ensures
        nearest(n, d) <= nearest(m, e),
{
    lemma_nearest_exists(n, d);
    lemma_nearest_exists(m, e);
    let r = nearest(n, d);
    let s = nearest(m, e);
    if s < r {
        // d * (units(r - 1) + units(r)) <= 2 n and 2 m <= e * (units(s) + units(s + 1)).
        let t = (r - 1) as nat;
        lemma_units_ordered(s, t);
        lemma_units_ordered(s + 1, r);
        let up = units(s) + units(s + 1);
        let dn = units(t) + units(r);
        assert(d * dn <= 2 * n && 2 * m <= e * up);
        assert(dn <= up && (dn == up ==> d * dn == 2 * n && 2 * m == e * up)) by (nonlinear_arith)
            requires
                d * dn <= 2 * n,
                2 * m <= e * up,
                n * e <= m * d,
                d > 0,
                e > 0,
        ;
        if s < t {
            lemma_units_ordered(s, t);
            lemma_units_ordered(s + 1, r);
            assert(false);
        }
    }
}

} // verus!
