//! How far rounded results are from the exact ones.
use crate::quantity::Quantity;
use crate::root::{lemma_nearest_root_exists, nearest_root};
use crate::rounding::{
    lemma_nearest_exact, lemma_nearest_exists, lemma_nearest_monotone,
    lemma_units_of_parts, lemma_units_ordered, nearest, one_units, units, FRACTION, INFINITY,
};
use vstd::arithmetic::power2::{
    lemma2_to64, lemma2_to64_rest, lemma_pow2_adds, lemma_pow2_pos, pow2,
};
use vstd::prelude::*;

verus! {

/// The parts that a deviation is counted in: 2 to the power of 52.
pub const PARTS: u64 = 0x10_0000_0000_0000;

/// `a` is at most `b` and `m` parts of it.
pub open spec fn at_most(a: nat, b: nat, m: nat) -> bool {
    a * PARTS <= b * (PARTS + m)
}

/// `a` and `b` are the same but for `m` parts of either.
pub open spec fn close(a: nat, b: nat, m: nat) -> bool {
    at_most(a, b, m) && at_most(b, a, m)
}

/// Deviations add up.
pub proof fn lemma_close_chain(a: nat, b: nat, c: nat, m: nat, k: nat)
    requires
        close(a, b, m),
        close(b, c, k),
        m <= 1000,
        k <= 1000,
    ensures
        close(a, c, m + k + 1),
{
    lemma_at_most_chain(a, b, c, m, k);
    lemma_at_most_chain(c, b, a, k, m);
}

proof fn lemma_at_most_chain(a: nat, b: nat, c: nat, m: nat, k: nat)
    requires
        at_most(a, b, m),
        at_most(b, c, k),
        m <= 1000,
        k <= 1000,
    ensures
        at_most(a, c, m + k + 1),
{
    let p = PARTS as nat;
    // a p p <= b (p + m) p <= c (p + k) (p + m)
    assert((a * p) * p <= (b * (p + m)) * p) by (nonlinear_arith)
        requires
            a * p <= b * (p + m),
    ;
    assert((b * (p + m)) * p == (b * p) * (p + m)) by (nonlinear_arith);
    assert((b * p) * (p + m) <= (c * (p + k)) * (p + m)) by (nonlinear_arith)
        requires
            b * p <= c * (p + k),
    ;
    assert((p + k) * (p + m) <= (p + m + k + 1) * p) by (nonlinear_arith)
        requires
            p == 0x10_0000_0000_0000,
            m <= 1000,
            k <= 1000,
    ;
    assert((c * (p + k)) * (p + m) <= (c * (p + m + k + 1)) * p) by (nonlinear_arith)
        requires
            (p + k) * (p + m) <= (p + m + k + 1) * p,
    ;
    assert(a * p <= c * (p + m + k + 1)) by (nonlinear_arith)
        requires
            (a * p) * p <= (c * (p + m + k + 1)) * p,
            p > 0,
    ;
}

/// Less is at most what more is.
pub proof fn lemma_at_most_less(a: nat, b: nat, c: nat, d: nat, m: nat)
    requires
        a <= b,
        at_most(b, c, m),
        c <= d,
    ensures
        at_most(a, d, m),
{
    let p = PARTS as nat;
    assert(a * p <= b * p) by (nonlinear_arith)
        requires
            a <= b,
    ;
    assert(c * (p + m) <= d * (p + m)) by (nonlinear_arith)
        requires
            c <= d,
    ;
}

/// Multiples are as close.
pub proof fn lemma_close_scale(a: nat, b: nat, m: nat, k: nat)
    requires
        close(a, b, m),
    ensures
        close(a * k, b * k, m),
        close(k * a, k * b, m),
{
    let p = PARTS as nat;
    assert((a * k) * p <= (b * k) * (p + m)) by (nonlinear_arith)
        requires
            a * p <= b * (p + m),
    ;
    assert((b * k) * p <= (a * k) * (p + m)) by (nonlinear_arith)
        requires
            b * p <= a * (p + m),
    ;
    assert(a * k == k * a && b * k == k * b) by (nonlinear_arith);
}

/// What multiples are, the parts are too.
pub proof fn lemma_close_cancel(a: nat, b: nat, m: nat, k: nat)
    requires
        close(a * k, b * k, m),
        k > 0,
    ensures
        close(a, b, m),
{
    lemma_at_most_cancel(a, b, m, k);
    lemma_at_most_cancel(b, a, m, k);
}

pub proof fn lemma_at_most_cancel(a: nat, b: nat, m: nat, k: nat)
    requires
        at_most(a * k, b * k, m),
        k > 0,
    ensures
        at_most(a, b, m),
{
    let p = PARTS as nat;
    assert(a * p <= b * (p + m)) by (nonlinear_arith)
        requires
            (a * k) * p <= (b * k) * (p + m),
            k > 0,
    ;
}

/// Sums are as close as their terms.
pub proof fn lemma_close_sum(a: nat, b: nat, c: nat, d: nat, m: nat)
    requires
        close(a, b, m),
        close(c, d, m),
    ensures
        close(a + c, b + d, m),
{
    let p = PARTS as nat;
    assert((a + c) * p <= (b + d) * (p + m)) by (nonlinear_arith)
        requires
            a * p <= b * (p + m),
            c * p <= d * (p + m),
    ;
    assert((b + d) * p <= (a + c) * (p + m)) by (nonlinear_arith)
        requires
            b * p <= a * (p + m),
            d * p <= c * (p + m),
    ;
}

/// What is equal is close.
pub proof fn lemma_close_same(a: nat, m: nat)
    ensures
        close(a, a, m),
{
    let p = PARTS as nat;
    assert(a * p <= a * (p + m)) by (nonlinear_arith);
}

/// The bit pattern of 2 to the power of `k` units.
spec fn grid_power(k: nat) -> nat {
    ((k - 51) * FRACTION) as nat
}

proof fn lemma_grid_power(k: nat)
    requires
        52 <= k <= 2097,
    ensures
        units(grid_power(k)) == pow2(k),
        FRACTION <= grid_power(k) < INFINITY,
{
    let f = FRACTION as nat;
    let x = (k - 52) as nat;
    lemma_units_of_parts(f, x);
    lemma2_to64_rest();
    lemma_pow2_adds(52, x);
    assert(x * f + f == grid_power(k)) by (nonlinear_arith)
        requires
            grid_power(k) == (x + 1) * f,
    ;
    assert(f <= (x + 1) * f < 0x7FF0_0000_0000_0000) by (nonlinear_arith)
        requires
            f == 0x10_0000_0000_0000,
            0 <= x <= 2045,
    ;
}

/// From the first normal number on, the step to the next grid point is at most one part.
proof fn lemma_step(b: nat)
    requires
        b >= FRACTION,
    ensures
        (units(b + 1) - units(b)) * PARTS <= units(b),
        (units(b) - units((b - 1) as nat)) * PARTS <= units(b),
        units((b - 1) as nat) < units(b) < units(b + 1),
{
    lemma_step_up(b);
    lemma_units_ordered((b - 1) as nat, b);
    lemma_units_ordered(b, b + 1);
    if b > FRACTION {
        lemma_step_up((b - 1) as nat);
    } else {
        lemma2_to64();
        lemma_units_of_parts((b - 1) as nat, 0);
        lemma_units_of_parts(b, 0);
    }
}

proof fn lemma_step_up(b: nat)
    requires
        b >= FRACTION,
    ensures
        (units(b + 1) - units(b)) * PARTS <= units(b),
{
    let f = FRACTION as nat;
    let e = b / f;
    let m = b % f;
    let x = (e - 1) as nat;
    vstd::arithmetic::div_mod::lemma_fundamental_div_mod(b as int, f as int);
    assert(e >= 1);
    let p = pow2(x);
    lemma_pow2_pos(x);
    lemma_units_of_parts(f + m, x);
    assert(b == x * f + (f + m)) by (nonlinear_arith)
        requires
            b == f * e + m,
            x == e - 1,
    ;
    assert(units(b) == (f + m) * p);
    assert(units(b + 1) == (f + m + 1) * p) by {
        if m + 1 < f {
            lemma_units_of_parts(f + m + 1, x);
        } else {
            lemma_units_of_parts(f, x + 1);
            vstd::arithmetic::power2::lemma_pow2_unfold(x + 1);
            assert(b + 1 == (x + 1) * f + f) by (nonlinear_arith)
                requires
                    b == x * f + (f + m),
                    m + 1 == f,
            ;
            assert(f * (2 * p) == (2 * f) * p) by (nonlinear_arith);
        }
    }
    assert(((f + m + 1) * p - (f + m) * p) * f <= (f + m) * p) by (nonlinear_arith)
        requires
            f > 0,
            p > 0,
    ;
}

/// Rounding moves a value by two parts at most.
pub proof fn lemma_round_close(n: nat, d: nat, lo: nat, hi: nat)
    requires
        d > 0,
        52 <= lo <= hi <= 2097,
        d * pow2(lo) <= n <= d * pow2(hi),
    ensures
        nearest(n, d) < INFINITY,
        pow2(lo) <= units(nearest(n, d)) <= pow2(hi),
        close(units(nearest(n, d)) * d, n, 2),
{
    let r = nearest(n, d);
    lemma_nearest_exists(n, d);
    lemma_grid_power(lo);
    lemma_grid_power(hi);
    let a = grid_power(lo);
    let b = grid_power(hi);
    lemma_nearest_exact(d * pow2(lo), d, a);
    lemma_nearest_exact(d * pow2(hi), d, b);
    assert((d * pow2(lo)) * d <= n * d) by (nonlinear_arith)
        requires
            d * pow2(lo) <= n,
    ;
    assert(n * d <= (d * pow2(hi)) * d) by (nonlinear_arith)
        requires
            n <= d * pow2(hi),
    ;
    lemma_nearest_monotone(d * pow2(lo), d, n, d);
    lemma_nearest_monotone(n, d, d * pow2(hi), d);
    lemma_units_ordered(a, r);
    lemma_units_ordered(r, b);
    lemma_step(r);
    let u = units(r);
    let up = (units(r + 1) - u) as nat;
    let down = (u - units((r - 1) as nat)) as nat;
    let p = PARTS as nat;
    let x = u * d;
    let g = d * up;
    let h = d * down;
    assert(2 * n <= 2 * x + g) by (nonlinear_arith)
        requires
            2 * n <= d * (u + (u + up)),
            x == u * d,
            g == d * up,
    ;
    assert(2 * x <= 2 * n + h) by (nonlinear_arith)
        requires
            d * ((u - down) + u) <= 2 * n,
            x == u * d,
            h == d * down,
    ;
    assert(g * p <= x && h * p <= x) by (nonlinear_arith)
        requires
            up * p <= u,
            down * p <= u,
            x == u * d,
            g == d * up,
            h == d * down,
    ;
    assert(n * p <= x * (p + 2)) by (nonlinear_arith)
        requires
            2 * n <= 2 * x + g,
            g * p <= x,
    ;
    assert(x * p <= n * (p + 2)) by (nonlinear_arith)
        requires
            2 * x <= 2 * n + h,
            h * p <= x,
            p == 0x10_0000_0000_0000,
    ;
}

/// The amount lies between two powers of two, in units.
pub open spec fn lies_between(q: Quantity, lo: nat, hi: nat) -> bool {
    q.is_finite() && pow2(lo) <= q.amount() <= pow2(hi)
}

/// A quotient is exact but for two parts.
pub proof fn lemma_quotient_close(
    a: Quantity,
    b: Quantity,
    a_lo: nat,
    a_hi: nat,
    b_lo: nat,
    b_hi: nat,
)
    requires
        lies_between(a, a_lo, a_hi),
        lies_between(b, b_lo, b_hi),
        52 + b_hi <= a_lo + 1074,
        a_hi + 1074 <= 2097 + b_lo,
        a_lo <= a_hi,
        b_lo <= b_hi,
    ensures
        lies_between(
            a.quotient(b),
            (a_lo + 1074 - b_hi) as nat,
            (a_hi + 1074 - b_lo) as nat,
        ),
        close(a.quotient(b).amount() * b.amount(), a.amount() * one_units(), 2),
{
    let one = one_units();
    let x = a.amount();
    let y = b.amount();
    let n = x * one;
    let lo = (a_lo + 1074 - b_hi) as nat;
    let hi = (a_hi + 1074 - b_lo) as nat;
    lemma_pow2_pos(b_lo);
    lemma_pow2_pos(b_hi);
    lemma_pow2_pos(lo);
    lemma_pow2_pos(hi);
    lemma_pow2_adds(a_lo, 1074);
    lemma_pow2_adds(b_hi, lo);
    lemma_pow2_adds(a_hi, 1074);
    lemma_pow2_adds(b_lo, hi);
    assert(y * pow2(lo) <= n) by (nonlinear_arith)
        requires
            y <= pow2(b_hi),
            pow2(b_hi) * pow2(lo) == pow2(a_lo) * one,
            pow2(a_lo) <= x,
            n == x * one,
    ;
    assert(n <= y * pow2(hi)) by (nonlinear_arith)
        requires
            pow2(b_lo) <= y,
            pow2(b_lo) * pow2(hi) == pow2(a_hi) * one,
            x <= pow2(a_hi),
            n == x * one,
    ;
    lemma_round_close(n, y, lo, hi);
}

/// A product is exact but for two parts.
pub proof fn lemma_product_close(
    a: Quantity,
    b: Quantity,
    a_lo: nat,
    a_hi: nat,
    b_lo: nat,
    b_hi: nat,
)
    requires
        lies_between(a, a_lo, a_hi),
        lies_between(b, b_lo, b_hi),
        1126 <= a_lo + b_lo,
        a_hi + b_hi <= 3171,
        a_lo <= a_hi,
        b_lo <= b_hi,
    ensures
        lies_between(
            a.product(b),
            (a_lo + b_lo - 1074) as nat,
            (a_hi + b_hi - 1074) as nat,
        ),
        close(a.product(b).amount() * one_units(), a.amount() * b.amount(), 2),
{
    let one = one_units();
    let x = a.amount();
    let y = b.amount();
    let n = x * y;
    let lo = (a_lo + b_lo - 1074) as nat;
    let hi = (a_hi + b_hi - 1074) as nat;
    lemma_pow2_pos(1074);
    lemma_pow2_pos(a_lo);
    lemma_pow2_pos(b_lo);
    lemma_pow2_adds(a_lo, b_lo);
    lemma_pow2_adds(1074, lo);
    lemma_pow2_adds(a_hi, b_hi);
    lemma_pow2_adds(1074, hi);
    assert(one * pow2(lo) <= n) by (nonlinear_arith)
        requires
            one * pow2(lo) == pow2(a_lo) * pow2(b_lo),
            pow2(a_lo) <= x,
            pow2(b_lo) <= y,
            n == x * y,
    ;
    assert(n <= one * pow2(hi)) by (nonlinear_arith)
        requires
            one * pow2(hi) == pow2(a_hi) * pow2(b_hi),
            x <= pow2(a_hi),
            y <= pow2(b_hi),
            n == x * y,
    ;
    lemma_round_close(n, one, lo, hi);
}

/// A sum is exact but for two parts.
pub proof fn lemma_sum_close(a: Quantity, b: Quantity, lo: nat, hi: nat)
    requires
        a.is_finite(),
        b.is_finite(),
        pow2(lo) <= a.amount() + b.amount() <= pow2(hi),
        52 <= lo <= hi <= 2097,
    ensures
        lies_between(a.sum(b), lo, hi),
        close(a.sum(b).amount(), a.amount() + b.amount(), 2),
{
    let n = a.amount() + b.amount();
    lemma_round_close(n, 1, lo, hi);
    assert(units(nearest(n, 1)) * 1 == units(nearest(n, 1)));
}

/// An integer is held exactly but for two parts.
pub proof fn lemma_of_close(v: nat)
    requires
        1 <= v <= u64::MAX,
    ensures
        lies_between(Quantity::of(v), 1074, 1138),
        close(Quantity::of(v).amount(), v * one_units(), 2),
{
    let one = one_units();
    let n = v * one;
    lemma2_to64();
    lemma_pow2_adds(64, 1074);
    assert(one <= n <= pow2(64) * one) by (nonlinear_arith)
        requires
            n == v * one,
            1 <= v <= pow2(64),
    ;
    lemma_round_close(n, 1, 1074, 1138);
    assert(units(nearest(n, 1)) * 1 == units(nearest(n, 1)));
}

/// A share `a / b * c` of integers `b` and `c` is the exact one but for eleven parts.
pub proof fn lemma_share_close(a: Quantity, b: nat, c: nat)
    requires
        lies_between(a, 174, 1974),
        1 <= b <= u64::MAX,
        1 <= c <= u64::MAX,
    ensures
        close(
            a.quotient(Quantity::of(b)).product(Quantity::of(c)).amount() * b,
            a.amount() * c,
            11,
        ),
        lies_between(a.quotient(Quantity::of(b)).product(Quantity::of(c)), 110, 2038),
{
    let one = one_units();
    let x = Quantity::of(b);
    let y = Quantity::of(c);
    let q = a.quotient(x);
    let r = q.product(y);
    let (h, d, u, s, e) = (a.amount(), x.amount(), y.amount(), q.amount(), r.amount());
    lemma_pow2_pos(1074);
    lemma_of_close(b);
    lemma_of_close(c);
    lemma_quotient_close(a, x, 174, 1974, 1074, 1138);
    lemma_product_close(q, y, 110, 1974, 1074, 1138);
    // e one ~ s u and s d ~ h one, so e d ~ h u.
    lemma_close_scale(e * one, s * u, 2, d);
    lemma_close_scale(s * d, h * one, 2, u);
    assert((s * u) * d == (s * d) * u) by (nonlinear_arith);
    lemma_close_chain((e * one) * d, (s * u) * d, (h * one) * u, 2, 2);
    assert((e * one) * d == (e * d) * one) by (nonlinear_arith);
    assert((h * one) * u == (h * u) * one) by (nonlinear_arith);
    lemma_close_cancel(e * d, h * u, 5, one);
    // d ~ b one and u ~ c one.
    lemma_close_scale(d, b * one, 2, e);
    lemma_close_scale(u, c * one, 2, h);
    lemma_close_chain(e * (b * one), e * d, h * u, 2, 5);
    lemma_close_chain(e * (b * one), h * u, h * (c * one), 8, 2);
    assert(e * (b * one) == (e * b) * one) by (nonlinear_arith);
    assert(h * (c * one) == (h * c) * one) by (nonlinear_arith);
    lemma_close_cancel(e * b, h * c, 11, one);
}

/// The square of a root is the amount but for eight parts.
pub proof fn lemma_root_close(a: Quantity)
    requires
        lies_between(a, 1074, 1138),
    ensures
        close(
            a.square_root().amount() * a.square_root().amount(),
            a.amount() * one_units(),
            8,
        ),
        lies_between(a.square_root(), 1074, 1138),
{
    let one = one_units();
    let n = a.amount() * one;
    let r = nearest_root(n);
    lemma_nearest_root_exists(a);
    lemma_pow2_pos(1074);
    let u = units(r);
    // The root is at least one and at most the amount.
    lemma_grid_power(1074);
    lemma_grid_power(1138);
    let low = grid_power(1074);
    let high = grid_power(1138);
    let next = units(r + 1);
    let up = u + next;
    lemma_units_ordered(r, r + 1);
    if r < low {
        lemma_units_ordered(r, low);
        lemma_units_ordered(r + 1, low);
        assert(up * up < 4 * n) by (nonlinear_arith)
            requires
                up < 2 * one,
                n == a.amount() * one,
                a.amount() >= one,
        ;
    }
    let t = (r - 1) as nat;
    let down = units(t) + u;
    if r > high {
        lemma_units_ordered(high, r);
        lemma_units_ordered(high, t);
        assert(down * down > 4 * n) by (nonlinear_arith)
            requires
                down > 2 * a.amount(),
                n == a.amount() * one,
                a.amount() >= one,
        ;
    }
    lemma_units_ordered(low, r);
    lemma_units_ordered(r, high);
    lemma_step(r);
    let p = PARTS as nat;
    let g = (next - u) as nat;
    let h = (u - units(t)) as nat;
    let m = u * u;
    assert(4 * n <= (2 * u + g) * (2 * u + g)) by (nonlinear_arith)
        requires
            4 * n <= up * up,
            up == 2 * u + g,
    ;
    assert((2 * u - h) * (2 * u - h) <= 4 * n) by (nonlinear_arith)
        requires
            down * down <= 4 * n,
            down == 2 * u - h,
    ;
    assert(g <= u && h <= u) by (nonlinear_arith)
        requires
            g * p <= u,
            h * p <= u,
            p > 1,
    ;
    assert((g * u) * p <= m && (h * u) * p <= m) by (nonlinear_arith)
        requires
            g * p <= u,
            h * p <= u,
            m == u * u,
    ;
    // (2 u + g)^2 <= 4 m + 5 g u
    assert((2 * u + g) * (2 * u + g) <= 4 * m + 5 * (g * u)) by (nonlinear_arith)
        requires
            g <= u,
            m == u * u,
    ;
    assert(4 * m - 4 * (h * u) <= (2 * u - h) * (2 * u - h)) by (nonlinear_arith)
        requires
            m == u * u,
    ;
    let k = g * u;
    let l = h * u;
    assert(n * p <= m * (p + 8)) by (nonlinear_arith)
        requires
            4 * n <= 4 * m + 5 * k,
            k * p <= m,
    ;
    assert(m * p <= n * (p + 8)) by (nonlinear_arith)
        requires
            4 * m <= 4 * n + 4 * l,
            l * p <= m,
            p == 0x10_0000_0000_0000,
    ;
}

} // verus!
