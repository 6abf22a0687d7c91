//! Square roots, rounded to the binary64 grid.
use crate::quantity::{lemma_power_bits, power_bits, Quantity};
use crate::rounding::{
    lemma_units_of_parts, lemma_units_ordered, lemma_units_step, one_units, units, FRACTION,
    INFINITY,
};
use vstd::arithmetic::power2::{
    lemma2_to64_rest, lemma_pow2_adds, lemma_pow2_pos, lemma_pow2_unfold, pow2,
};
use vstd::prelude::*;

verus! {

/// Grid point `r` is where the square root of `n` rounds to: four times `n` lies between
/// the squares of the doubled midpoints to the two neighbours of `r`.
pub open spec fn is_nearest_root(n: nat, r: nat) -> bool {
    let up = units(r) + units(r + 1);
    let down = units((r - 1) as nat) + units(r);
    &&& r < INFINITY
    &&& 4 * n < up * up || (4 * n == up * up && r % 2 == 0)
    &&& r > 0 ==> down * down < 4 * n || (down * down == 4 * n && r % 2 == 0)
}

/// The bit pattern that the square root of `n` rounds to.
pub open spec fn nearest_root(n: nat) -> nat {
    choose|r: nat| is_nearest_root(n, r)
}

/// At most one grid point is nearest to a root.
pub proof fn lemma_nearest_root_unique(n: nat, r: nat, s: nat)
    requires
        is_nearest_root(n, r),
        is_nearest_root(n, s),
    ensures
        r == s,
{
    if r < s {
        lemma_root_no_gap(n, r, s);
    } else {
        lemma_root_no_gap(n, s, r);
    }
}

proof fn lemma_root_no_gap(n: nat, r: nat, s: nat)
    requires
        r <= s,
        is_nearest_root(n, r),
        is_nearest_root(n, s),
    ensures
        r == s,
{
    if r < s {
        let t = (s - 1) as nat;
        lemma_units_ordered(r, t);
        lemma_units_ordered(r + 1, s);
        let up = units(r) + units(r + 1);
        let down = units(t) + units(s);
        assert(up * up <= down * down) by (nonlinear_arith)
            requires
                up <= down,
        ;
        if r + 1 < s {
            assert(up * up < down * down) by (nonlinear_arith)
                requires
                    up < down,
            ;
        }
    }
}

/// The grid point at a root or below it.
proof fn lemma_root_floor(n: nat, b: nat) -> (lo: nat)
    requires
        n < units(b) * units(b),
    ensures
        lo < b,
        units(lo) * units(lo) <= n < units(lo + 1) * units(lo + 1),
    decreases b,
{
    assert(units(0) == 0);
    if b == 0 {
        assert(units(b) * units(b) == 0) by (nonlinear_arith)
            requires
                units(b) == 0,
        ;
        0
    } else if n < units((b - 1) as nat) * units((b - 1) as nat) {
        lemma_root_floor(n, (b - 1) as nat)
    } else {
        (b - 1) as nat
    }
}

/// The root of a finite amount rounds to exactly one grid point.
pub proof fn lemma_nearest_root_exists(q: Quantity)
    requires
        q.is_finite(),
    ensures
        is_nearest_root(q.amount() * one_units(), nearest_root(q.amount() * one_units())),
{
    let one = one_units();
    let n = q.amount() * one;
    let top = (INFINITY - 1) as nat;
    lemma_power_bits(0);
    lemma_units_ordered(power_bits(0), top);
    lemma_units_ordered(q.bits as nat, top);
    lemma_pow2_pos(1074);
    let t = units(top);
    assert(n < t * t) by (nonlinear_arith)
        requires
            n == q.amount() * one,
            q.amount() <= t,
            0 < one < t,
    ;
    let lo = lemma_root_floor(n, top);
    lemma_units_step(lo);
    lemma_units_step(lo + 1);
    let a = units(lo);
    let b = units(lo + 1);
    let c = units(lo + 2);
    let mid = a + b;
    if 4 * n > mid * mid || (4 * n == mid * mid && lo % 2 == 1) {
        assert(4 * n < (b + c) * (b + c)) by (nonlinear_arith)
            requires
                n < b * b,
                b < c,
                0 <= b,
        ;
        assert((lo + 1 - 1) as nat == lo);
        assert(is_nearest_root(n, lo + 1));
    } else {
        if lo > 0 {
            lemma_units_step((lo - 1) as nat);
            let z = units((lo - 1) as nat);
            assert((z + a) * (z + a) < 4 * n) by (nonlinear_arith)
                requires
                    a * a <= n,
                    0 <= z < a,
            ;
        }
        assert(is_nearest_root(n, lo));
    }
}

/// A greater amount has no smaller root.
pub proof fn lemma_root_monotone(a: Quantity, b: Quantity)
    requires
        a.is_finite(),
        b.is_finite(),
        a.bits <= b.bits,
    ensures
        a.square_root().bits <= b.square_root().bits,
        b.square_root().is_finite(),
{
    let one = one_units();
    let n = a.amount() * one;
    let m = b.amount() * one;
    lemma_nearest_root_exists(a);
    lemma_nearest_root_exists(b);
    lemma_units_ordered(a.bits as nat, b.bits as nat);
    assert(n <= m) by (nonlinear_arith)
        requires
            n == a.amount() * one,
            m == b.amount() * one,
            a.amount() <= b.amount(),
    ;
    let r = nearest_root(n);
    let s = nearest_root(m);
    if s < r {
        let t = (r - 1) as nat;
        lemma_units_ordered(s, t);
        lemma_units_ordered(s + 1, r);
        let up = units(s) + units(s + 1);
        let down = units(t) + units(r);
        assert(up * up <= down * down) by (nonlinear_arith)
            requires
                up <= down,
        ;
        if s + 1 < r {
            assert(up * up < down * down) by (nonlinear_arith)
                requires
                    up < down,
            ;
        }
    }
}

/// An amount that is not zero has a root that is not zero.
pub proof fn lemma_root_positive(a: Quantity)
    requires
        a.is_finite(),
        a.bits > 0,
    ensures
        a.square_root().bits > 0,
{
    let one = one_units();
    let n = a.amount() * one;
    lemma_nearest_root_exists(a);
    lemma_units_ordered(0, a.bits as nat);
    lemma_pow2_pos(1074);
    assert(n > 0) by (nonlinear_arith)
        requires
            n == a.amount() * one,
            a.amount() > 0,
            one > 0,
    ;
    let up = units(0) + units(1);
    assert(up == 1);
    assert(up * up == 1) by (nonlinear_arith)
        requires
            up == 1,
    ;
    assert(!is_nearest_root(n, 0));
}

/// The integer square root.
fn integer_root(v: u128) -> (s: u64)
    requires
        v < 0x1000_0000_0000_0000_0000_0000_0000,
    ensures
        s * s <= v < (s + 1) * (s + 1),
        s < 0x40_0000_0000_0000,
{
    let mut low: u64 = 0;
    let mut high: u64 = 0x40_0000_0000_0000;
    while high - low > 1
        invariant
            low < high <= 0x40_0000_0000_0000,
            low * low <= v < high * high,
        decreases high - low,
    {
        let mid: u64 = low + (high - low) / 2;
        assert(0 <= mid * mid <= 0x40_0000_0000_0000 * 0x40_0000_0000_0000) by (nonlinear_arith)
            requires
                0 <= mid <= 0x40_0000_0000_0000,
        ;
        if mid as u128 * mid as u128 <= v {
            low = mid;
        } else {
            high = mid;
        }
    }
    assert(high == low + 1);
    low
}

/// A root of 53 bits and one more tells where the exact root lies on the grid.
proof fn lemma_root_settle(n: nat, v: nat, e: nat, s: nat)
    requires
        n == v * pow2(2 * e),
        s * s <= v < (s + 1) * (s + 1),
        2 * FRACTION <= s < 4 * FRACTION,
        e <= 2000,
    ensures
        ({
            let lo = ((e + 1) * FRACTION + s / 2) as nat;
            let up = s % 2 == 1 && (s * s < v || lo % 2 == 1);
            is_nearest_root(n, if up { lo + 1 } else { lo })
        }),
{
    let f = FRACTION as nat;
    let h = s / 2;
    let g = s % 2;
    let y = e + 1;
    let lo = y * f + h;
    assert(lo == ((e + 1) * FRACTION + s / 2) as nat);
    let up = g == 1 && (s * s < v || lo % 2 == 1);
    let w = pow2(e);
    lemma_pow2_pos(e);
    lemma_pow2_unfold(y);
    lemma_pow2_adds(e, e);
    assert(n == v * (w * w));
    lemma_units_of_parts(h, y);
    assert(units(lo) == h * (2 * w));
    assert(units(lo + 1) == (h + 1) * (2 * w)) by {
        if h + 1 < 2 * f {
            lemma_units_of_parts(h + 1, y);
            assert(lo + 1 == y * f + (h + 1));
        } else {
            lemma_units_of_parts(f, y + 1);
            lemma_pow2_unfold(y + 1);
            assert((y + 1) * f + f == y * f + 2 * f) by (nonlinear_arith);
            assert(f * (2 * (2 * w)) == (2 * f) * (2 * w)) by (nonlinear_arith);
        }
    }
    assert(lo + 1 < INFINITY) by (nonlinear_arith)
        requires
            lo == y * f + h,
            y <= 2001,
            h < 2 * f,
            f == 0x10_0000_0000_0000,
            INFINITY == 0x7FF0_0000_0000_0000,
    ;
    // The doubled midpoint is (2 h + 1) * 2 w.
    let mid = units(lo) + units(lo + 1);
    let o = 2 * h + 1;
    assert(mid == o * (2 * w)) by (nonlinear_arith)
        requires
            mid == h * (2 * w) + (h + 1) * (2 * w),
            o == 2 * h + 1,
    ;
    let ww = w * w;
    assert(ww > 0) by (nonlinear_arith)
        requires
            ww == w * w,
            w > 0,
    ;
    assert(mid * mid == 4 * ((o * o) * ww)) by (nonlinear_arith)
        requires
            mid == o * (2 * w),
            ww == w * w,
    ;
    assert(v < o * o ==> v * ww < (o * o) * ww) by (nonlinear_arith)
        requires
            ww > 0,
    ;
    assert(o * o < v ==> (o * o) * ww < v * ww) by (nonlinear_arith)
        requires
            ww > 0,
    ;
    if g == 1 {
        assert(s == o);
    } else {
        assert(s + 1 == o);
    }
    if up {
        lemma_units_step(lo + 1);
        let top = units(lo + 1) + units(lo + 2);
        let a = units(lo + 1);
        assert(4 * n < top * top) by (nonlinear_arith)
            requires
                n == v * ww,
                ww == w * w,
                v < (s + 1) * (s + 1),
                s + 1 <= 2 * h + 2,
                a == (h + 1) * (2 * w),
                top >= 2 * a + 1,
                w > 0,
        {
            assert(v < (2 * h + 2) * (2 * h + 2));
            assert(v * ww <= ((2 * h + 2) * (2 * h + 2)) * ww);
            assert(((2 * h + 2) * (2 * h + 2)) * ww == a * a);
            assert(4 * (a * a) < top * top);
        }
        assert((lo + 1 - 1) as nat == lo);
    } else {
        lemma_units_step((lo - 1) as nat);
        let bottom = units((lo - 1) as nat) + units(lo);
        let a = units(lo);
        assert(bottom * bottom < 4 * n) by (nonlinear_arith)
            requires
                n == v * ww,
                ww == w * w,
                s * s <= v,
                2 * h <= s,
                a == h * (2 * w),
                bottom <= 2 * a - 1,
                0 <= bottom,
                w > 0,
        {
            assert((2 * h) * (2 * h) <= v);
            assert(((2 * h) * (2 * h)) * ww <= v * ww);
            assert(((2 * h) * (2 * h)) * ww == a * a);
            assert(bottom * bottom < 4 * (a * a));
        }
    }
}

impl Quantity {
    /// The square root of an amount.
    pub open spec fn square_root(self) -> Quantity {
        if self.is_finite() {
            Quantity { bits: nearest_root(self.amount() * one_units()) as u64 }
        } else {
            self
        }
    }

    /// The square root.
    pub fn sqrt(self) -> (r: Quantity)
        requires
            self.wf(),
        ensures
            r == self.square_root(),
            r.wf(),
            r.bits > 0 <==> self.bits > 0,
            r.is_finite() <==> self.is_finite(),
    {
        if self.bits == INFINITY {
            return self;
        }
        let ghost n = self.amount() * one_units();
        if self.bits == 0 {
            proof {
                assert(n == 0) by (nonlinear_arith)
                    requires
                        n == self.amount() * one_units(),
                        self.amount() == 0,
                ;
                assert(units(0) == 0 && units(1) == 1);
                assert(is_nearest_root(n, 0));
                lemma_nearest_root_unique(n, 0, nearest_root(n));
            }
            return self;
        }
        let (m, e) = self.normal_parts();
        let odd: u64 = e % 2;
        let v: u128 = if odd == 0 {
            m as u128 * 0x40_0000_0000_0000
        } else {
            m as u128 * 0x80_0000_0000_0000
        };
        let half: u64 = (e - 54) / 2;
        proof {
            let j: nat = if odd == 0 {
                54
            } else {
                55
            };
            lemma2_to64_rest();
            lemma_pow2_adds(j, (2 * half) as nat);
            assert(j + 2 * half == e);
            let p = pow2((2 * half) as nat);
            let q = pow2(j);
            assert(n == v * p) by (nonlinear_arith)
                requires
                    n == m * (q * p),
                    v == m * q,
            ;
        }
        let s: u64 = integer_root(v);
        proof {
            assert(s >= 0x20_0000_0000_0000) by (nonlinear_arith)
                requires
                    v < (s + 1) * (s + 1),
                    v >= 0x10_0000_0000_0000 * 0x40_0000_0000_0000,
                    s >= 0,
            ;
            assert(0 <= s * s <= 0x40_0000_0000_0000 * 0x40_0000_0000_0000) by (nonlinear_arith)
                requires
                    0 <= s <= 0x40_0000_0000_0000,
            ;
            lemma_root_settle(n, v as nat, half as nat, s as nat);
        }
        let low: u64 = (half + 1) * FRACTION + s / 2;
        proof {
            assert(low == ((half + 1) * FRACTION + s as nat / 2) as nat);
        }
        if s % 2 == 1 && (s as u128 * (s as u128) < v || low % 2 == 1) {
            proof {
                lemma_nearest_root_unique(n, (low + 1) as nat, nearest_root(n));
            }
            Quantity { bits: low + 1 }
        } else {
            proof {
                lemma_nearest_root_unique(n, low as nat, nearest_root(n));
            }
            Quantity { bits: low }
        }
    }
}

} // verus!
