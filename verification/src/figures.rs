//! Amounts as text.
use crate::mantissa::shifted;
use crate::quantity::{
    lemma_of_bounds, lemma_of_power, lemma_one_is_neutral, lemma_power_bits,
    lemma_quotient_monotone, Quantity,
};
use crate::rounding::{
    lemma_nearest_exact, lemma_units_of_parts, one_units, units, FRACTION, INFINITY, ONE_EXPONENT,
};
use crate::text::{decimal, decimal_value, digit, law_decimal_reads_back, push_decimal};
use vstd::arithmetic::div_mod::{lemma_fundamental_div_mod, lemma_fundamental_div_mod_converse};
use vstd::arithmetic::power2::{
    lemma2_to64, lemma2_to64_rest, lemma_pow2_adds, lemma_pow2_pos, lemma_pow2_strictly_increases,
    lemma_pow2_unfold, pow2,
};
use vstd::prelude::*;
use vstd::string::*;

verus! {

/// The integer nearest to `n / d`, the even one of two that are equally near.
pub open spec fn half_even(n: nat, d: nat) -> nat {
    let w = n / d;
    let rest = n % d;
    if 2 * rest > d || (2 * rest == d && w % 2 == 1) {
        w + 1
    } else {
        w
    }
}

/// The amount as a decimal number without decimals.
pub open spec fn no_decimals(q: Quantity) -> Seq<char> {
    if q.is_finite() {
        decimal(half_even(q.amount(), one_units()))
    } else {
        seq!['i', 'n', 'f']
    }
}

/// The amount as a decimal number with one decimal.
pub open spec fn one_decimal(q: Quantity) -> Seq<char> {
    if q.is_finite() {
        let tenths = half_even(10 * q.amount(), one_units());
        decimal(tenths / 10) + seq!['.', digit(tenths % 10)]
    } else {
        seq!['i', 'n', 'f']
    }
}

/// The names of the units that sizes are shown in.
pub open spec fn unit_name(unit: nat) -> Seq<char> {
    if unit == 0 {
        "B"@
    } else if unit == 1 {
        "KiB"@
    } else if unit == 2 {
        "MiB"@
    } else if unit == 3 {
        "GiB"@
    } else if unit == 4 {
        "TiB"@
    } else {
        "PiB"@
    }
}

/// A size counted in `unit`, brought to the greatest unit that it is not less than one
/// of.
pub open spec fn in_best_unit(size: Quantity, unit: nat) -> (Quantity, nat)
    decreases 5 - unit,
{
    if unit < 5 && size.bits >= Quantity::of(1024).bits {
        in_best_unit(size.quotient(Quantity::of(1024)), unit + 1)
    } else {
        (size, unit)
    }
}

/// A size in bytes, as it is shown.
pub open spec fn human(bytes: Quantity) -> Seq<char> {
    let (size, unit) = in_best_unit(bytes, 0);
    one_decimal(size) + unit_name(unit)
}

/// The unit is the greatest one that leaves no less than one: a size is shown as less than
/// 1024 of its unit, save in the last unit, and only sizes from 1024 on have another unit
/// than the first.
pub proof fn law_best_unit(size: Quantity)
    requires
        size.wf(),
    ensures
        in_best_unit(size, 0).1 <= 5,
        in_best_unit(size, 0).1 < 5 ==> in_best_unit(size, 0).0.bits < Quantity::of(1024).bits,
        in_best_unit(size, 0).1 > 0 ==> in_best_unit(size, 0).0.bits >= Quantity::of(1).bits,
        in_best_unit(size, 0).1 > 0 <==> size.bits >= Quantity::of(1024).bits,
{
    lemma_best_unit(size, 0);
}

/// What is shown is the size: the value times 1024 for each unit above the first is the size
/// in bytes, exactly, and the text is the value and the name of the unit.
pub proof fn law_unit_scales(size: Quantity)
    requires
        size.is_finite(),
    ensures
        in_best_unit(size, 0).0.amount() * pow2(10 * in_best_unit(size, 0).1) == size.amount(),
        in_best_unit(size, 0).0.is_finite(),
        human(size) == one_decimal(in_best_unit(size, 0).0) + unit_name(in_best_unit(size, 0).1),
{
    lemma_unit_scales(size, 0);
}

proof fn lemma_unit_scales(size: Quantity, unit: nat)
    requires
        size.is_finite(),
        unit <= 5,
    ensures
        unit <= in_best_unit(size, unit).1,
        in_best_unit(size, unit).0.is_finite(),
        in_best_unit(size, unit).0.amount() * pow2(
            (10 * (in_best_unit(size, unit).1 - unit)) as nat,
        ) == size.amount(),
    decreases 5 - unit,
{
    let k = Quantity::of(1024);
    let one = one_units();
    let f = FRACTION as nat;
    lemma2_to64();
    lemma_pow2_pos(1074);
    if unit < 5 && size.bits >= k.bits {
        lemma_of_power(10);
        lemma_power_bits(10);
        lemma_pow2_adds(10, 1074);
        let bits = size.bits as nat;
        let less = (bits - 10 * f) as nat;
        lemma_ten_less(bits);
        let d = k.amount();
        let n = size.amount() * one;
        assert(n == d * units(less)) by (nonlinear_arith)
            requires
                n == units(bits) * one,
                units(bits) == 1024 * units(less),
                d == 1024 * one,
        ;
        assert(d > 0);
        lemma_nearest_exact(n, d, less);
        let smaller = size.quotient(k);
        assert(smaller.bits == less);
        lemma_unit_scales(smaller, unit + 1);
        let u = in_best_unit(smaller, unit + 1).1;
        let v = in_best_unit(smaller, unit + 1).0.amount();
        let j = (10 * (u - (unit + 1))) as nat;
        lemma_pow2_adds(j, 10);
        let p = pow2(j);
        assert(v * (p * 1024) == 1024 * (v * p)) by (nonlinear_arith);
        assert(10 * (u - unit) == j + 10);
    } else {
        assert(pow2(0) == 1);
        assert(size.amount() * 1 == size.amount());
    }
}

/// Ten exponents less are a 1024th of the amount.
proof fn lemma_ten_less(bits: nat)
    requires
        bits >= 11 * FRACTION,
    ensures
        units(bits) == 1024 * units((bits - 10 * FRACTION) as nat),
{
    let f = FRACTION as nat;
    let e = bits / f;
    let m = bits % f;
    lemma_fundamental_div_mod(bits as int, f as int);
    assert(e >= 11) by (nonlinear_arith)
        requires
            bits == f * e + m,
            m < f,
            bits >= 11 * f,
            f > 0,
    ;
    let x = (e - 11) as nat;
    lemma2_to64();
    lemma_pow2_adds(10, x);
    lemma_units_of_parts(f + m, x);
    lemma_units_of_parts(f + m, x + 10);
    assert(bits == (x + 10) * f + (f + m)) by (nonlinear_arith)
        requires
            bits == f * e + m,
            x == e - 11,
    ;
    assert(bits - 10 * f == x * f + (f + m)) by (nonlinear_arith)
        requires
            bits == (x + 10) * f + (f + m),
    ;
    let p = pow2(x);
    assert((f + m) * (1024 * p) == 1024 * ((f + m) * p)) by (nonlinear_arith);
}

/// A figure without decimals is read back as the nearest integer, one with a decimal as the
/// nearest tenth: at most half a step away from the amount.
pub proof fn law_figures_read_back(q: Quantity)
    requires
        q.is_finite(),
    ensures
        ({
            let one = one_units() as int;
            let whole = decimal_value(no_decimals(q));
            let text = one_decimal(q);
            let n = text.len() as int;
            let tenths = 10 * decimal_value(text.take(n - 2)) + (text[n - 1] as int - '0' as int);
            &&& -one <= 2 * (whole * one - q.amount()) <= one
            &&& n > 2
            &&& text[n - 2] == '.'
            &&& '0' <= text[n - 1] <= '9'
            &&& -one <= 2 * (tenths * one - 10 * q.amount()) <= one
        }),
{
    let one = one_units();
    lemma_pow2_pos(1074);
    let w = half_even(q.amount(), one);
    let t = half_even(10 * q.amount(), one);
    lemma_half_even_near(q.amount(), one);
    lemma_half_even_near(10 * q.amount(), one);
    law_decimal_reads_back(w);
    law_decimal_reads_back(t / 10);
    let text = one_decimal(q);
    let n = text.len() as int;
    assert(text.take(n - 2) =~= decimal(t / 10));
    assert(10 * (t / 10) + t % 10 == t);
}

proof fn lemma_half_even_near(n: nat, d: nat)
    requires
        d > 0,
    ensures
        -d <= 2 * (half_even(n, d) * d - n) <= d,
{
    lemma_fundamental_div_mod(n as int, d as int);
    let w = n / d;
    let r = n % d;
    assert(d * w == w * d && (w + 1) * d == w * d + d) by (nonlinear_arith);
}

proof fn lemma_best_unit(size: Quantity, unit: nat)
    requires
        size.wf(),
        unit <= 5,
    ensures
        unit <= in_best_unit(size, unit).1 <= 5,
        in_best_unit(size, unit).1 < 5 ==> in_best_unit(size, unit).0.bits < Quantity::of(1024).bits,
        in_best_unit(size, unit).1 > unit ==> in_best_unit(size, unit).0.bits >= Quantity::of(
            1,
        ).bits,
        in_best_unit(size, unit).1 == unit ==> in_best_unit(size, unit).0 == size,
        in_best_unit(size, unit).1 > unit <==> unit < 5 && size.bits >= Quantity::of(1024).bits,
    decreases 5 - unit,
{
    let k = Quantity::of(1024);
    lemma_of_bounds(1024);
    lemma_of_bounds(1);
    if unit < 5 && size.bits >= k.bits {
        let smaller = size.quotient(k);
        lemma_one_is_neutral(k);
        lemma_quotient_monotone(k, size, k, k);
        lemma_quotient_monotone(size, size, k, k);
        assert(smaller.bits >= Quantity::of(1).bits);
        lemma_best_unit(smaller, unit + 1);
    }
}

/// A number given by its decimal digits, the last one first.
pub open spec fn digits_value(digits: Seq<u8>) -> nat
    decreases digits.len(),
{
    if digits.len() == 0 {
        0
    } else {
        digits[0] as nat + 10 * digits_value(digits.drop_first())
    }
}

/// Decimal digits without superfluous zeros in front.
pub open spec fn digits_wf(digits: Seq<u8>) -> bool {
    &&& forall|i: int| 0 <= i < digits.len() ==> digits[i] < 10
    &&& digits.len() > 0 ==> digits.last() > 0
}

proof fn lemma_half_even_cancel(n: nat, d: nat, q: nat)
    requires
        d > 0,
        q > 0,
    ensures
        half_even(n * q, d * q) == half_even(n, d),
{
    let w = n / d;
    let r = n % d;
    lemma_fundamental_div_mod(n as int, d as int);
    assert(n * q == w * (d * q) + r * q) by (nonlinear_arith)
        requires
            n == d * w + r,
    ;
    assert(0 <= r * q < d * q) by (nonlinear_arith)
        requires
            0 <= r < d,
            q > 0,
    ;
    lemma_fundamental_div_mod_converse((n * q) as int, (d * q) as int, w as int, (r * q) as int);
    assert((2 * r > d <==> 2 * (r * q) > d * q) && (2 * r == d <==> 2 * (r * q) == d * q))
        by (nonlinear_arith)
        requires
            q > 0,
    ;
}

/// An integer needs no rounding.
proof fn lemma_half_even_whole(w: nat, d: nat)
    requires
        d > 0,
    ensures
        half_even(w * d, d) == w,
{
    lemma_fundamental_div_mod_converse((w * d) as int, d as int, w as int, 0);
}

/// The digits of a number.
fn digits_of(n: u64) -> (r: Vec<u8>)
    ensures
        digits_wf(r@),
        digits_value(r@) == n,
    decreases n,
{
    if n == 0 {
        return Vec::new();
    }
    let mut r: Vec<u8> = digits_of(n / 10);
    let ghost high = r@;
    r.insert(0, (n % 10) as u8);
    proof {
        assert(r@.drop_first() =~= high);
        assert forall|j: int| 0 <= j < r@.len() implies r@[j] < 10 by {
            if j > 0 {
                assert(r@[j] == high[j - 1]);
            }
        }
        if high.len() > 0 {
            assert(r@.last() == high.last());
        } else {
            assert(n / 10 == 0);
        }
    }
    r
}

/// The digits of twice the number that `digits` gives from place `i` on, plus `carry`.
fn doubled(digits: &Vec<u8>, i: usize, carry: u8) -> (r: Vec<u8>)
    requires
        digits_wf(digits@),
        i <= digits.len(),
        carry <= 1,
    ensures
        digits_wf(r@),
        digits_value(r@) == 2 * digits_value(digits@.skip(i as int)) + carry,
    decreases digits.len() - i,
{
    if i == digits.len() {
        let mut r: Vec<u8> = Vec::new();
        if carry > 0 {
            r.push(carry);
            proof {
                assert(r@.drop_first() =~= Seq::empty());
                assert(digits_value(r@.drop_first()) == 0);
            }
        }
        return r;
    }
    let t: u8 = 2 * digits[i] + carry;
    let mut r: Vec<u8> = doubled(digits, i + 1, t / 10);
    let ghost high = r@;
    proof {
        assert(digits@.skip(i as int).drop_first() =~= digits@.skip(i + 1));
        if high.len() == 0 {
            // Then this is the leading digit, which is not zero.
            if i + 1 < digits@.len() {
                lemma_digits_positive(digits@.skip(i + 1));
            }
        }
    }
    r.insert(0, t % 10);
    proof {
        assert(r@.drop_first() =~= high);
        assert(r@[0] == t % 10);
        assert forall|j: int| 0 <= j < r@.len() implies r@[j] < 10 by {
            if j > 0 {
                assert(r@[j] == high[j - 1]);
            }
        }
        if high.len() > 0 {
            assert(r@.last() == high.last());
        }
    }
    r
}

/// Digits that are there give a positive number.
proof fn lemma_digits_positive(digits: Seq<u8>)
    requires
        digits_wf(digits),
        digits.len() > 0,
    ensures
        digits_value(digits) > 0,
    decreases digits.len(),
{
    if digits.len() > 1 {
        assert(digits.drop_first().last() == digits.last());
        lemma_digits_positive(digits.drop_first());
    }
}

/// Appends the decimal notation of the number from place `i` on.
fn push_digits(out: &mut String, digits: &Vec<u8>, i: usize)
    requires
        digits_wf(digits@),
        i < digits.len(),
    ensures
        final(out)@ == old(out)@ + decimal(digits_value(digits@.skip(i as int))),
    decreases digits.len() - i,
{
    let ghost here = digits@.skip(i as int);
    let ghost v = digits_value(here);
    proof {
        assert(here.drop_first() =~= digits@.skip(i + 1));
        assert(digits_wf(here.drop_first()));
        if i + 1 < digits.len() {
            lemma_digits_positive(here.drop_first());
        } else {
            assert(here.drop_first() =~= Seq::empty());
        }
    }
    if i + 1 < digits.len() {
        push_digits(out, digits, i + 1);
    }
    let ghost so_far = out@;
    push_decimal(out, digits[i] as u64);
    proof {
        assert(v % 10 == here[0] && v / 10 == digits_value(here.drop_first()));
        assert(decimal(here[0] as nat) =~= seq![digit(here[0] as nat)]);
        assert(out@ =~= old(out)@ + decimal(v));
    }
}

/// An amount times a small factor: its nearest integer, or, from 2 to the power of 52
/// on, the digits of the amount, which is an integer then.
enum Figure {
    Nearest(u64),
    Digits(Vec<u8>),
}

impl Figure {
    spec fn tells(self, amount: nat, factor: nat) -> bool {
        match self {
            Figure::Nearest(t) => t == half_even(factor * amount, one_units()),
            Figure::Digits(d) => digits_wf(d@) && d@.len() > 0 && digits_value(d@) * one_units()
                == amount,
        }
    }
}

fn figure(q: Quantity, factor: u64) -> (r: Figure)
    requires
        q.is_finite(),
        1 <= factor <= 10,
    ensures
        r.tells(q.amount(), factor as nat),
{
    let (m, x) = q.parts();
    let ghost one = one_units();
    proof {
        lemma_pow2_pos(ONE_EXPONENT as nat);
        lemma2_to64();
        lemma2_to64_rest();
    }
    if x >= ONE_EXPONENT {
        let up: u64 = x - ONE_EXPONENT;
        let mut digits: Vec<u8> = digits_of(m);
        let mut i: u64 = 0;
        while i < up
            invariant
                i <= up,
                digits_wf(digits@),
                digits_value(digits@) == m * pow2(i as nat),
            decreases up - i,
        {
            proof {
                assert(digits@.skip(0) =~= digits@);
                lemma_pow2_unfold((i + 1) as nat);
                let p = pow2(i as nat);
                assert(2 * (m * p) == m * (2 * p)) by (nonlinear_arith);
            }
            digits = doubled(&digits, 0, 0);
            i = i + 1;
        }
        proof {
            let p = pow2(up as nat);
            lemma_pow2_adds(up as nat, ONE_EXPONENT as nat);
            lemma_pow2_pos(up as nat);
            assert((m * p) * one == m * (p * one)) by (nonlinear_arith);
            assert(m * p > 0) by (nonlinear_arith)
                requires
                    m > 0,
                    p > 0,
            ;
        }
        Figure::Digits(digits)
    } else {
        let down: u64 = ONE_EXPONENT - x;
        let num: u64 = factor * m;
        proof {
            let s = pow2(x as nat);
            let p = pow2(down as nat);
            lemma_pow2_pos(x as nat);
            lemma_pow2_pos(down as nat);
            lemma_pow2_adds(down as nat, x as nat);
            lemma_half_even_cancel(num as nat, p, s);
            assert(factor * (m * s) == num * s) by (nonlinear_arith)
                requires
                    num == factor * m,
            ;
        }
        if down >= 60 {
            proof {
                if down > 60 {
                    lemma_pow2_strictly_increases(60, down as nat);
                }
                lemma_fundamental_div_mod_converse(
                    num as int,
                    pow2(down as nat) as int,
                    0,
                    num as int,
                );
            }
            Figure::Nearest(0)
        } else {
            proof {
                lemma_pow2_strictly_increases(down as nat, 60);
                assert(1 * pow2(down as nat) == pow2(down as nat));
            }
            let p: u64 = shifted(1, down) as u64;
            let w: u64 = num / p;
            let rest: u64 = num % p;
            if 2 * rest > p || (2 * rest == p && w % 2 == 1) {
                Figure::Nearest(w + 1)
            } else {
                Figure::Nearest(w)
            }
        }
    }
}

/// Appends the amount without decimals.
pub fn push_no_decimals(out: &mut String, q: Quantity)
    requires
        q.wf(),
    ensures
        final(out)@ == old(out)@ + no_decimals(q),
{
    if q.bits == INFINITY {
        out.append("inf");
        proof {
            reveal_strlit("inf");
            assert("inf"@ =~= seq!['i', 'n', 'f']);
        }
        return;
    }
    match figure(q, 1) {
        Figure::Nearest(t) => push_decimal(out, t),
        Figure::Digits(d) => {
            proof {
                lemma_pow2_pos(ONE_EXPONENT as nat);
                lemma_half_even_whole(digits_value(d@), one_units());
                assert(d@.skip(0) =~= d@);
            }
            push_digits(out, &d, 0)
        },
    }
}

/// Appends the amount with one decimal.
pub fn push_one_decimal(out: &mut String, q: Quantity)
    requires
        q.wf(),
    ensures
        final(out)@ == old(out)@ + one_decimal(q),
{
    if q.bits == INFINITY {
        out.append("inf");
        proof {
            reveal_strlit("inf");
            assert("inf"@ =~= seq!['i', 'n', 'f']);
        }
        return;
    }
    match figure(q, 10) {
        Figure::Nearest(t) => {
            push_decimal(out, t / 10);
            out.push('.');
            push_decimal(out, t % 10);
            proof {
                assert(decimal((t % 10) as nat) =~= seq![digit((t % 10) as nat)]);
                assert(out@ =~= old(out)@ + one_decimal(q));
            }
        },
        Figure::Digits(d) => {
            proof {
                let v = digits_value(d@);
                let one = one_units();
                lemma_pow2_pos(ONE_EXPONENT as nat);
                lemma_half_even_whole(10 * v, one);
                assert(10 * (v * one) == (10 * v) * one) by (nonlinear_arith);
                assert(d@.skip(0) =~= d@);
            }
            push_digits(out, &d, 0);
            out.push('.');
            out.push('0');
            proof {
                assert(out@ =~= old(out)@ + one_decimal(q));
            }
        },
    }
}

/// A size in bytes in the greatest fitting unit, with one decimal.
pub fn human_bytes(bytes: Quantity) -> (r: String)
    requires
        bytes.wf(),
    ensures
        r@ == human(bytes),
{
    let step: Quantity = Quantity::from_u64(1024);
    proof {
        lemma_kibi();
    }
    let mut size: Quantity = bytes;
    let mut unit: usize = 0;
    while unit < 5 && size.bits >= step.bits
        invariant
            unit <= 5,
            size.wf(),
            step == Quantity::of(1024),
            0 < step.bits < INFINITY,
            in_best_unit(bytes, 0) == in_best_unit(size, unit as nat),
        decreases 5 - unit,
    {
        size = size.over(step);
        unit = unit + 1;
    }
    let mut r: String = String::new();
    push_one_decimal(&mut r, size);
    let name: &str = if unit == 0 {
        "B"
    } else if unit == 1 {
        "KiB"
    } else if unit == 2 {
        "MiB"
    } else if unit == 3 {
        "GiB"
    } else if unit == 4 {
        "TiB"
    } else {
        "PiB"
    };
    r.append(name);
    proof {
        assert(r@ =~= human(bytes));
    }
    r
}

/// 1024 is on the grid.
proof fn lemma_kibi()
    ensures
        Quantity::of(1024).bits == 0x4090_0000_0000_0000,
{
    let f = FRACTION as nat;
    lemma_units_of_parts(f, 1032);
    assert(1032 * f + f == 0x4090_0000_0000_0000nat);
    lemma_pow2_adds(10, ONE_EXPONENT as nat);
    lemma_pow2_adds(52, 1032);
    lemma2_to64();
    lemma2_to64_rest();
    lemma_nearest_exact(1024 * one_units(), 1, 0x4090_0000_0000_0000);
}

} // verus!
