//! Amounts against hardware doubles, bit for bit.
use btd::figures::{human_bytes, push_no_decimals, push_one_decimal};
use btd::quantity::Quantity;

fn quantity(x: f64) -> Quantity {
    Quantity { bits: x.to_bits() }
}

fn next(seed: &mut u64) -> u64 {
    *seed ^= *seed << 13;
    *seed ^= *seed >> 7;
    *seed ^= *seed << 17;
    *seed
}

/// Non-negative numbers of all magnitudes, with the special ones among them.
fn numbers(count: usize) -> Vec<f64> {
    let mut seed: u64 = 0x9E37_79B9_7F4A_7C15;
    let mut r: Vec<f64> = vec![
        0.0,
        1.0,
        2.0,
        0.5,
        1.5,
        2.5,
        0.1,
        1.0 / 3.0,
        f64::MIN_POSITIVE,
        f64::MAX,
        f64::from_bits(1),
        f64::from_bits(2),
        f64::from_bits(3),
        f64::from_bits(0x000F_FFFF_FFFF_FFFF),
        f64::from_bits(0x3FF0_0000_0000_0001),
        9007199254740992.0,
        9007199254740993.0,
        18446744073709551615.0,
        1024.0,
        1048576.0,
    ];
    for i in 0..count {
        let bits: u64 = match i % 4 {
            0 => next(&mut seed) % 0x7FF0_0000_0000_0000,
            1 => ((next(&mut seed) % 0x7FF) << 52) | (next(&mut seed) & 7),
            2 => 0x3FF0_0000_0000_0000 + (next(&mut seed) % 0x0400_0000_0000_0000),
            _ => ((next(&mut seed) >> (next(&mut seed) % 64)) as f64).to_bits(),
        };
        r.push(f64::from_bits(bits));
    }
    r
}

#[test]
fn sums_match_doubles() {
    let all = numbers(400);
    for &a in &all {
        for &b in &all {
            assert_eq!(quantity(a).plus(quantity(b)).bits, (a + b).to_bits(), "{a:e} {b:e}");
        }
    }
}

#[test]
fn excesses_match_doubles() {
    let all = numbers(400);
    for &a in &all {
        for &b in &all {
            let want: f64 = (a - b).max(0.0);
            assert_eq!(
                f64::from_bits(quantity(a).excess_over(quantity(b)).bits),
                want,
                "{a:e} {b:e}"
            );
        }
    }
}

#[test]
fn products_match_doubles() {
    let all = numbers(400);
    for &a in &all {
        for &b in &all {
            assert_eq!(quantity(a).times(quantity(b)).bits, (a * b).to_bits(), "{a:e} {b:e}");
        }
    }
}

#[test]
fn quotients_match_doubles() {
    let all = numbers(400);
    for &a in &all {
        for &b in &all {
            if b > 0.0 {
                assert_eq!(
                    quantity(a).over(quantity(b)).bits,
                    (a / b).to_bits(),
                    "{a:e} {b:e}"
                );
            }
        }
    }
}

#[test]
fn roots_match_doubles() {
    for &a in &numbers(20000) {
        assert_eq!(quantity(a).sqrt().bits, a.sqrt().to_bits(), "{a:e}");
    }
    assert_eq!(quantity(f64::INFINITY).sqrt().bits, f64::INFINITY.to_bits());
}

#[test]
fn infinity_is_kept() {
    let all = numbers(20);
    let inf = quantity(f64::INFINITY);
    for &a in &all {
        assert_eq!(inf.plus(quantity(a)).bits, inf.bits);
        assert_eq!(quantity(a).plus(inf).bits, inf.bits);
        if a > 0.0 {
            assert_eq!(inf.over(quantity(a)).bits, inf.bits);
            assert_eq!(quantity(f64::MAX).times(quantity(f64::MAX)).bits, inf.bits);
        }
    }
}

#[test]
fn integers_match_doubles() {
    let mut seed: u64 = 88172645463325252;
    let mut all: Vec<u64> = vec![
        0,
        1,
        2,
        3,
        10,
        9007199254740991,
        9007199254740992,
        9007199254740993,
        9007199254740995,
        18014398509481987,
        u64::MAX,
        u64::MAX - 1023,
        u64::MAX - 1024,
        u64::MAX - 1025,
    ];
    for i in 0..20000u64 {
        all.push(next(&mut seed) >> (i % 64));
    }
    for v in all {
        assert_eq!(Quantity::from_u64(v).bits, (v as f64).to_bits(), "{v}");
    }
}

#[test]
fn whole_parts_match_doubles() {
    for &a in &numbers(20000) {
        assert_eq!(quantity(a).truncate(), a as usize, "{a:e}");
        assert_eq!(quantity(a).round(), a.round() as usize, "{a:e}");
    }
    for v in 0..200u64 {
        let half = v as f64 + 0.5;
        assert_eq!(quantity(half).round(), half.round() as usize);
        assert_eq!(quantity(half).truncate(), half as usize);
    }
    assert_eq!(quantity(f64::INFINITY).truncate(), usize::MAX);
    assert_eq!(quantity(0.49999999999999994).round(), 0);
}

#[test]
fn decimals_match_formatting() {
    let mut all = numbers(4000);
    for v in 0..2000u64 {
        all.push(v as f64 / 20.0);
        all.push(v as f64 / 8.0);
        all.push(v as f64 * 0.5);
        all.push(v as f64 * 1.05);
    }
    all.push(f64::INFINITY);
    for &a in &all {
        let mut text = String::from("x");
        push_one_decimal(&mut text, quantity(a));
        assert_eq!(text, format!("x{a:.1}"), "{a:e}");
        let mut text = String::new();
        push_no_decimals(&mut text, quantity(a));
        assert_eq!(text, format!("{a:.0}"), "{a:e}");
    }
}

fn human(bytes: f64) -> String {
    let units: [&str; 6] = ["B", "KiB", "MiB", "GiB", "TiB", "PiB"];
    let mut val: f64 = bytes;
    let mut unit: usize = 0;
    while val >= 1024.0 && unit < units.len() - 1 {
        val /= 1024.0;
        unit += 1;
    }
    format!("{val:.1}{}", units[unit])
}

#[test]
fn sizes_have_their_best_unit() {
    assert_eq!(human_bytes(quantity(0.0)), "0.0B");
    assert_eq!(human_bytes(quantity(1023.0)), "1023.0B");
    assert_eq!(human_bytes(quantity(1024.0)), "1.0KiB");
    assert_eq!(human_bytes(quantity(1536.0)), "1.5KiB");
    assert_eq!(human_bytes(quantity(1048576.0)), "1.0MiB");
    assert_eq!(human_bytes(quantity(1073741824.0)), "1.0GiB");
    assert_eq!(human_bytes(quantity(1099511627776.0)), "1.0TiB");
    assert_eq!(human_bytes(quantity(1125899906842624.0)), "1.0PiB");
    assert_eq!(human_bytes(quantity(1125899906842624.0 * 5000.0)), "5000.0PiB");
    assert_eq!(human_bytes(quantity(1023.99)), "1024.0B");
}

#[test]
fn sizes_match_formatting() {
    for &a in &numbers(4000) {
        assert_eq!(human_bytes(quantity(a)), human(a), "{a:e}");
    }
}

#[test]
fn counting_up_is_exact() {
    let one = Quantity::from_u64(1);
    let mut sum = Quantity::zero();
    for v in 1..5000u64 {
        sum = sum.plus(one);
        assert_eq!(sum.bits, Quantity::from_u64(v).bits);
    }
    let top = Quantity::from_u64(9007199254740992);
    assert_eq!(top.plus(one).bits, top.bits);
}
