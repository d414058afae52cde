use wlight::binary64::{epsilon, full_scale, hundred, unity, zero, Binary64};

fn number(value: f64) -> Binary64 {
    Binary64 {
        bits: value.to_bits(),
    }
}

fn same(found: Binary64, expected: f64) -> bool {
    if expected.is_nan() {
        found.is_nan()
    } else {
        found.bits == expected.to_bits()
    }
}

fn samples() -> Vec<f64> {
    let mut values = vec![
        0.0,
        -0.0,
        1.0,
        -1.0,
        0.1,
        0.2,
        0.3,
        0.25,
        0.5,
        0.63,
        0.632,
        0.9875,
        1.5,
        2.0,
        2.5,
        3.0,
        7.0,
        10.0,
        63.0,
        99.5,
        100.0,
        100.5,
        255.0,
        32767.5,
        65535.0,
        65536.0,
        1e-3,
        1e-10,
        1e10,
        1e15,
        1e16,
        1e100,
        1e-100,
        1e300,
        1e-300,
        5e-324,
        1e-320,
        2.2250738585072014e-308,
        2.225073858507201e-308,
        1.7976931348623157e308,
        f64::EPSILON,
        f64::INFINITY,
        f64::NEG_INFINITY,
        f64::NAN,
        0.1 + 0.2,
        1.0 - f64::EPSILON / 2.0,
        1.0 + f64::EPSILON,
    ];
    let mut state = 0x9e37_79b9_7f4a_7c15_u64;
    for _ in 0..150 {
        state = state
            .wrapping_mul(6_364_136_223_846_793_005)
            .wrapping_add(1_442_695_040_888_963_407);
        values.push(f64::from_bits(state));
        values.push((state >> 11) as f64 / (1_u64 << 53) as f64);
        values.push(((state >> 20) % 100_000) as f64 / 1000.0);
    }
    values
}

#[test]
fn products_are_those_of_the_machine() {
    let values = samples();
    for &a in &values {
        for &b in &values {
            let found = number(a).times(number(b));
            assert!(same(found, a * b), "{a:e} * {b:e} gave {:#x}", found.bits);
        }
    }
}

#[test]
fn quotients_are_those_of_the_machine() {
    let values = samples();
    for &a in &values {
        for &b in &values {
            let found = number(a).over(number(b));
            assert!(same(found, a / b), "{a:e} / {b:e} gave {:#x}", found.bits);
        }
    }
}

#[test]
fn distances_are_those_of_the_machine() {
    let values = samples();
    for &a in &values {
        for &b in &values {
            let found = number(a).distance(number(b));
            assert!(
                same(found, (a - b).abs()),
                "|{a:e} - {b:e}| gave {:#x}",
                found.bits
            );
        }
    }
}

#[test]
fn comparisons_are_those_of_the_machine() {
    let values = samples();
    for &a in &values {
        assert_eq!(number(a).is_nan(), a.is_nan());
        assert_eq!(number(a).is_finite(), a.is_finite());
        assert_eq!(
            number(a).is_fraction(),
            a.is_finite() && (0.0..=1.0).contains(&a)
        );
        assert_eq!(
            number(a).is_percentage(),
            a.is_finite() && (0.0..=100.0).contains(&a)
        );
        for &b in &values {
            assert_eq!(number(a).is_below(number(b)), a < b, "{a:e} < {b:e}");
        }
        assert!(same(
            number(a).clamp(number(0.0), number(100.0)),
            a.clamp(0.0, 100.0)
        ));
    }
}

#[test]
fn whole_numbers_are_rounded_to_the_nearest() {
    for n in [
        0_u64,
        1,
        2,
        3,
        99,
        100,
        65_535,
        (1 << 53) - 1,
        1 << 53,
        (1 << 53) + 1,
        (1 << 53) + 2,
        (1 << 53) + 3,
        (1 << 54) + 2,
        (1 << 54) + 6,
        u64::MAX - 1024,
        u64::MAX - 1023,
        u64::MAX,
    ] {
        assert_eq!(Binary64::whole(n).bits, (n as f64).to_bits(), "{n}");
    }
}

#[test]
fn rounding_to_whole_numbers_saturates() {
    for &value in &samples() {
        if value >= 0.0 {
            assert_eq!(number(value).ceil_u16(), value.ceil() as u16, "{value:e}");
            assert_eq!(number(value).round_u16(), value.round() as u16, "{value:e}");
        }
    }
    for n in 0..400_u32 {
        let value = f64::from(n) / 4.0;
        assert_eq!(number(value).ceil_u16(), value.ceil() as u16);
        assert_eq!(number(value).round_u16(), value.round() as u16);
    }
}

#[test]
fn named_numbers_are_encoded_as_the_machine_does() {
    assert_eq!(zero().bits, 0.0_f64.to_bits());
    assert_eq!(unity().bits, 1.0_f64.to_bits());
    assert_eq!(hundred().bits, 100.0_f64.to_bits());
    assert_eq!(full_scale().bits, f64::from(u16::MAX).to_bits());
    assert_eq!(epsilon().bits, f64::EPSILON.to_bits());
    assert_eq!(
        wlight::brightness::DEFAULT_HARDWARE_FLOOR,
        0.20_f64.to_bits()
    );
}
