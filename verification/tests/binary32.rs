use tuner_wasm::binary32::{gt, nan, INFINITY, LEADING_ONE, MINUS_ONE, SIGN, ZERO};

fn special_values() -> Vec<f32> {
    vec![
        0.0,
        -0.0,
        1.0,
        -1.0,
        0.5,
        -0.5,
        2.0,
        -2.0,
        1.0e-40,
        -1.0e-40,
        f32::from_bits(1),
        f32::from_bits(0x8000_0001),
        f32::MIN_POSITIVE,
        -f32::MIN_POSITIVE,
        f32::from_bits(0x007f_ffff),
        f32::MAX,
        f32::MIN,
        f32::INFINITY,
        f32::NEG_INFINITY,
        f32::NAN,
        f32::from_bits(0xffc0_0000),
        f32::from_bits(0x7f80_0001),
        f32::from_bits(0xffff_ffff),
        440.0,
        44100.0,
        -1.0000001,
        -0.99999994,
        3.4e38,
        1.17549421e-38,
    ]
}

#[test]
fn constants_are_the_patterns_they_name() {
    assert_eq!(ZERO, 0.0f32.to_bits());
    assert_eq!(MINUS_ONE, (-1.0f32).to_bits());
    assert_eq!(INFINITY, f32::INFINITY.to_bits());
    assert_eq!(SIGN, (-0.0f32).to_bits());
    assert_eq!(LEADING_ONE, f32::MIN_POSITIVE.to_bits());
}

#[test]
fn gt_agrees_with_the_machine_on_special_values() {
    let values = special_values();
    for &a in values.iter() {
        for &b in values.iter() {
            assert_eq!(gt(a.to_bits(), b.to_bits()), a > b, "{:?} > {:?}", a, b);
        }
    }
}

#[test]
fn gt_agrees_with_the_machine_on_scattered_patterns() {
    let mut state: u64 = 0x9e37_79b9_7f4a_7c15;
    let mut count: u32 = 0;
    while count < 200_000 {
        state = state.wrapping_mul(6364136223846793005).wrapping_add(1442695040888963407);
        let a = (state >> 32) as u32;
        state = state.wrapping_mul(6364136223846793005).wrapping_add(1442695040888963407);
        let b = (state >> 32) as u32;
        assert_eq!(gt(a, b), f32::from_bits(a) > f32::from_bits(b), "{:#x} > {:#x}", a, b);
        count += 1;
    }
}

#[test]
fn gt_agrees_with_the_machine_on_neighbouring_patterns() {
    let centres: [u32; 8] =
        [0, 0x0080_0000, 0x3f80_0000, 0x7f7f_ffff, 0x7f80_0000, 0x8000_0000, 0xbf80_0000, 0xff80_0000];
    for &centre in centres.iter() {
        for da in 0..5u32 {
            for db in 0..5u32 {
                let a = centre.wrapping_add(da).wrapping_sub(2);
                let b = centre.wrapping_add(db).wrapping_sub(2);
                assert_eq!(gt(a, b), f32::from_bits(a) > f32::from_bits(b), "{:#x} > {:#x}", a, b);
            }
        }
    }
}

#[test]
fn one_is_greater_than_a_half() {
    assert!(gt(0x3f80_0000, 0x3f00_0000));
    assert!(!gt(0x3f00_0000, 0x3f80_0000));
    assert!(!gt(0x3f80_0000, 0x3f80_0000));
}

#[test]
fn negative_numbers_order_against_their_patterns() {
    // -0.5 > -2 although its pattern is the smaller one.
    assert!(gt(0xbf00_0000, 0xc000_0000));
    assert!(!gt(0xc000_0000, 0xbf00_0000));
}

#[test]
fn the_two_zeros_are_equal() {
    assert!(!gt(ZERO, SIGN));
    assert!(!gt(SIGN, ZERO));
    assert!(gt(1, SIGN));
    assert!(gt(ZERO, SIGN + 1));
}

#[test]
fn a_nan_is_never_greater_nor_smaller() {
    let nans: [u32; 4] = [0x7fc0_0000, 0x7f80_0001, 0xffc0_0000, 0xffff_ffff];
    for &n in nans.iter() {
        for &x in [ZERO, MINUS_ONE, INFINITY, 0xff80_0000u32, n].iter() {
            assert!(!gt(n, x));
            assert!(!gt(x, n));
        }
    }
}

#[test]
fn infinity_exceeds_every_finite_number() {
    assert!(gt(INFINITY, 0x7f7f_ffff));
    assert!(gt(0xff7f_ffff, 0xff80_0000));
    assert!(gt(INFINITY, 0xff80_0000));
}

#[test]
fn nan_recognises_the_patterns_above_infinity() {
    assert!(!nan(ZERO));
    assert!(!nan(INFINITY));
    assert!(!nan(0xff80_0000));
    assert!(!nan(0x7f7f_ffff));
    assert!(nan(0x7f80_0001));
    assert!(nan(0xff80_0001));
    assert!(nan(0x7fc0_0000));
    assert!(nan(0xffff_ffff));
    for &v in special_values().iter() {
        assert_eq!(nan(v.to_bits()), v.is_nan());
    }
}
