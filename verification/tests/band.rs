use tuner_wasm::band::{max_lag, min_lag, periods, search_band, Band, HIGHEST, LOWEST};

#[test]
fn band_limits_are_sixty_and_twelve_hundred_hertz() {
    assert_eq!(LOWEST, 60);
    assert_eq!(HIGHEST, 1200);
}

#[test]
fn periods_of_common_sample_rates() {
    let table: [(f32, usize, usize); 10] = [
        (44100.0, 36, 735),
        (48000.0, 40, 800),
        (8000.0, 6, 133),
        (22050.0, 18, 367),
        (96000.0, 80, 1600),
        (11025.0, 9, 183),
        (16000.0, 13, 266),
        (192000.0, 160, 3200),
        (800.0, 0, 13),
        (1200.0, 1, 20),
    ];
    for &(rate, shortest, longest) in table.iter() {
        assert_eq!(min_lag(rate.to_bits()), shortest, "{}", rate);
        assert_eq!(max_lag(rate.to_bits()), longest, "{}", rate);
        assert_eq!(periods(rate.to_bits(), 1200), shortest, "{}", rate);
        assert_eq!(periods(rate.to_bits(), 60), longest, "{}", rate);
    }
}

#[test]
fn periods_round_down() {
    assert_eq!(periods(1199.9999f32.to_bits(), 1200), 0);
    assert_eq!(periods(1200.0001f32.to_bits(), 1200), 1);
    assert_eq!(periods(59.999996f32.to_bits(), 60), 0);
    assert_eq!(periods(60.0f32.to_bits(), 60), 1);
    assert_eq!(periods(119.99999f32.to_bits(), 60), 1);
    assert_eq!(periods(7.5f32.to_bits(), 2), 3);
    assert_eq!(periods(7.5f32.to_bits(), 1), 7);
    assert_eq!(periods(0.99999994f32.to_bits(), 1), 0);
}

#[test]
fn periods_agree_with_machine_division_below_sixteen_million() {
    let mut rate: f32 = 0.25;
    while rate < 16_000_000.0 {
        assert_eq!(periods(rate.to_bits(), 1200), (rate / 1200.0) as usize, "{}", rate);
        assert_eq!(periods(rate.to_bits(), 60), (rate / 60.0) as usize, "{}", rate);
        rate = rate * 1.0007 + 0.125;
    }
}

#[test]
fn periods_of_whole_rates_are_the_integer_quotient() {
    let mut bits: u32 = 16_777_216.0f32.to_bits();
    let end: u32 = 1.0e18f32.to_bits();
    while bits < end {
        let whole = f32::from_bits(bits) as u128;
        assert_eq!(periods(bits, 1200) as u128, whole / 1200, "{:#x}", bits);
        assert_eq!(periods(bits, 60) as u128, whole / 60, "{:#x}", bits);
        assert_eq!(periods(bits, 7) as u128, whole / 7, "{:#x}", bits);
        bits += 9973;
    }
}

#[test]
fn periods_are_the_floor_of_the_exact_quotient() {
    // 536873984 / 1200 = 447394.98...: the nearest machine number to the quotient
    // is 447395, the floor of the quotient is 447394.
    let rate: f32 = 536_873_984.0;
    assert_eq!(rate.to_bits(), 0x4e00_0030);
    assert_eq!(periods(rate.to_bits(), 1200), 447_394);
}

#[test]
fn periods_of_a_rate_that_is_no_positive_number_are_zero() {
    assert_eq!(periods(0.0f32.to_bits(), 60), 0);
    assert_eq!(periods((-0.0f32).to_bits(), 60), 0);
    assert_eq!(periods((-44100.0f32).to_bits(), 60), 0);
    assert_eq!(periods(f32::NEG_INFINITY.to_bits(), 60), 0);
    assert_eq!(periods(f32::NAN.to_bits(), 60), 0);
    assert_eq!(periods(0xffc0_0000, 1200), 0);
    assert_eq!(periods(0x7f80_0001, 1200), 0);
}

#[test]
fn periods_of_tiny_rates_are_zero() {
    assert_eq!(periods(1, 1), 0);
    assert_eq!(periods(f32::MIN_POSITIVE.to_bits(), 1), 0);
    assert_eq!(periods(1.0e-10f32.to_bits(), 60), 0);
    assert_eq!(periods(0.5f32.to_bits(), 1), 0);
}

#[test]
fn periods_saturate() {
    assert_eq!(periods(f32::INFINITY.to_bits(), 60), usize::MAX);
    assert_eq!(periods(f32::INFINITY.to_bits(), u32::MAX), usize::MAX);
    assert_eq!(periods(f32::MAX.to_bits(), 1200), usize::MAX);
    assert_eq!(periods(1.0e30f32.to_bits(), 1200), usize::MAX);
    assert_eq!(periods(1.0e30f32.to_bits(), 1200), (1.0e30f32 / 1200.0) as usize);
    let rate: f32 = 4.0e22;
    let exact = (rate as u128) / 1200;
    let expected = if exact > usize::MAX as u128 { usize::MAX } else { exact as usize };
    assert_eq!(periods(rate.to_bits(), 1200), expected);
}

#[test]
fn periods_by_a_large_frequency() {
    assert_eq!(periods(4_294_967_296.0f32.to_bits(), u32::MAX), 1);
    assert_eq!(periods(4_294_967_040.0f32.to_bits(), u32::MAX), 0);
    assert_eq!(periods(1.0e12f32.to_bits(), 1_000_000_000), (1.0e12f32 as u64 / 1_000_000_000) as usize);
}

#[test]
fn band_of_a_long_frame_is_the_whole_band() {
    assert_eq!(search_band(44100.0f32.to_bits(), 2048), Some(Band { start: 36, end: 735 }));
    assert_eq!(search_band(48000.0f32.to_bits(), 4096), Some(Band { start: 40, end: 800 }));
    assert_eq!(search_band(44100.0f32.to_bits(), 737), Some(Band { start: 36, end: 735 }));
    assert_eq!(search_band(44100.0f32.to_bits(), 736), Some(Band { start: 36, end: 735 }));
}

#[test]
fn band_is_cut_to_the_frame() {
    assert_eq!(search_band(44100.0f32.to_bits(), 735), Some(Band { start: 36, end: 734 }));
    assert_eq!(search_band(44100.0f32.to_bits(), 100), Some(Band { start: 36, end: 99 }));
    assert_eq!(search_band(44100.0f32.to_bits(), 38), Some(Band { start: 36, end: 37 }));
    assert_eq!(search_band(800.0f32.to_bits(), 6), Some(Band { start: 0, end: 5 }));
}

#[test]
fn band_collapses_on_a_short_frame() {
    assert_eq!(search_band(44100.0f32.to_bits(), 37), None);
    assert_eq!(search_band(44100.0f32.to_bits(), 30), None);
    assert_eq!(search_band(44100.0f32.to_bits(), 1), None);
    assert_eq!(search_band(800.0f32.to_bits(), 1), None);
}

#[test]
fn band_collapses_on_a_low_sample_rate() {
    assert_eq!(search_band(59.0f32.to_bits(), 2048), None);
    assert_eq!(search_band(0.0f32.to_bits(), 2048), None);
    assert_eq!(search_band((-44100.0f32).to_bits(), 2048), None);
    assert_eq!(search_band(f32::NAN.to_bits(), 2048), None);
    assert_eq!(search_band(60.0f32.to_bits(), 2048), Some(Band { start: 0, end: 1 }));
}

#[test]
fn band_collapses_on_an_unbounded_sample_rate() {
    assert_eq!(search_band(f32::INFINITY.to_bits(), 2048), None);
    assert_eq!(search_band(f32::MAX.to_bits(), 2048), None);
}

#[test]
fn band_of_an_empty_frame_is_none() {
    assert_eq!(search_band(44100.0f32.to_bits(), 0), None);
    assert_eq!(search_band(800.0f32.to_bits(), 0), None);
}
