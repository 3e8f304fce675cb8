//! The band of lags that is searched: the periods of 1200 Hz and of 60 Hz at the
//! given sample rate, the longer one cut to the frame.

use vstd::prelude::*;
use vstd::arithmetic::power2::{
    lemma2_to64, lemma_pow2_adds, lemma_pow2_pos, lemma_pow2_strictly_increases,
    lemma_pow2_unfold, pow2,
};
use vstd::arithmetic::div_mod::{
    lemma_basic_div, lemma_div_by_multiple, lemma_div_denominator, lemma_div_is_ordered,
    lemma_div_multiples_vanish_quotient,
};
use crate::binary32::{
    abs_bits, exponent, fraction, is_nan, is_negative, magnitude, nan, shift, significand,
    LEADING_ONE, SIGN,
};

verus! {

/// The lowest pitch that is looked for, in Hz.
pub const LOWEST: u32 = 60;

/// The highest pitch that is looked for, in Hz.
pub const HIGHEST: u32 = 1200;

/// The lags `start <= i < end`.
#[derive(Clone, Copy, Debug, PartialEq, Eq, Structural)]
pub struct Band {
    pub start: usize,
    pub end: usize,
}

/// How many whole periods of `frequency` fit into one second's worth of samples:
/// the floor of the sample rate divided by `frequency`, taken of the exact number
/// that the pattern `sample_rate` denotes. A NaN or a negative rate gives 0, and
/// what exceeds `usize::MAX` (positive infinity too) gives `usize::MAX`.
pub open spec fn whole_periods(sample_rate: u32, frequency: nat) -> nat {
    if is_nan(sample_rate) || is_negative(sample_rate) {
        0
    } else {
        let quotient = magnitude(sample_rate) / (frequency * pow2(149));
        if quotient > usize::MAX {
            usize::MAX as nat
        } else {
            quotient
        }
    }
}

/// The band for a frame of `n` samples: from the period of 1200 Hz up to, but not
/// including, the period of 60 Hz or lag `n - 1`, whichever is smaller. `None` where
/// the frame is empty or the band holds no lag.
pub open spec fn band_of(sample_rate: u32, n: nat) -> Option<Band> {
    let start = whole_periods(sample_rate, HIGHEST as nat);
    let longest = whole_periods(sample_rate, LOWEST as nat);
    if n == 0 {
        None
    } else {
        let end = if longest < n - 1 { longest } else { (n - 1) as nat };
        if start >= end {
            None
        } else {
            Some(Band { start: start as usize, end: end as usize })
        }
    }
}

proof fn lemma_scale_up(sig: nat, up: nat, frequency: nat)
    requires
        frequency > 0,
    ensures
        (sig * pow2(up + 149)) / (frequency * pow2(149)) == (sig * pow2(up)) / frequency,
{
    let unit = pow2(149);
    lemma_pow2_adds(up, 149);
    lemma_pow2_pos(149);
    assert(sig * pow2(up + 149) == unit * (sig * pow2(up))) by (nonlinear_arith)
        requires
            pow2(up + 149) == pow2(up) * unit,
    ;
    assert(frequency * unit == unit * frequency) by (nonlinear_arith);
    lemma_div_multiples_vanish_quotient(unit as int, (sig * pow2(up)) as int, frequency as int);
}

proof fn lemma_scale_down(sig: nat, sh: nat, down: nat, frequency: nat)
    requires
        frequency > 0,
        sh + down == 149,
    ensures
        (sig * pow2(sh)) / (frequency * pow2(149)) == (sig / pow2(down)) / frequency,
{
    let p = pow2(sh);
    let d = pow2(down);
    lemma_pow2_adds(sh, down);
    lemma_pow2_pos(sh);
    lemma_pow2_pos(down);
    assert(frequency * pow2(149) == p * (d * frequency)) by (nonlinear_arith)
        requires
            pow2(149) == p * d,
    ;
    assert(sig * p == p * sig) by (nonlinear_arith);
    assert(0 < d * frequency) by (nonlinear_arith)
        requires
            0 < d,
            0 < frequency,
    ;
    lemma_div_multiples_vanish_quotient(p as int, sig as int, (d * frequency) as int);
    lemma_div_denominator(sig as int, d as int, frequency as int);
}

/// `2^k`, for `k` up to 72.
fn power_of_two(k: u32) -> (r: u128)
    requires
        k <= 72,
    ensures
        r == pow2(k as nat),
        r <= 0x1_0000_0000_0000_0000_00,
{
    proof {
        lemma2_to64();
        lemma_pow2_adds(64, 8);
    }
    let mut r: u128 = 1;
    let mut i: u32 = 0;
    while i < k
        invariant
            i <= k <= 72,
            r == pow2(i as nat),
            pow2(72) == 0x1_0000_0000_0000_0000_00,
        decreases k - i,
    {
        proof {
            lemma_pow2_unfold((i + 1) as nat);
            if i + 1 < 72 {
                lemma_pow2_strictly_increases((i + 1) as nat, 72);
            }
        }
        r = r * 2;
        i = i + 1;
    }
    proof {
        if k < 72 {
            lemma_pow2_strictly_increases(k as nat, 72);
        }
    }
    r
}

/// The floor of the sample rate divided by `frequency`, as a count of samples.
pub fn periods(sample_rate: u32, frequency: u32) -> (r: usize)
    requires
        frequency > 0,
    ensures
        r == whole_periods(sample_rate, frequency as nat),
{
    if nan(sample_rate) || sample_rate >= SIGN {
        return 0;
    }
    let e: u32 = sample_rate / LEADING_ONE;
    let f: u32 = sample_rate % LEADING_ONE;
    let sig: u32 = if e == 0 { f } else { LEADING_ONE + f };
    let sh: u32 = if e == 0 { 0 } else { e - 1 };
    assert(abs_bits(sample_rate) == sample_rate);
    assert(e == exponent(sample_rate) && f == fraction(sample_rate));
    assert(sig == significand(sample_rate) && sh == shift(sample_rate));
    let whole: u128 = if sh >= 149 {
        let up: u32 = sh - 149;
        proof {
            lemma_scale_up(sig as nat, up as nat, frequency as nat);
        }
        if up > 72 {
            proof {
                // At least 2^96 units of one sample: the quotient cannot fit.
                lemma2_to64();
                lemma_pow2_adds(64, 9);
                if up > 73 {
                    lemma_pow2_strictly_increases(73, up as nat);
                }
                let product = sig as nat * pow2(up as nat);
                let floor = frequency as nat * pow2(64);
                assert(floor <= product) by (nonlinear_arith)
                    requires
                        product == sig as nat * pow2(up as nat),
                        floor == frequency as nat * pow2(64),
                        pow2(up as nat) >= pow2(73),
                        pow2(73) == pow2(64) * 0x200,
                        sig >= 0x80_0000,
                        frequency < 0x1_0000_0000,
                        pow2(64) > 0,
                ;
                lemma_div_is_ordered(floor as int, product as int, frequency as int);
                lemma_div_by_multiple(pow2(64) as int, frequency as int);
                assert(floor == pow2(64) * frequency) by (nonlinear_arith)
                    requires
                        floor == frequency as nat * pow2(64),
                ;
            }
            return usize::MAX;
        }
        let factor: u128 = power_of_two(up);
        assert(sig as u128 * factor <= u128::MAX) by (nonlinear_arith)
            requires
                sig < 0x100_0000,
                factor <= 0x1_0000_0000_0000_0000_00,
        ;
        sig as u128 * factor
    } else {
        let down: u32 = 149 - sh;
        proof {
            lemma_scale_down(sig as nat, sh as nat, down as nat, frequency as nat);
        }
        if down >= 24 {
            proof {
                lemma2_to64();
                if down > 24 {
                    lemma_pow2_strictly_increases(24, down as nat);
                }
                lemma_basic_div(sig as int, pow2(down as nat) as int);
            }
            0
        } else {
            let divisor: u128 = power_of_two(down);
            proof {
                lemma_pow2_pos(down as nat);
            }
            sig as u128 / divisor
        }
    };
    let quotient: u128 = whole / (frequency as u128);
    if quotient > usize::MAX as u128 {
        usize::MAX
    } else {
        quotient as usize
    }
}

/// The shortest lag of the band, the period of 1200 Hz.
pub fn min_lag(sample_rate: u32) -> (r: usize)
    ensures
        r == whole_periods(sample_rate, HIGHEST as nat),
{
    periods(sample_rate, HIGHEST)
}

/// The longest lag of the band before it is cut to the frame, the period of 60 Hz.
pub fn max_lag(sample_rate: u32) -> (r: usize)
    ensures
        r == whole_periods(sample_rate, LOWEST as nat),
{
    periods(sample_rate, LOWEST)
}

/// The band of lags to search in a frame of `n` samples.
pub fn search_band(sample_rate: u32, n: usize) -> (r: Option<Band>)
    ensures
        r == band_of(sample_rate, n as nat),
        n == 0 ==> r is None,
        r matches Some(band) ==> band.start < band.end < n,
{
    if n == 0 {
        return None;
    }
    let start: usize = min_lag(sample_rate);
    let longest: usize = max_lag(sample_rate);
    let end: usize = if longest < n - 1 { longest } else { n - 1 };
    if start >= end {
        None
    } else {
        Some(Band { start, end })
    }
}

} // verus!
