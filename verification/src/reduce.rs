//! Amplitude reducer: one pixel height per input sample.
//!
//! Samples are fixed-point values: `SAMPLE_SCALE` stands for an amplitude of
//! 1.0, the nominal full scale. Decoders may overshoot slightly, so samples
//! up to `MAX_SAMPLE_MAG` (an amplitude of 16.0) are accepted.
//!
//! A sample `s` maps to `round(factor * |s| * height)` where `factor` is 2.0
//! in plain mode and `2.0 * max(|s|)` over the whole sequence in normalized
//! mode. Negative samples pass through the negative reference bound -1.0,
//! positive ones through +1.0, so both excursions produce the same
//! non-negative deflection magnitude.

use vstd::prelude::*;
use crate::math::{rounded_div, rounded_div_u128, lemma_rounded_div_bounds};

verus! {

/// Fixed-point representation of the amplitude 1.0.
pub const SAMPLE_SCALE: i64 = 65536;

/// Largest accepted sample magnitude (amplitude 16.0); tolerance for
/// out-of-range excursions from imperfect decoding.
pub const MAX_SAMPLE_MAG: i64 = 1048576;

pub open spec fn abs_val(s: int) -> int {
    if s < 0 {
        -s
    } else {
        s
    }
}

/// Every sample within the accepted magnitude bound.
pub open spec fn samples_bounded(s: Seq<i64>) -> bool {
    forall|i: int| 0 <= i < s.len() ==> -MAX_SAMPLE_MAG <= #[trigger] s[i] <= MAX_SAMPLE_MAG
}

/// Largest sample magnitude of the sequence; 0 for the empty sequence.
pub open spec fn seq_max_mag(s: Seq<i64>) -> int
    decreases s.len(),
{
    if s.len() == 0 {
        0
    } else {
        let rest = seq_max_mag(s.drop_last());
        let a = abs_val(s.last() as int);
        if a > rest {
            a
        } else {
            rest
        }
    }
}

/// Numerator of the scale factor over the fixed denominator `SAMPLE_SCALE`:
/// the factor is 2.0 plain, or twice the loudest magnitude when normalizing.
pub open spec fn scale_factor_num(s: Seq<i64>, normalize: bool) -> int {
    if normalize {
        2 * seq_max_mag(s)
    } else {
        2 * SAMPLE_SCALE
    }
}

/// Height of one sample: `round(factor * |s| * height)` with the factor given
/// as `factor_num / SAMPLE_SCALE` and the sample as `s / SAMPLE_SCALE`.
pub open spec fn spec_height(s: int, factor_num: int, height: int) -> int {
    rounded_div(factor_num * abs_val(s) * height, SAMPLE_SCALE * SAMPLE_SCALE)
}

proof fn lemma_seq_max_mag_bounds(s: Seq<i64>)
    requires
        samples_bounded(s),
    ensures
        0 <= seq_max_mag(s) <= MAX_SAMPLE_MAG,
        forall|i: int| 0 <= i < s.len() ==> abs_val(#[trigger] s[i] as int) <= seq_max_mag(s),
    decreases s.len(),
{
    if s.len() > 0 {
        assert(samples_bounded(s.drop_last())) by {
            assert(forall|i: int|
                0 <= i < s.len() - 1 ==> s.drop_last()[i] == #[trigger] s[i]);
        }
        lemma_seq_max_mag_bounds(s.drop_last());
        assert(forall|i: int| 0 <= i < s.len() - 1 ==> #[trigger] s[i] == s.drop_last()[i]);
    }
}

/// Loudest magnitude of the sequence, 0 when it is empty or silent.
pub fn max_magnitude(samples: &Vec<i64>) -> (m: i64)
    requires
        samples_bounded(samples@),
    ensures
        m == seq_max_mag(samples@),
        0 <= m <= MAX_SAMPLE_MAG,
{
    let ghost all = samples@;
    let mut m: i64 = 0;
    let mut i: usize = 0;
    proof {
        lemma_seq_max_mag_bounds(all);
        assert(all.take(0) =~= Seq::<i64>::empty());
    }
    while i < samples.len()
        invariant
            0 <= i <= all.len(),
            samples@ == all,
            samples_bounded(all),
            m == seq_max_mag(all.take(i as int)),
            0 <= m <= MAX_SAMPLE_MAG,
        decreases all.len() - i,
    {
        let s = samples[i];
        let a = if s < 0 {
            -s
        } else {
            s
        };
        proof {
            assert(all.take(i + 1).drop_last() =~= all.take(i as int));
            assert(all.take(i + 1).last() == all[i as int]);
        }
        if a > m {
            m = a;
        }
        i = i + 1;
    }
    proof {
        assert(all.take(all.len() as int) =~= all);
    }
    m
}

/// One height per sample, in input order (the output length always equals the
/// input length). Heights are the non-negative vertical deflections described
/// by `spec_height`, under the mode's scale factor.
pub fn reduce_heights(samples: &Vec<i64>, height: u32, normalize: bool) -> (r: Vec<u64>)
    requires
        samples_bounded(samples@),
    ensures
        r@.len() == samples@.len(),
        forall|i: int|
            0 <= i < r@.len() ==> #[trigger] r@[i] as int == spec_height(
                samples@[i] as int,
                scale_factor_num(samples@, normalize),
                height as int,
            ),
        forall|i: int| 0 <= i < r@.len() ==> #[trigger] r@[i] <= 2199023255553u64,
{
    let factor_num: i64 = if normalize {
        2 * max_magnitude(samples)
    } else {
        2 * SAMPLE_SCALE
    };
    let ghost fnum = factor_num as int;
    assert(fnum == scale_factor_num(samples@, normalize));
    assert(0 <= fnum <= 2 * MAX_SAMPLE_MAG);
    let mut r: Vec<u64> = Vec::new();
    let mut i: usize = 0;
    while i < samples.len()
        invariant
            0 <= i <= samples@.len(),
            r@.len() == i,
            0 <= fnum <= 2 * MAX_SAMPLE_MAG,
            fnum == factor_num,
            samples_bounded(samples@),
            forall|j: int|
                0 <= j < i ==> #[trigger] r@[j] as int == spec_height(
                    samples@[j] as int,
                    fnum,
                    height as int,
                ),
            forall|j: int| 0 <= j < i ==> #[trigger] r@[j] <= 2199023255553u64,
        decreases samples@.len() - i,
    {
        let s = samples[i];
        let a: i64 = if s < 0 {
            -s
        } else {
            s
        };
        proof {
            assert(fnum * (a as int) * (height as int) <= 2 * MAX_SAMPLE_MAG * MAX_SAMPLE_MAG
                * u32::MAX) by (nonlinear_arith)
                requires
                    0 <= fnum <= 2 * MAX_SAMPLE_MAG,
                    0 <= a <= MAX_SAMPLE_MAG,
                    0 <= height <= u32::MAX,
            ;
            assert(0 <= fnum * (a as int) <= 2 * MAX_SAMPLE_MAG * MAX_SAMPLE_MAG
                && fnum * (a as int) * (height as int) >= 0) by (nonlinear_arith)
                requires
                    0 <= fnum <= 2 * MAX_SAMPLE_MAG,
                    0 <= a <= MAX_SAMPLE_MAG,
                    height >= 0,
            ;
        }
        let num: u128 = (factor_num as u128) * (a as u128) * (height as u128);
        let den: u128 = (SAMPLE_SCALE as u128) * (SAMPLE_SCALE as u128);
        proof {
            lemma_rounded_div_bounds(num as int, den as int);
            assert(num as int / den as int <= 2199023255552int) by (nonlinear_arith)
                requires
                    0 <= num <= 2 * MAX_SAMPLE_MAG * MAX_SAMPLE_MAG * u32::MAX,
                    den == SAMPLE_SCALE * SAMPLE_SCALE,
            ;
        }
        let h = rounded_div_u128(num, den);
        assert(h <= 2199023255553);
        r.push(h as u64);
        assert(spec_height(s as int, fnum, height as int) == rounded_div(num as int, den as int));
        i = i + 1;
    }
    r
}

proof fn lemma_seq_max_mag_zero(s: Seq<i64>)
    requires
        forall|i: int| 0 <= i < s.len() ==> #[trigger] s[i] == 0,
    ensures
        seq_max_mag(s) == 0,
    decreases s.len(),
{
    if s.len() > 0 {
        lemma_seq_max_mag_zero(s.drop_last());
    }
}

/// Silence is rendered as silence: when every sample is zero, normalized mode
/// degenerates to a zero scale factor and every height is zero, with no
/// division involved anywhere.
pub proof fn lemma_silence_normalized(s: Seq<i64>, height: int)
    requires
        forall|i: int| 0 <= i < s.len() ==> #[trigger] s[i] == 0,
        height >= 0,
    ensures
        scale_factor_num(s, true) == 0,
        forall|i: int|
            0 <= i < s.len() ==> spec_height(#[trigger] s[i] as int, scale_factor_num(s, true), height)
                == 0,
{
    lemma_seq_max_mag_zero(s);
    assert forall|i: int| 0 <= i < s.len() implies spec_height(
        #[trigger] s[i] as int,
        scale_factor_num(s, true),
        height,
    ) == 0 by {
        let f = scale_factor_num(s, true);
        assert(f == 0);
        assert(f * abs_val(s[i] as int) * height == 0) by (nonlinear_arith)
            requires
                f == 0,
        ;
        lemma_rounded_div_bounds(0, SAMPLE_SCALE * SAMPLE_SCALE);
    }
}

/// A sample at exactly full scale maps, in plain (non-normalized) mode, to a
/// height of exactly twice the image height.
pub proof fn lemma_full_scale_height(s: int, height: int)
    requires
        abs_val(s) == SAMPLE_SCALE,
        height >= 0,
    ensures
        spec_height(s, 2 * SAMPLE_SCALE, height) == 2 * height,
{
    let den = SAMPLE_SCALE * SAMPLE_SCALE;
    assert(2 * SAMPLE_SCALE * abs_val(s) * height == 2 * height * den) by (nonlinear_arith)
        requires
            abs_val(s) == SAMPLE_SCALE,
            den == SAMPLE_SCALE * SAMPLE_SCALE,
    ;
    assert((2 * (2 * height * den) + den) / (2 * den) == 2 * height) by (nonlinear_arith)
        requires
            den == SAMPLE_SCALE * SAMPLE_SCALE,
            height >= 0,
    ;
}

} // verus!
