//! Column aggregator: buckets per-sample heights into oversampled columns.
//!
//! Column `x` of `width` covers the half-open sample window
//! `[round(x * n / width), min(round((x+1) * n / width), n))` over the `n`
//! heights, and its value is the rounded arithmetic mean of that window.
//! Interleaved channels are deliberately blended: the window runs over the
//! raw height sequence, not over channel frames.
//!
//! When a window is empty (possible only when `width > n`), the column value
//! is 0: an empty bucket draws no bar, and no division happens.

use vstd::prelude::*;
use crate::math::{rounded_div, rounded_div_u128, lemma_rounded_div_bounds, lemma_rounded_div_monotone};

verus! {

/// Largest height value the aggregator accepts; generous room above anything
/// `spec_height` can produce under the reducer's sample bounds.
pub const HEIGHT_CAP: u64 = 4398046511104;

/// Every height below the accepted cap.
pub open spec fn heights_bounded(s: Seq<u64>) -> bool {
    forall|i: int| 0 <= i < s.len() ==> #[trigger] s[i] <= HEIGHT_CAP
}

/// First sample index of column `x`.
pub open spec fn col_start(n: int, width: int, x: int) -> int {
    rounded_div(x * n, width)
}

/// One-past-last sample index of column `x`.
pub open spec fn col_end(n: int, width: int, x: int) -> int {
    let e = rounded_div((x + 1) * n, width);
    if e > n {
        n
    } else {
        e
    }
}

/// Sum of a height sequence.
pub open spec fn seq_sum(s: Seq<u64>) -> int
    decreases s.len(),
{
    if s.len() == 0 {
        0
    } else {
        seq_sum(s.drop_last()) + s.last()
    }
}

/// Value of column `x`: the rounded mean of its window, or 0 for an empty
/// window.
pub open spec fn column_value(heights: Seq<u64>, width: int, x: int) -> int {
    let st = col_start(heights.len() as int, width, x);
    let en = col_end(heights.len() as int, width, x);
    if en <= st {
        0
    } else {
        rounded_div(seq_sum(heights.subrange(st, en)), en - st)
    }
}

/// Window bounds are ordered and stay inside the height sequence.
pub proof fn lemma_col_window_in_range(n: int, width: int, x: int)
    requires
        n >= 0,
        width >= 1,
        0 <= x < width,
    ensures
        0 <= col_start(n, width, x) <= col_end(n, width, x) <= n,
{
    assert(0 <= (2 * (x * n) + width) / (2 * width) <= n) by (nonlinear_arith)
        requires
            n >= 0,
            width >= 1,
            0 <= x < width,
    ;
    assert(x * n <= (x + 1) * n) by (nonlinear_arith)
        requires
            n >= 0,
    ;
    lemma_rounded_div_monotone(x * n, (x + 1) * n, width);
}

proof fn lemma_seq_sum_bound(s: Seq<u64>, cap: int)
    requires
        forall|i: int| 0 <= i < s.len() ==> #[trigger] s[i] <= cap,
        cap >= 0,
    ensures
        0 <= seq_sum(s) <= s.len() * cap,
    decreases s.len(),
{
    if s.len() == 0 {
    } else {
        assert(forall|i: int| 0 <= i < s.len() - 1 ==> #[trigger] s.drop_last()[i] == s[i]);
        lemma_seq_sum_bound(s.drop_last(), cap);
        assert((s.len() - 1) * cap + cap == s.len() * cap) by (nonlinear_arith);
    }
}

/// One value per column: the output length is always `width`, whatever the
/// input length, including `width > heights.len()` where some windows are
/// empty and yield 0.
pub fn aggregate_columns(heights: &Vec<u64>, width: u32) -> (r: Vec<u64>)
    requires
        width >= 1,
        heights_bounded(heights@),
    ensures
        r@.len() == width,
        forall|x: int|
            0 <= x < width ==> #[trigger] r@[x] as int == column_value(heights@, width as int, x),
        forall|x: int| 0 <= x < width ==> #[trigger] r@[x] <= HEIGHT_CAP + 1,
{
    let n: usize = heights.len();
    let mut r: Vec<u64> = Vec::new();
    let mut x: u32 = 0;
    while x < width
        invariant
            0 <= x <= width,
            r@.len() == x,
            n == heights@.len(),
            heights_bounded(heights@),
            forall|j: int|
                0 <= j < x ==> #[trigger] r@[j] as int == column_value(heights@, width as int, j),
            forall|j: int| 0 <= j < x ==> #[trigger] r@[j] <= HEIGHT_CAP + 1,
        decreases width - x,
    {
        proof {
            lemma_col_window_in_range(n as int, width as int, x as int);
            assert(0 <= (x as int) * (n as int) <= ((x as int) + 1) * (n as int)
                <= 79228162514264337593543950336int) by (nonlinear_arith)
                requires
                    0 <= x < 4294967296,
                    0 <= n <= 18446744073709551615,
            ;
        }
        let st128: u128 = rounded_div_u128((x as u128) * (n as u128), width as u128);
        let en_raw: u128 = rounded_div_u128((x as u128 + 1) * (n as u128), width as u128);
        let en128: u128 = if en_raw > n as u128 {
            n as u128
        } else {
            en_raw
        };
        let st: usize = st128 as usize;
        let en: usize = en128 as usize;
        assert(st == col_start(n as int, width as int, x as int));
        assert(en == col_end(n as int, width as int, x as int));
        let value: u64 = if en <= st {
            0
        } else {
            let ghost window = heights@.subrange(st as int, en as int);
            let mut sum: u128 = 0;
            let mut j: usize = st;
            proof {
                lemma_seq_sum_bound(window, HEIGHT_CAP as int);
                assert(window.subrange(0, 0) =~= Seq::<u64>::empty());
            }
            while j < en
                invariant
                    st <= j <= en <= n,
                    n == heights@.len(),
                    heights_bounded(heights@),
                    window == heights@.subrange(st as int, en as int),
                    sum == seq_sum(window.subrange(0, j - st)),
                    sum <= (j - st) * HEIGHT_CAP,
                decreases en - j,
            {
                proof {
                    let k = j - st;
                    assert(window.subrange(0, k + 1).drop_last() =~= window.subrange(0, k));
                    assert(window.subrange(0, k + 1).last() == heights@[j as int]);
                    assert((k + 1) * HEIGHT_CAP == k * HEIGHT_CAP + HEIGHT_CAP) by (nonlinear_arith);
                }
                sum = sum + heights[j] as u128;
                j = j + 1;
            }
            proof {
                assert(window.subrange(0, en - st) =~= window);
                let cnt = en - st;
                lemma_rounded_div_bounds(sum as int, cnt as int);
                assert(sum as int / cnt as int <= HEIGHT_CAP) by (nonlinear_arith)
                    requires
                        cnt >= 1,
                        0 <= sum <= cnt * HEIGHT_CAP,
                ;
            }
            let mean = rounded_div_u128(sum, (en - st) as u128);
            mean as u64
        };
        r.push(value);
        x = x + 1;
    }
    r
}

proof fn lemma_seq_sum_const(s: Seq<u64>, c: u64)
    requires
        forall|i: int| 0 <= i < s.len() ==> #[trigger] s[i] == c,
    ensures
        seq_sum(s) == s.len() * c,
    decreases s.len(),
{
    if s.len() == 0 {
    } else {
        assert(forall|i: int| 0 <= i < s.len() - 1 ==> #[trigger] s.drop_last()[i] == s[i]);
        lemma_seq_sum_const(s.drop_last(), c);
        assert((s.len() - 1) * c + c == s.len() * c) by (nonlinear_arith);
    }
}

/// Aggregating a constant height sequence that is at least as long as the
/// column count gives that same constant in every column: every window is
/// non-empty and the mean of a constant is the constant.
pub proof fn lemma_columns_of_constant(heights: Seq<u64>, width: int, c: u64)
    requires
        width >= 1,
        heights.len() >= width,
        forall|i: int| 0 <= i < heights.len() ==> #[trigger] heights[i] == c,
    ensures
        forall|x: int| 0 <= x < width ==> #[trigger] column_value(heights, width, x) == c,
{
    let n = heights.len() as int;
    assert forall|x: int| 0 <= x < width implies #[trigger] column_value(heights, width, x) == c by {
        lemma_col_window_in_range(n, width, x);
        let st = col_start(n, width, x);
        let en = col_end(n, width, x);
        assert(en > st) by (nonlinear_arith)
            requires
                st == (2 * (x * n) + width) / (2 * width),
                en == if (2 * ((x + 1) * n) + width) / (2 * width) > n {
                    n
                } else {
                    (2 * ((x + 1) * n) + width) / (2 * width)
                },
                1 <= width <= n,
                0 <= x < width,
        ;
        let window = heights.subrange(st, en);
        assert(forall|i: int| 0 <= i < window.len() ==> #[trigger] window[i] == c);
        lemma_seq_sum_const(window, c);
        let cnt = en - st;
        assert(rounded_div(cnt * c, cnt) == c) by (nonlinear_arith)
            requires
                cnt >= 1,
                c >= 0,
        ;
    }
}

} // verus!
