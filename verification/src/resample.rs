//! Resampler and the assembled pipeline.
//!
//! The oversampled raster is downscaled to the requested width (the height
//! never changes) with the image crate's Lanczos-3 filter, which anti-aliases
//! the hard-edged bars into a smooth envelope. The filter's output is a pure
//! function of the input raster and the target width; it is named, not
//! restated, by `lanczos3_width_downscale`.

use vstd::prelude::*;
use crate::math::rounded_div;
use crate::reduce::{
    samples_bounded, spec_height, scale_factor_num, reduce_heights, lemma_full_scale_height,
    abs_val, SAMPLE_SCALE,
};
use crate::columns::{
    column_value, aggregate_columns, heights_bounded, lemma_columns_of_constant, HEIGHT_CAP,
};
use crate::raster::{Color, Raster, bar_pixel, rasterize, lemma_full_columns_fill_raster};

verus! {

/// The pixel bytes that the image crate's Lanczos-3 filter produces when a
/// `width x height` RGBA raster is resampled to `new_width x height`.
pub uninterp spec fn lanczos3_width_downscale(
    data: Seq<u8>,
    width: int,
    height: int,
    new_width: int,
) -> Seq<u8>;

/// Relies on image::imageops::resize with FilterType::Lanczos3: the result is
/// an RGBA image of exactly the requested dimensions, a function of the
/// source pixels and the target size alone. ImageBuffer::from_raw accepts a
/// buffer of exactly width * height * 4 bytes, and into_raw returns the
/// resized image's buffer of new_width * height * 4 bytes.
#[verifier::external_body]
fn resize_width(img: &Raster, new_width: u32) -> (r: Raster)
    requires
        img.wf(),
        4 * new_width * img.height <= usize::MAX,
    ensures
        r.width == new_width,
        r.height == img.height,
        r.wf(),
        r.data@ == lanczos3_width_downscale(
            img.data@,
            img.width as int,
            img.height as int,
            new_width as int,
        ),
{
    let buffer = image::ImageBuffer::<image::Rgba<u8>, Vec<u8>>::from_raw(
        img.width,
        img.height,
        img.data.clone(),
    ).unwrap();
    let out = image::imageops::resize(&buffer, new_width, img.height, image::imageops::FilterType::Lanczos3);
    Raster { width: new_width, height: img.height, data: out.into_raw() }
}

/// The heights the amplitude reducer assigns, one per sample.
pub open spec fn spec_heights(samples: Seq<i64>, normalize: bool, height: int) -> Seq<u64> {
    Seq::new(
        samples.len(),
        |i: int| spec_height(samples[i] as int, scale_factor_num(samples, normalize), height) as u64,
    )
}

/// The column heights of the oversampled raster.
pub open spec fn spec_columns(heights: Seq<u64>, width: int) -> Seq<u64> {
    Seq::new(width as nat, |x: int| column_value(heights, width, x) as u64)
}

/// The bytes of the two-color bar raster for the given columns.
pub open spec fn bar_raster_bytes(columns: Seq<u64>, height: int, fg: Color, bg: Color) -> Seq<u8> {
    let width = columns.len() as int;
    Seq::new(
        (4 * width * height) as nat,
        |k: int|
            {
                let p = k / 4;
                let c = k % 4;
                let y = p / width;
                let x = p % width;
                bar_pixel(columns, height, x, y, fg, bg).spec_channel(c)
            },
    )
}

proof fn lemma_raster_bytes(img: Raster, columns: Seq<u64>, fg: Color, bg: Color)
    requires
        img.wf(),
        img.width == columns.len(),
        img.width >= 1,
        forall|x: int, y: int|
            0 <= x < img.width && 0 <= y < img.height ==> img.spec_pixel(x, y) == bar_pixel(
                columns,
                img.height as int,
                x,
                y,
                fg,
                bg,
            ),
    ensures
        img.data@ =~= bar_raster_bytes(columns, img.height as int, fg, bg),
{
    let w = columns.len() as int;
    let h = img.height as int;
    let bytes = bar_raster_bytes(columns, h, fg, bg);
    assert(img.data@.len() == 4 * w * h);
    assert forall|k: int| 0 <= k < 4 * w * h implies img.data@[k] == bytes[k] by {
        let p = k / 4;
        let c = k % 4;
        let y = p / w;
        let x = p % w;
        assert(0 <= c < 4 && k == 4 * p + c && p >= 0) by (nonlinear_arith)
            requires
                k >= 0,
                p == k / 4,
                c == k % 4,
        ;
        assert(0 <= x < w && p == y * w + x && y >= 0) by (nonlinear_arith)
            requires
                p >= 0,
                w >= 1,
                y == p / w,
                x == p % w,
        ;
        assert(p < w * h) by (nonlinear_arith)
            requires
                k < 4 * w * h,
                p == k / 4,
                k >= 0,
        ;
        assert(y < h) by (nonlinear_arith)
            requires
                p < w * h,
                p >= 0,
                w >= 1,
                y == p / w,
        ;
        assert(img.spec_pixel(x, y) == bar_pixel(columns, h, x, y, fg, bg));
        assert(k == 4 * (y * w + x) + c);
        if c == 0 {
            assert(img.data@[k] == img.spec_pixel(x, y).red);
        } else if c == 1 {
            assert(img.data@[k] == img.spec_pixel(x, y).green);
        } else if c == 2 {
            assert(img.data@[k] == img.spec_pixel(x, y).blue);
        } else {
            assert(img.data@[k] == img.spec_pixel(x, y).alpha);
        }
    }
}

/// The oversampled bar raster of a sample sequence: heights reduced, bucketed
/// into `oversampled_width` columns, and painted as bars.
pub fn render_waveform(
    samples: &Vec<i64>,
    oversampled_width: u32,
    height: u32,
    normalize: bool,
    fg: Color,
    bg: Color,
) -> (img: Raster)
    requires
        samples_bounded(samples@),
        oversampled_width >= 1,
        4 * oversampled_width * height <= usize::MAX,
    ensures
        img.wf(),
        img.width == oversampled_width,
        img.height == height,
        img.data@ == bar_raster_bytes(
            spec_columns(spec_heights(samples@, normalize, height as int), oversampled_width as int),
            height as int,
            fg,
            bg,
        ),
{
    let heights = reduce_heights(samples, height, normalize);
    proof {
        assert(heights@ =~= spec_heights(samples@, normalize, height as int));
        assert(heights_bounded(heights@)) by {
            assert(forall|i: int|
                0 <= i < heights@.len() ==> #[trigger] heights@[i] <= 2199023255553u64);
        }
    }
    let columns = aggregate_columns(&heights, oversampled_width);
    proof {
        assert(columns@ =~= spec_columns(heights@, oversampled_width as int));
    }
    let img = rasterize(&columns, height, fg, bg);
    proof {
        lemma_raster_bytes(img, columns@, fg, bg);
    }
    img
}

/// The finished image: the oversampled raster downscaled to `out_width` with
/// the Lanczos-3 filter; exactly `out_width x height` pixels.
pub fn render_image(
    samples: &Vec<i64>,
    out_width: u32,
    height: u32,
    oversample: u32,
    normalize: bool,
    fg: Color,
    bg: Color,
) -> (img: Raster)
    requires
        samples_bounded(samples@),
        out_width >= 1,
        oversample >= 1,
        out_width * oversample <= u32::MAX,
        4 * (out_width * oversample) * height <= usize::MAX,
    ensures
        img.wf(),
        img.width == out_width,
        img.height == height,
        img.data@ == lanczos3_width_downscale(
            bar_raster_bytes(
                spec_columns(
                    spec_heights(samples@, normalize, height as int),
                    (out_width * oversample) as int,
                ),
                height as int,
                fg,
                bg,
            ),
            (out_width * oversample) as int,
            height as int,
            out_width as int,
        ),
{
    let oversampled_width: u32 = out_width * oversample;
    proof {
        assert(out_width * oversample >= 1) by (nonlinear_arith)
            requires
                out_width >= 1,
                oversample >= 1,
        ;
    }
    let wave = render_waveform(samples, oversampled_width, height, normalize, fg, bg);
    proof {
        assert(4 * out_width * height <= 4 * (out_width * oversample) * height)
            by (nonlinear_arith)
            requires
                oversample >= 1,
                out_width >= 0,
                height >= 0,
        ;
    }
    resize_width(&wave, out_width)
}

/// A full-scale signal fills the raster: when every sample sits at amplitude
/// 1.0 in magnitude (a full-scale square wave, for one) and at least one
/// sample falls in every column, plain (non-normalized) reduction gives every
/// column twice the image height, and every pixel of the bar raster is the
/// foreground color.
pub proof fn lemma_full_scale_fills_raster(
    samples: Seq<i64>,
    width: int,
    height: int,
    fg: Color,
    bg: Color,
)
    requires
        forall|i: int| 0 <= i < samples.len() ==> abs_val(#[trigger] samples[i] as int) == SAMPLE_SCALE,
        samples.len() >= width,
        width >= 1,
        1 <= height <= u32::MAX,
    ensures
        forall|x: int|
            0 <= x < width ==> column_value(spec_heights(samples, false, height), width, x) == 2
                * height,
        forall|x: int, y: int|
            0 <= x < width && 0 <= y < height ==> bar_pixel(
                spec_columns(spec_heights(samples, false, height), width),
                height,
                x,
                y,
                fg,
                bg,
            ) == fg,
{
    let heights = spec_heights(samples, false, height);
    assert forall|i: int| 0 <= i < heights.len() implies #[trigger] heights[i] == (2 * height) as u64 by {
        lemma_full_scale_height(samples[i] as int, height);
    }
    lemma_columns_of_constant(heights, width, (2 * height) as u64);
    let cols = spec_columns(heights, width);
    assert(forall|x: int| 0 <= x < width ==> #[trigger] cols[x] == (2 * height) as u64);
    lemma_full_columns_fill_raster(cols, height, fg, bg);
}

} // verus!
