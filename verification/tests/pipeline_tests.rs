use waverender::columns::aggregate_columns;
use waverender::raster::{rasterize, Color};
use waverender::reduce::{max_magnitude, reduce_heights, SAMPLE_SCALE};
use waverender::resample::{render_image, render_waveform};

const FG: Color = Color { red: 0, green: 0, blue: 0, alpha: 255 };
const BG: Color = Color { red: 0, green: 0, blue: 0, alpha: 0 };

#[test]
fn silence_normalized_is_all_zero() {
    let samples = vec![0i64; 100];
    let heights = reduce_heights(&samples, 120, true);
    assert_eq!(heights.len(), 100);
    assert!(heights.iter().all(|&h| h == 0));
}

#[test]
fn reducer_output_length_matches_input() {
    for n in [0usize, 1, 7, 1000] {
        let samples: Vec<i64> = (0..n as i64).map(|i| i * 11 - 5).collect();
        assert_eq!(reduce_heights(&samples, 64, false).len(), n);
        assert_eq!(reduce_heights(&samples, 64, true).len(), n);
    }
}

#[test]
fn full_scale_sample_doubles_height() {
    let samples = vec![SAMPLE_SCALE, -SAMPLE_SCALE];
    let heights = reduce_heights(&samples, 100, false);
    assert_eq!(heights, vec![200, 200]);
}

#[test]
fn half_scale_sample_normalized_reaches_half() {
    let samples = vec![SAMPLE_SCALE / 2];
    let heights = reduce_heights(&samples, 100, true);
    // the loudest sample itself: factor 2 * 0.5, times 0.5, times height
    assert_eq!(heights, vec![50]);
}

#[test]
fn max_magnitude_takes_largest_absolute_value() {
    assert_eq!(max_magnitude(&vec![]), 0);
    assert_eq!(max_magnitude(&vec![3, -7, 5]), 7);
}

#[test]
fn aggregator_output_length_is_width() {
    let heights: Vec<u64> = vec![1, 2, 3, 4, 5];
    assert_eq!(aggregate_columns(&heights, 3).len(), 3);
    assert_eq!(aggregate_columns(&heights, 17).len(), 17);
    let empty: Vec<u64> = vec![];
    assert_eq!(aggregate_columns(&empty, 4).len(), 4);
}

#[test]
fn aggregator_empty_windows_are_zero() {
    let empty: Vec<u64> = vec![];
    assert_eq!(aggregate_columns(&empty, 3), vec![0, 0, 0]);
}

#[test]
fn aggregator_means_are_rounded() {
    let heights: Vec<u64> = vec![1, 2, 3, 4];
    // windows [0,2) and [2,4): means 1.5 and 3.5 round to 2 and 4
    assert_eq!(aggregate_columns(&heights, 2), vec![2, 4]);
    let constant: Vec<u64> = vec![9; 10];
    assert_eq!(aggregate_columns(&constant, 5), vec![9, 9, 9, 9, 9]);
}

#[test]
fn rasterizer_draws_bars_from_bottom() {
    let columns: Vec<u64> = vec![0, 2, 5];
    let img = rasterize(&columns, 3, FG, BG);
    assert_eq!(img.width, 3);
    assert_eq!(img.height, 3);
    // column 0: no bar at all
    for y in 0..3 {
        assert_eq!(img.pixel(0, y), BG);
    }
    // column 1: bar of height 2 grows up from the bottom row
    assert_eq!(img.pixel(1, 0), BG);
    assert_eq!(img.pixel(1, 1), FG);
    assert_eq!(img.pixel(1, 2), FG);
    // column 2: bar taller than the image fills the column
    for y in 0..3 {
        assert_eq!(img.pixel(2, y), FG);
    }
}

#[test]
fn square_wave_fills_oversampled_raster() {
    let samples: Vec<i64> = (0..64)
        .map(|i| if i % 2 == 0 { SAMPLE_SCALE } else { -SAMPLE_SCALE })
        .collect();
    let img = render_waveform(&samples, 16, 8, false, FG, BG);
    for x in 0..16 {
        for y in 0..8 {
            assert_eq!(img.pixel(x, y), FG);
        }
    }
}

#[test]
fn resampling_solid_background_stays_solid() {
    let samples = vec![0i64; 256];
    let img = render_image(&samples, 8, 6, 16, false, FG, BG);
    assert_eq!(img.width, 8);
    assert_eq!(img.height, 6);
    assert_eq!(img.data.len(), 8 * 6 * 4);
    for x in 0..8 {
        for y in 0..6 {
            assert_eq!(img.pixel(x, y), BG);
        }
    }
}

#[test]
fn rendered_image_has_requested_dimensions() {
    let samples: Vec<i64> = (0..500).map(|i| (i % 40) * 800 - 16000).collect();
    let img = render_image(&samples, 12, 5, 32, true, FG, BG);
    assert_eq!(img.width, 12);
    assert_eq!(img.height, 5);
    assert_eq!(img.data.len(), 12 * 5 * 4);
}
