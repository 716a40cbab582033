use automatic_clahe::color::{hsv_to_rgb, rgb_to_hsv};
use automatic_clahe::grid::{BlockGrid, Point, Region};
use automatic_clahe::image::{reconstruct_colors, validate_dimensions};
use automatic_clahe::stats::{histogram, luminances, sample_stats};

#[test]
fn rgb_to_hsv_works() {
    let inputs = [(255, 0, 0), (10, 30, 200), (222, 222, 222)];
    for i in inputs {
        let (h, s, v) = rgb_to_hsv(i.0, i.1, i.2);
        let (r, g, b) = hsv_to_rgb(h, s, v);

        assert!((i32::from(r) - i32::from(i.0)).abs() <= 2);
        assert!((i32::from(g) - i32::from(i.1)).abs() <= 2);
        assert!((i32::from(b) - i32::from(i.2)).abs() <= 2);
    }
}

#[test]
fn rgb_to_hsv_exact_values() {
    assert_eq!(rgb_to_hsv(255, 0, 0), (0, 255, 255));
    assert_eq!(rgb_to_hsv(10, 30, 200), (165, 242, 200));
    assert_eq!(rgb_to_hsv(222, 222, 222), (0, 0, 222));
    assert_eq!(rgb_to_hsv(10, 20, 30), (148, 170, 30));
}

#[test]
fn hsv_to_rgb_exact_values() {
    assert_eq!(hsv_to_rgb(165, 242, 200), (10, 32, 200));
    assert_eq!(hsv_to_rgb(0, 255, 255), (255, 0, 0));
    assert_eq!(hsv_to_rgb(77, 0, 13), (13, 13, 13));
}

#[test]
fn achromatic_round_trip_is_exact() {
    for c in [0u8, 1, 7, 127, 254, 255] {
        let (h, s, v) = rgb_to_hsv(c, c, c);
        assert_eq!((h, s, v), (0, 0, c));
        assert_eq!(hsv_to_rgb(h, s, v), (c, c, c));
    }
}

#[test]
fn round_trip_preserves_value_channel() {
    // The per-channel error can exceed the quantization tolerance (for pure
    // magenta the red channel comes back 3 low), but the brightest channel
    // always survives exactly.
    let inputs = [(255u8, 0u8, 255u8), (1, 2, 3), (200, 100, 0), (13, 255, 254)];
    for (r, g, b) in inputs {
        let (h, s, v) = rgb_to_hsv(r, g, b);
        let before = r.max(g).max(b);
        assert_eq!(v, before);
        let (r2, g2, b2) = hsv_to_rgb(h, s, v);
        assert_eq!(r2.max(g2).max(b2), before);
    }
    assert_eq!(hsv_to_rgb(212, 255, 255), (252, 0, 255));
}

#[test]
fn primary_hue_round_trip_is_exact() {
    // Tints and shades of a single primary: the two darker channels agree,
    // and the round trip reproduces the pixel byte for byte.
    let inputs = [(255u8, 0u8, 0u8), (255, 128, 128), (10, 200, 10), (5, 5, 250), (90, 40, 40)];
    for (r, g, b) in inputs {
        let (h, s, v) = rgb_to_hsv(r, g, b);
        assert_eq!(hsv_to_rgb(h, s, v), (r, g, b));
    }
}

#[test]
fn round_trip_stays_within_six() {
    // The hue quantization can move a darker channel by more than the
    // usual tolerance of two, but never by more than six. This input
    // reaches the worst drift.
    let (h, s, v) = rgb_to_hsv(0, 216, 66);
    assert_eq!(hsv_to_rgb(h, s, v), (0, 216, 60));
    for (r, g, b) in [(0u8, 216u8, 66u8), (255, 0, 255), (17, 93, 211), (200, 199, 1)] {
        let (h, s, v) = rgb_to_hsv(r, g, b);
        let (r2, g2, b2) = hsv_to_rgb(h, s, v);
        assert!((i32::from(r2) - i32::from(r)).abs() <= 6);
        assert!((i32::from(g2) - i32::from(g)).abs() <= 6);
        assert!((i32::from(b2) - i32::from(b)).abs() <= 6);
    }
}

#[test]
fn histogram_counts_each_level() {
    let hist = histogram(&[0, 255, 3, 3]);
    assert_eq!(hist.len(), 256);
    assert_eq!(hist[0], 1);
    assert_eq!(hist[3], 2);
    assert_eq!(hist[255], 1);
    assert_eq!(hist[1], 0);
    let total: usize = hist.iter().sum();
    assert_eq!(total, 4);
}

#[test]
fn histogram_of_empty_window_is_zero() {
    let hist = histogram(&[]);
    assert_eq!(hist.len(), 256);
    assert!(hist.iter().all(|&c| c == 0));
}

#[test]
fn cumulative_histogram_is_monotone_and_total() {
    let samples = [3u8, 0, 255, 3, 17, 17, 17];
    let hist = histogram(&samples);
    let mut cumulative = 0usize;
    let mut previous = 0usize;
    for &bin in hist.iter() {
        cumulative += bin;
        assert!(cumulative >= previous);
        previous = cumulative;
    }
    assert_eq!(cumulative, samples.len());
}

#[test]
fn uniform_window_has_zero_contrast_range() {
    let flat = [42u8; 9];
    let (sum, mn, mx) = sample_stats(&flat);
    assert_eq!(sum, 42 * 9);
    assert_eq!(mn, 42);
    assert_eq!(mx, 42);
    assert_eq!(mx - mn, 0);
}

#[test]
fn luminances_take_channel_maximum() {
    let rgba = [10, 20, 30, 99, 200, 5, 7, 40];
    assert_eq!(luminances(&rgba, 4), vec![30, 200]);
    let rgb = [1, 2, 3, 9, 8, 7];
    assert_eq!(luminances(&rgb, 3), vec![3, 9]);
}

#[test]
fn sample_stats_sum_min_max() {
    assert_eq!(sample_stats(&[5, 9, 2]), (16, 2, 9));
    assert_eq!(sample_stats(&[]), (0, 255, 0));
    assert_eq!(sample_stats(&[128]), (128, 128, 128));
}

#[test]
fn validate_accepts_well_formed_images() {
    assert_eq!(validate_dimensions(64 * 64 * 4, 64, 4, 32, 32), Ok(64));
    assert_eq!(validate_dimensions(6 * 3, 2, 3, 1, 1), Ok(3));
    // A single pixel is a valid image for any positive block size.
    assert_eq!(validate_dimensions(4, 1, 4, 32, 32), Ok(1));
    assert_eq!(validate_dimensions(3, 1, 3, 1000, 1000), Ok(1));
}

#[test]
fn validate_rejects_bad_inputs() {
    // Length not divisible by the channel count.
    assert!(validate_dimensions(10, 1, 3, 32, 32).is_err());
    // Zero width.
    assert!(validate_dimensions(12, 0, 3, 32, 32).is_err());
    // Channel count neither 3 nor 4.
    assert!(validate_dimensions(12, 1, 5, 32, 32).is_err());
    assert!(validate_dimensions(12, 1, 0, 32, 32).is_err());
    // Zero block dimensions.
    assert!(validate_dimensions(12, 1, 3, 0, 32).is_err());
    assert!(validate_dimensions(12, 1, 3, 32, 0).is_err());
    // Pixel count not a multiple of the width.
    assert!(validate_dimensions(12, 3, 3, 32, 32).is_err());
    // Empty buffer: no positive height exists.
    assert!(validate_dimensions(0, 1, 3, 32, 32).is_err());
}

fn region_holds(r: &Region, x: usize, y: usize) -> bool {
    r.start.x <= x && x < r.end.x && r.start.y <= y && y < r.end.y
}

#[test]
fn regions_tile_uneven_image() {
    let g = BlockGrid::new(70, 50, 32, 32);
    assert_eq!(g.num_cols(), 3);
    assert_eq!(g.num_rows(), 2);
    let regions = g.regions();
    assert_eq!(regions.len(), 6);
    assert_eq!(regions[0], mk_region(0, 0, 32, 32));
    assert_eq!(regions[2], mk_region(64, 0, 70, 32));
    assert_eq!(regions[5], mk_region(64, 32, 70, 50));
    for y in 0..50 {
        for x in 0..70 {
            let covering = regions.iter().filter(|r| region_holds(r, x, y)).count();
            assert_eq!(covering, 1, "pixel ({}, {})", x, y);
        }
    }
}

#[test]
fn regions_tile_tiny_and_exact_images() {
    for (w, h, bw, bh) in [(1, 1, 7, 9), (64, 64, 32, 32), (5, 3, 1, 1)] {
        let g = BlockGrid::new(w, h, bw, bh);
        let regions = g.regions();
        assert_eq!(regions.len(), g.num_rows() * g.num_cols());
        for y in 0..h {
            for x in 0..w {
                let covering = regions.iter().filter(|r| region_holds(r, x, y)).count();
                assert_eq!(covering, 1);
            }
        }
    }
}

fn mk_region(sx: usize, sy: usize, ex: usize, ey: usize) -> Region {
    Region { start: Point::new(sx, sy), end: Point::new(ex, ey) }
}

#[test]
fn region_len_and_center() {
    let r = mk_region(1, 1, 3, 4);
    assert_eq!(r.len(), 6);
    assert_eq!(r.center_x(), 2);
    assert_eq!(r.center_y(), 2);
    let whole = mk_region(0, 0, 70, 50);
    assert_eq!(whole.len(), 3500);
    assert_eq!(whole.center_x(), 35);
    assert_eq!(whole.center_y(), 25);
}

#[test]
fn region_items_reads_row_major_window() {
    // A 5-wide, 4-tall sample array with distinct values.
    let all: Vec<u8> = (0..20).collect();
    let r = mk_region(1, 1, 3, 4);
    let got = r.items(&all, 5);
    assert_eq!(got, vec![6, 7, 11, 12, 16, 17]);
    let empty = mk_region(2, 2, 2, 4);
    assert_eq!(empty.items(&all, 5), Vec::<u8>::new());
}

#[test]
fn neighbor_blocks_around_interior_pixel() {
    let g = BlockGrid::new(64, 64, 32, 32);
    // Pixel (33, 33) sits below and right of block 0's centre.
    assert_eq!(g.neighbor(33, 33, false, false), Some(0));
    assert_eq!(g.neighbor(33, 33, false, true), Some(1));
    assert_eq!(g.neighbor(33, 33, true, false), Some(2));
    assert_eq!(g.neighbor(33, 33, true, true), Some(3));
}

#[test]
fn neighbor_blocks_missing_at_borders() {
    let g = BlockGrid::new(64, 64, 32, 32);
    // The top-left corner has no block centre up or left of it.
    assert_eq!(g.neighbor(0, 0, false, false), None);
    assert_eq!(g.neighbor(0, 0, false, true), None);
    assert_eq!(g.neighbor(0, 0, true, false), None);
    assert_eq!(g.neighbor(0, 0, true, true), Some(0));
    // The bottom-right corner has no block centre down or right of it.
    assert_eq!(g.neighbor(63, 63, true, true), None);
    assert_eq!(g.neighbor(63, 63, false, false), Some(3));
    // An image smaller than one block has a single block and no neighbours
    // below it.
    let tiny = BlockGrid::new(1, 1, 32, 32);
    assert_eq!(tiny.regions().len(), 1);
    assert_eq!(tiny.neighbor(0, 0, true, true), None);
}

#[test]
fn reconstruct_keeps_hue_saturation_and_alpha() {
    let mut pixels = vec![10, 20, 30, 99];
    reconstruct_colors(&mut pixels, &[77], 4);
    assert_eq!(pixels, vec![25, 52, 77, 99]);
}

#[test]
fn reconstruct_with_unchanged_luminance_is_near_identity() {
    let mut pixels = vec![10, 30, 200, 7, 222, 222, 222, 8];
    let lums = luminances(&pixels, 4);
    reconstruct_colors(&mut pixels, &lums, 4);
    // Luminance kept, colours within the quantization tolerance, alpha
    // byte-for-byte.
    assert_eq!(pixels[3], 7);
    assert_eq!(pixels[7], 8);
    assert_eq!(pixels, vec![10, 32, 200, 7, 222, 222, 222, 8]);
}
