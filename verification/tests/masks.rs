use cearaafis::extractor::absolute_contrast_mask;
use cearaafis::extractor::clipped_contrast;
use cearaafis::extractor::relative_contrast_mask;
use cearaafis::extractor::segmentation_mask::{compute, inner, pixelwise};
use cearaafis::primitives::block_map::BlockMap;
use cearaafis::primitives::bool_matrix::BooleanMatrix;
use cearaafis::primitives::histogram_cube::HistogramCube;
use cearaafis::primitives::int_matrix::IntMatrix;
use cearaafis::primitives::int_point::IntPoint;

/// Clipped contrast of a block from its span in a 256-bin histogram.
fn contrast(spans: &IntMatrix, x: usize, y: usize) -> f64 {
    spans.get(x, y) as f64 * (1.0 / 255.0)
}

fn spans_of(values: &[&[i32]]) -> IntMatrix {
    let mut m = IntMatrix::new(values[0].len(), values.len());
    for (y, row) in values.iter().enumerate() {
        for (x, v) in row.iter().enumerate() {
            m.set(x, y, *v);
        }
    }
    m
}

// ---- clipped contrast ----

#[test]
fn test_uniform_block_zero_contrast() {
    let blocks = BlockMap::new(30, 30, 15);
    let mut histogram = HistogramCube::new(
        blocks.primary.blocks.x() as usize,
        blocks.primary.blocks.y() as usize,
        256,
    );
    for _ in 0..225 {
        histogram.increment(0, 0, 128);
    }
    let spans = clipped_contrast::compute(&blocks, &histogram);
    assert!(
        contrast(&spans, 0, 0).abs() < 1e-9,
        "uniform block should have zero contrast, got {}",
        contrast(&spans, 0, 0)
    );
}

#[test]
fn test_full_range_block_high_contrast() {
    let blocks = BlockMap::new(30, 30, 15);
    let mut histogram = HistogramCube::new(
        blocks.primary.blocks.x() as usize,
        blocks.primary.blocks.y() as usize,
        256,
    );
    for i in 0..225usize {
        histogram.increment(0, 0, i);
    }
    let spans = clipped_contrast::compute(&blocks, &histogram);
    assert!(
        contrast(&spans, 0, 0) > 0.7,
        "wide-spread histogram should yield high contrast, got {}",
        contrast(&spans, 0, 0)
    );
}

#[test]
fn clipped_span_of_spread_histogram_is_exact() {
    let blocks = BlockMap::new(30, 30, 15);
    let mut histogram = HistogramCube::new(2, 2, 256);
    for i in 0..225usize {
        histogram.increment(0, 0, i);
    }
    let spans = clipped_contrast::compute(&blocks, &histogram);
    // clip limit round(225 * 0.08) = 18: lower bound 18, upper bound 206
    assert_eq!(spans.get(0, 0), 188);
}

#[test]
fn test_empty_block_zero_contrast() {
    let blocks = BlockMap::new(30, 30, 15);
    let histogram = HistogramCube::new(
        blocks.primary.blocks.x() as usize,
        blocks.primary.blocks.y() as usize,
        256,
    );
    let spans = clipped_contrast::compute(&blocks, &histogram);
    assert!(contrast(&spans, 1, 1) < 0.0);
    assert_eq!(spans.get(1, 1), -255);
}

#[test]
fn test_result_dimensions_match_blocks() {
    let blocks = BlockMap::new(45, 60, 15);
    let histogram = HistogramCube::new(
        blocks.primary.blocks.x() as usize,
        blocks.primary.blocks.y() as usize,
        256,
    );
    let spans = clipped_contrast::compute(&blocks, &histogram);
    assert_eq!(spans.width(), blocks.primary.blocks.x() as usize);
    assert_eq!(spans.height(), blocks.primary.blocks.y() as usize);
}

// ---- absolute contrast mask ----

#[test]
fn test_low_contrast_blocks_marked() {
    // spans 3 and 128 of 255 bins: contrasts about 0.01 and 0.5
    let spans = spans_of(&[&[3, 0, 0], &[0, 128, 0], &[0, 0, 0]]);
    let mask = absolute_contrast_mask::compute(&spans, 256);
    assert!(mask.get(0, 0));
    assert!(!mask.get(1, 1));
}

#[test]
fn test_default_all_false_when_high() {
    let spans = spans_of(&[&[128, 128], &[128, 128]]);
    let mask = absolute_contrast_mask::compute(&spans, 256);
    for y in 0..2 {
        for x in 0..2 {
            assert!(!mask.get(x, y));
        }
    }
}

#[test]
fn absolute_threshold_is_seventeen_bins() {
    let spans = spans_of(&[&[16, 17, 18]]);
    let mask = absolute_contrast_mask::compute(&spans, 256);
    assert!(mask.get(0, 0));
    assert!(!mask.get(1, 0));
    assert!(!mask.get(2, 0));
}

// ---- relative contrast mask ----

#[test]
fn test_uniform_contrast_no_mask() {
    let blocks = BlockMap::new(45, 45, 15);
    let spans = spans_of(&[&[128, 128, 128], &[128, 128, 128], &[128, 128, 128]]);
    let mask = relative_contrast_mask::compute(&spans, &blocks);
    for y in 0..3 {
        for x in 0..3 {
            assert!(!mask.get(x, y), "uniform contrast should not mask anything");
        }
    }
}

#[test]
fn test_low_contrast_block_masked() {
    let blocks = BlockMap::new(45, 45, 15);
    let spans = spans_of(&[&[128, 128, 128], &[128, 128, 128], &[128, 128, 3]]);
    let mask = relative_contrast_mask::compute(&spans, &blocks);
    assert!(mask.get(2, 2), "weak block should be masked as low relative contrast");
    assert!(!mask.get(0, 0));
}

#[test]
fn test_dimensions_match_blocks() {
    let blocks = BlockMap::new(45, 60, 15);
    let spans = IntMatrix::new(
        blocks.primary.blocks.x() as usize,
        blocks.primary.blocks.y() as usize,
    );
    let mask = relative_contrast_mask::compute(&spans, &blocks);
    assert_eq!(mask.width(), blocks.primary.blocks.x() as usize);
    assert_eq!(mask.height(), blocks.primary.blocks.y() as usize);
}

#[test]
fn relative_limit_uses_best_blocks() {
    // 9 blocks of 225 pixels: 9 sampled, round(9 * 0.49) = 4 best averaged.
    // best four spans 100 + 100 + 100 + 100 -> limit 34
    let blocks = BlockMap::new(45, 45, 15);
    let spans = spans_of(&[&[100, 100, 100], &[100, 34, 33], &[0, 0, 0]]);
    let mask = relative_contrast_mask::compute(&spans, &blocks);
    assert!(!mask.get(1, 1));
    assert!(mask.get(2, 1));
    assert!(mask.get(0, 2));
    assert!(!mask.get(0, 0));
}

// ---- segmentation mask ----

fn build_histogram_with_contrast(blocks: &BlockMap, fg_blocks: &[(usize, usize)]) -> HistogramCube {
    let mut histogram = HistogramCube::new(
        blocks.primary.blocks.x() as usize,
        blocks.primary.blocks.y() as usize,
        256,
    );
    for &(bx, by) in fg_blocks {
        for i in 0..225usize {
            histogram.increment(bx, by, i.min(255));
        }
    }
    histogram
}

#[test]
fn test_pixelwise_expands_blocks() {
    let blocks = BlockMap::new(30, 30, 15);
    let mut mask = BooleanMatrix::new(2, 2);
    mask.set(0, 0, true);
    let pixelized = pixelwise(&mask, &blocks);
    assert!(pixelized.get(0, 0));
    assert!(pixelized.get(14, 14));
    assert!(!pixelized.get(29, 29));
}

#[test]
fn pixelwise_follows_uneven_blocks() {
    let blocks = BlockMap::new(100, 20, 15);
    let mut mask = BooleanMatrix::new(7, 2);
    mask.set(6, 1, true);
    let pixelized = pixelwise(&mask, &blocks);
    assert!(pixelized.get(85, 10));
    assert!(pixelized.get(99, 19));
    assert!(!pixelized.get(84, 10));
    assert!(!pixelized.get(99, 9));
}

#[test]
fn test_inner_shrinks_by_border_distance() {
    let mask = BooleanMatrix::from_point(&IntPoint::new(50, 50));
    let mut m = mask.clone();
    for y in 0..50 {
        for x in 0..50 {
            m.set(x, y, true);
        }
    }
    let inner_mask = inner(&m);
    assert!(inner_mask.get(25, 25), "center should stay true");
    assert!(!inner_mask.get(0, 0), "border should be shrunk away");
    assert!(!inner_mask.get(5, 25), "5px from border < 14 should be shrunk");
    assert!(inner_mask.get(20, 25), "20px from border > 14 should remain");
}

#[test]
fn inner_mask_edge_is_fifteen_pixels_in() {
    let mut m = BooleanMatrix::new(50, 50);
    for y in 0..50 {
        for x in 0..50 {
            m.set(x, y, true);
        }
    }
    let inner_mask = inner(&m);
    assert!(!inner_mask.get(14, 25));
    assert!(inner_mask.get(15, 25));
    assert!(inner_mask.get(34, 25));
    assert!(!inner_mask.get(35, 25));
}

#[test]
fn test_compute_produces_block_mask() {
    let blocks = BlockMap::new(45, 45, 15);
    let histogram =
        build_histogram_with_contrast(&blocks, &[(0, 0), (1, 0), (0, 1), (1, 1), (2, 2)]);
    let mask = compute(&blocks, &histogram);
    assert_eq!(mask.width(), blocks.primary.blocks.x() as usize);
    assert_eq!(mask.height(), blocks.primary.blocks.y() as usize);
}

#[test]
fn segmentation_of_contrasted_image_is_foreground() {
    let blocks = BlockMap::new(150, 150, 15);
    let mut all = Vec::new();
    for y in 0..10 {
        for x in 0..10 {
            all.push((x, y));
        }
    }
    let histogram = build_histogram_with_contrast(&blocks, &all);
    let mask = compute(&blocks, &histogram);
    assert!(mask.get(5, 5));
}

#[test]
fn segmentation_of_flat_image_is_background() {
    let blocks = BlockMap::new(150, 150, 15);
    let histogram = build_histogram_with_contrast(&blocks, &[]);
    let mask = compute(&blocks, &histogram);
    for y in 0..10 {
        for x in 0..10 {
            assert!(!mask.get(x, y));
        }
    }
}
