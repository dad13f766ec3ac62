use cearaafis::extractor::local_histograms::{create, smooth};
use cearaafis::extractor::minutia_collector::MinutiaCollector as PixelCollector;
use cearaafis::extractor::minutia_collector_graph::{cloud_filter, collect_skeleton, top_filter};
use cearaafis::extractor::skeleton_graph::SkeletonGraph;
use cearaafis::extractor::FeatureExtractor;
use cearaafis::extractor_minutiae::minutia_collector::MinutiaCollector;
use cearaafis::features::minutia_type::MinutiaType;
use cearaafis::parameters::Parameters;
use cearaafis::primitives::block_map::BlockMap;
use cearaafis::primitives::bool_matrix::BooleanMatrix;
use cearaafis::primitives::int_matrix::IntMatrix;
use cearaafis::primitives::int_point::IntPoint;

/// Depth of a pixel of brightness `v` in a 256-bin histogram.
fn depth(v: f64) -> i32 {
    (v * 256.0) as i32
}

fn depths_filled(width: usize, height: usize, value: f64) -> IntMatrix {
    let mut m = IntMatrix::new(width, height);
    for y in 0..height {
        for x in 0..width {
            m.set(x, y, depth(value));
        }
    }
    m
}

// ---- local histograms ----

#[test]
fn test_create_histogram_dimensions() {
    let blocks = BlockMap::new(45, 45, 15);
    let image = depths_filled(45, 45, 0.0);
    let hist = create(&blocks, &image);
    assert_eq!(hist.width, blocks.primary.blocks.x() as usize);
    assert_eq!(hist.height, blocks.primary.blocks.y() as usize);
    assert_eq!(hist.bins, 256);
}

#[test]
fn test_create_counts_all_pixels() {
    let blocks = BlockMap::new(45, 45, 15);
    let image = depths_filled(45, 45, 0.5);
    let hist = create(&blocks, &image);
    for by in 0..3 {
        for bx in 0..3 {
            assert_eq!(hist.sum(bx, by), 225, "block ({bx},{by}) should count all its 225 pixels");
            assert_eq!(hist.get(bx, by, 128), 225, "all pixels in bin 128");
        }
    }
}

#[test]
fn test_create_nonuniform_blocks() {
    let blocks = BlockMap::new(30, 15, 15);
    let mut image = IntMatrix::new(30, 15);
    for y in 0..15 {
        for x in 0..15 {
            image.set(x, y, depth(0.0));
        }
    }
    for y in 0..15 {
        for x in 15..30 {
            image.set(x, y, depth(1.0));
        }
    }
    let hist = create(&blocks, &image);
    assert_eq!(hist.get(0, 0, 0), 225, "block 0: all dark pixels");
    assert_eq!(hist.get(1, 0, 255), 225, "block 1: all bright pixels (depth 256 -> constrained 255)");
    assert_eq!(hist.get(1, 0, 0), 0);
}

#[test]
fn create_skips_pixels_outside_image() {
    // the map covers 30 x 15 pixels, the depth image only 20 x 15
    let blocks = BlockMap::new(30, 15, 15);
    let image = depths_filled(20, 15, 0.25);
    let hist = create(&blocks, &image);
    assert_eq!(hist.get(0, 0, 64), 225);
    assert_eq!(hist.get(1, 0, 64), 75);
}

#[test]
fn create_clamps_negative_depths() {
    let blocks = BlockMap::new(15, 15, 15);
    let mut image = depths_filled(15, 15, 0.5);
    image.set(3, 3, -7);
    let hist = create(&blocks, &image);
    assert_eq!(hist.get(0, 0, 0), 1);
    assert_eq!(hist.get(0, 0, 128), 224);
}

#[test]
fn test_smooth_sums_four_neighbors() {
    let blocks = BlockMap::new(45, 45, 15);
    let image = depths_filled(45, 45, 0.5);
    let hist = create(&blocks, &image);
    let smoothed = smooth(&blocks, &hist);
    assert_eq!(smoothed.width, blocks.secondary.blocks.x() as usize);
    assert_eq!(smoothed.height, blocks.secondary.blocks.y() as usize);
    assert_eq!(smoothed.sum(1, 1), 900);
    assert_eq!(smoothed.sum(0, 0), 225);
    assert_eq!(smoothed.sum(3, 3), 225);
    assert_eq!(smoothed.sum(1, 0), 450);
}

// ---- pixel minutia collector ----

#[test]
fn test_collect_from_line() {
    let mut skeleton = BooleanMatrix::new(10, 10);
    for x in 0..10 {
        skeleton.set(x, 5, true);
    }
    let collector = PixelCollector::from_skeleton(&skeleton);
    let mins = collector.minutiae();
    assert!(mins.len() >= 2);
}

#[test]
fn test_collect_from_cross() {
    let mut skeleton = BooleanMatrix::new(10, 10);
    for x in 0..10 {
        skeleton.set(x, 5, true);
    }
    for y in 0..10 {
        skeleton.set(5, y, true);
    }
    let collector = PixelCollector::from_skeleton(&skeleton);
    let mins = collector.minutiae();
    assert!(mins.len() >= 4);
}

#[test]
fn test_empty_skeleton() {
    let skeleton = BooleanMatrix::new(5, 5);
    let collector = PixelCollector::from_skeleton(&skeleton);
    assert!(collector.minutiae().is_empty());
    assert_eq!(collector.skeleton_pixel_count(), 0);
}

#[test]
fn test_max_minutiae() {
    let mut skeleton = BooleanMatrix::new(50, 50);
    for y in 0..50 {
        for x in 0..50 {
            skeleton.set(x, y, true);
        }
    }
    let collector = PixelCollector::from_skeleton(&skeleton);
    assert!(collector.minutiae().len() <= Parameters::MAX_MINUTIAE);
}

#[test]
fn test_single_pixel() {
    let mut skeleton = BooleanMatrix::new(5, 5);
    skeleton.set(2, 2, true);
    let collector = PixelCollector::from_skeleton(&skeleton);
    let mins = collector.minutiae();
    assert_eq!(mins.len(), 1);
    assert_eq!(mins[0].typ, MinutiaType::Ending);
    assert_eq!(mins[0].direction, IntPoint::new(0, 0));
}

#[test]
fn pixel_collector_directions_and_order() {
    let mut skeleton = BooleanMatrix::new(10, 10);
    for x in 2..8 {
        skeleton.set(x, 4, true);
    }
    let collector = PixelCollector::from_skeleton(&skeleton);
    let mins = collector.minutiae();
    assert_eq!(mins.len(), 2);
    assert_eq!(mins[0].position, IntPoint::new(2, 4));
    assert_eq!(mins[0].direction, IntPoint::new(1, 0));
    assert_eq!(mins[1].position, IntPoint::new(7, 4));
    assert_eq!(mins[1].direction, IntPoint::new(-1, 0));
    // a T: the junction pixel sums the offsets of its three neighbours
    skeleton.set(4, 5, true);
    skeleton.set(4, 6, true);
    let collector = PixelCollector::from_skeleton(&skeleton);
    let junction = collector
        .minutiae()
        .iter()
        .find(|m| m.position == IntPoint::new(4, 4))
        .unwrap();
    assert_eq!(junction.typ, MinutiaType::Bifurcation);
    assert_eq!(junction.neighbors, 3);
    assert_eq!(junction.direction, IntPoint::new(0, 1));
}

#[test]
fn pixel_collector_keeps_first_hundred() {
    let mut skeleton = BooleanMatrix::new(40, 40);
    for y in (0..40).step_by(2) {
        for x in (0..40).step_by(2) {
            skeleton.set(x, y, true);
        }
    }
    let collector = PixelCollector::from_skeleton(&skeleton);
    let mins = collector.minutiae();
    assert_eq!(mins.len(), 100);
    assert_eq!(mins[0].position, IntPoint::new(0, 0));
    assert_eq!(mins[99].position, IntPoint::new(38, 8));
}

// ---- graph minutia collector ----

fn ridge_line_graph(len: i32) -> SkeletonGraph {
    let mut g = SkeletonGraph::new();
    let a = g.add_minutia(IntPoint::new(0, 0));
    let b = g.add_minutia(IntPoint::new(len, 0));
    let pts: Vec<IntPoint> = (0..=len).step_by(3).map(|i| IntPoint::new(i, 0)).collect();
    let _ = g.connect(a, b, pts);
    g
}

#[test]
fn test_collect_endings_only_from_single_ridge_nodes() {
    let g = ridge_line_graph(60);
    let endings = collect_skeleton(&g);
    let bifurcations = collect_skeleton(&SkeletonGraph::new());
    assert_eq!(endings.len() + bifurcations.len(), 2);
    assert_eq!(endings[0], (IntPoint::new(0, 0), 0));
    assert_eq!(endings[1], (IntPoint::new(60, 0), 1));
}

#[test]
fn collect_skeleton_skips_junctions() {
    let mut g = SkeletonGraph::new();
    let c = g.add_minutia(IntPoint::new(50, 50));
    let a = g.add_minutia(IntPoint::new(0, 50));
    let b = g.add_minutia(IntPoint::new(100, 50));
    let d = g.add_minutia(IntPoint::new(50, 0));
    let _ = g.connect(c, a, vec![IntPoint::new(50, 50), IntPoint::new(0, 50)]);
    let _ = g.connect(c, b, vec![IntPoint::new(50, 50), IntPoint::new(100, 50)]);
    let _ = g.connect(c, d, vec![IntPoint::new(50, 50), IntPoint::new(50, 0)]);
    let found = collect_skeleton(&g);
    assert_eq!(found.len(), 3);
    assert!(found.iter().all(|(p, _)| *p != IntPoint::new(50, 50)));
}

#[test]
fn test_cloud_filter_removes_dense_clusters() {
    let points: Vec<IntPoint> = (0..6).map(|i| IntPoint::new(i * 3, 0)).collect();
    let kept = cloud_filter(&points);
    assert!(kept.is_empty(), "dense cloud should be removed");
}

#[test]
fn cloud_filter_keeps_small_groups() {
    let mut points: Vec<IntPoint> = (0..5).map(|i| IntPoint::new(i * 3, 0)).collect();
    points.push(IntPoint::new(500, 500));
    let kept = cloud_filter(&points);
    assert_eq!(kept, vec![0, 1, 2, 3, 4, 5]);
}

#[test]
fn test_top_filter_keeps_isolated() {
    let mut points: Vec<IntPoint> = Vec::new();
    for i in 0..120 {
        points.push(IntPoint::new(i % 20, i / 20));
    }
    points.push(IntPoint::new(1000, 1000));
    let kept = top_filter(&points);
    assert_eq!(kept.len(), Parameters::MAX_MINUTIAE);
    assert!(
        kept.iter().any(|&i| points[i] == IntPoint::new(1000, 1000)),
        "isolated minutia should rank highest and survive"
    );
}

#[test]
fn top_filter_keeps_small_sets_in_order() {
    let points = vec![IntPoint::new(5, 5), IntPoint::new(1, 1), IntPoint::new(5, 5)];
    assert_eq!(top_filter(&points), vec![0, 1, 2]);
}

#[test]
fn top_filter_groups_duplicates() {
    // 101 points on a line plus a repeat of the first one far down the list
    let mut points: Vec<IntPoint> = (0..101).map(|i| IntPoint::new(i * 10, 0)).collect();
    points.push(IntPoint::new(0, 0));
    let kept = top_filter(&points);
    assert_eq!(kept.len(), 100);
    // the repeat sits with the first occurrence of its position
    let at = kept.iter().position(|&i| i == 101);
    if let Some(k) = at {
        assert_eq!(kept[k - 1], 0);
    }
    for w in kept.windows(2) {
        let (a, b) = (w[0], w[1]);
        assert!(a < b || (b == 101 && a == 0) || (a == 101));
    }
}

// ---- skeleton minutia collector ----

#[test]
fn test_minutia_collector_endpoints() {
    let mut bm = BooleanMatrix::new(10, 10);
    for y in 1..9 {
        bm.set(5, y, true);
    }
    let collector = MinutiaCollector::new(&bm);
    let minutiae = collector.collect();
    let endings: Vec<_> = minutiae.iter().filter(|m| m.1 == MinutiaType::Ending).collect();
    let bifurcations: Vec<_> = minutiae.iter().filter(|m| m.1 == MinutiaType::Bifurcation).collect();
    assert!(endings.len() >= 2, "Should have at least 2 endpoints");
    assert!(bifurcations.is_empty(), "Should have no bifurcations");
}

#[test]
fn test_minutia_collector_bifurcation() {
    let mut bm = BooleanMatrix::new(10, 10);
    for y in 1..9 {
        bm.set(5, y, true);
    }
    for x in 3..6 {
        bm.set(x, 5, true);
    }
    let collector = MinutiaCollector::new(&bm);
    let minutiae = collector.collect();
    assert!(minutiae.len() >= 3, "Should have at least 3 minutiae");
}

#[test]
fn minutia_collector_skips_border_and_reports_size() {
    let mut bm = BooleanMatrix::new(6, 4);
    bm.set(0, 0, true);
    bm.set(2, 2, true);
    let collector = MinutiaCollector::new(&bm);
    assert_eq!(collector.dimensions(), (6, 4));
    assert!(collector.skeleton().get(0, 0));
    // the isolated pixel has no neighbour: neither ending nor bifurcation
    assert!(collector.collect().is_empty());
    bm.set(3, 2, true);
    let collector = MinutiaCollector::new(&bm);
    assert_eq!(
        collector.collect(),
        vec![(IntPoint::new(2, 2), MinutiaType::Ending), (IntPoint::new(3, 2), MinutiaType::Ending)]
    );
}

// ---- extractor stages ----

#[test]
fn boolean_count_counts_set_cells() {
    let mut m = BooleanMatrix::new(4, 3);
    m.set(0, 0, true);
    m.set(3, 2, true);
    m.set(1, 1, true);
    assert_eq!(FeatureExtractor::boolean_count(&m), 3);
    assert_eq!(FeatureExtractor::new(500).dpi, 500);
}

#[test]
fn stage_vote_filter_only_adds_pixels() {
    let mut m = BooleanMatrix::new(40, 40);
    for y in 10..30 {
        for x in 10..30 {
            m.set(x, y, true);
        }
    }
    m.set(20, 20, false);
    m.set(2, 2, true);
    let voted = FeatureExtractor::stage_vote_filter(&m);
    assert!(voted.get(20, 20), "a hole inside the vote area is filled");
    assert!(voted.get(2, 2), "pixels outside the vote area stay");
    assert!(!voted.get(35, 35));
}

#[test]
fn nearest_neighbors_sorted_by_distance_then_index() {
    let ps = vec![
        IntPoint::new(0, 0),
        IntPoint::new(5, 0),
        IntPoint::new(0, 3),
        IntPoint::new(-3, 0),
        IntPoint::new(10, 10),
    ];
    assert_eq!(cearaafis::matcher::nearest_neighbors(&ps, 0, 10), vec![2, 3, 1, 4]);
    assert_eq!(cearaafis::matcher::nearest_neighbors(&ps, 0, 2), vec![2, 3]);
    assert_eq!(cearaafis::matcher::nearest_neighbors(&ps, 4, 1), vec![1]);
    assert!(cearaafis::matcher::nearest_neighbors(&ps, 1, 0).is_empty());
    assert!(cearaafis::matcher::nearest_neighbors(&vec![IntPoint::new(1, 1)], 0, 3).is_empty());
}

#[test]
fn block_map_secondary_lines_rise_to_the_size() {
    let blocks = BlockMap::new(100, 100, 15);
    assert_eq!(blocks.primary.x, vec![0, 14, 28, 42, 57, 71, 85, 100]);
    assert_eq!(blocks.secondary.x, vec![0, 7, 21, 35, 49, 64, 78, 92, 100]);
    assert_eq!(blocks.secondary.y, vec![0, 7, 21, 35, 49, 64, 78, 92, 100]);
}
