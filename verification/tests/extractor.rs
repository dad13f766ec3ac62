use cearaafis::extractor::binarized_image::{cleanup, invert, remove_crosses};
use cearaafis::extractor::binary_thinning::{is_false_ending, neighborhood_types, thin, NeighborhoodType};
use cearaafis::extractor::image_resize::ImageResizer;
use cearaafis::extractor::skeleton_filters::SkeletonFilter;
use cearaafis::extractor::skeleton_filters_graph::{
    dot_filter, fragment_filter, gap_filter, is_within_gap_limits, knot_filter, pore_filter,
    tail_filter,
};
use cearaafis::extractor::skeleton_graph::SkeletonGraph;
use cearaafis::extractor::skeleton_tracing::SkeletonTracer;
use cearaafis::extractor::skeleton_tracing_graph::{find_minutiae, trace};
use cearaafis::extractor::vote_filter::{block_errors_vote, vote};
use cearaafis::parameters::Fraction;
use cearaafis::primitives::bool_matrix::BooleanMatrix;
use cearaafis::primitives::int_point::IntPoint;

fn filled(width: usize, height: usize) -> BooleanMatrix {
    let mut m = BooleanMatrix::new(width, height);
    for y in 0..height {
        for x in 0..width {
            m.set(x, y, true);
        }
    }
    m
}

fn count_set(m: &BooleanMatrix) -> usize {
    let mut n = 0;
    for y in 0..m.height() {
        for x in 0..m.width() {
            if m.get(x, y) {
                n += 1;
            }
        }
    }
    n
}

// ---- binarized image ----

#[test]
fn test_remove_crosses_clears_checkerboard() {
    let mut binary = BooleanMatrix::new(4, 4);
    binary.set(0, 0, true);
    binary.set(1, 1, true);
    let mut b = binary;
    remove_crosses(&mut b);
    assert!(!b.get(0, 0), "cross should be removed");
    assert!(!b.get(1, 1), "cross should be removed");
}

#[test]
fn remove_crosses_keeps_solid_square() {
    let mut b = BooleanMatrix::new(4, 4);
    b.set(1, 1, true);
    b.set(2, 1, true);
    b.set(1, 2, true);
    b.set(2, 2, true);
    remove_crosses(&mut b);
    assert_eq!(count_set(&b), 4);
}

#[test]
fn test_invert_respects_mask() {
    let mut binary = BooleanMatrix::new(4, 4);
    binary.set(1, 1, true);
    let mut mask = BooleanMatrix::new(4, 4);
    mask.set(1, 1, true);
    mask.set(2, 2, true);
    let inverted = invert(&binary, &mask);
    assert!(!inverted.get(1, 1), "binary true + mask true -> false");
    assert!(inverted.get(2, 2), "binary false + mask true -> true");
    assert!(!inverted.get(0, 0), "mask false -> false");
}

#[test]
fn test_cleanup_preserves_dimensions() {
    let mut binary = BooleanMatrix::new(40, 40);
    for y in 0..40 {
        for x in 0..40 {
            binary.set(x, y, (x + y) % 2 == 0);
        }
    }
    let mask = BooleanMatrix::from_point(&IntPoint::new(40, 40));
    let mut m = mask.clone();
    for y in 0..40 {
        for x in 0..40 {
            m.set(x, y, true);
        }
    }
    cleanup(&mut binary, &m);
    assert_eq!(binary.width(), 40);
    assert_eq!(binary.height(), 40);
}

#[test]
fn cleanup_with_empty_mask_keeps_crossless_image() {
    let mut binary = filled(30, 30);
    let mask = BooleanMatrix::new(30, 30);
    cleanup(&mut binary, &mask);
    assert_eq!(count_set(&binary), 900);
}

// ---- binary thinning ----

#[test]
fn test_thin_solid_block_to_skeleton() {
    let input = filled(20, 20);
    let thinned = thin(&input);
    let count = count_set(&thinned);
    assert!(count > 0, "skeleton should not vanish");
    assert!(count < 400, "skeleton must be thinner than the block");
}

#[test]
fn test_thin_preserves_single_line() {
    let mut input = BooleanMatrix::new(10, 3);
    for x in 0..10 {
        input.set(x, 1, true);
    }
    let thinned = thin(&input);
    let count = (0..10).filter(|&x| thinned.get(x, 1)).count();
    assert!(count >= 3, "line core should survive, got {}", count);
}

#[test]
fn thin_result_stays_inside_input() {
    let mut input = BooleanMatrix::new(12, 12);
    for y in 2..9 {
        for x in 3..10 {
            input.set(x, y, true);
        }
    }
    let thinned = thin(&input);
    for y in 0..12 {
        for x in 0..12 {
            if thinned.get(x, y) {
                assert!(input.get(x, y));
                assert!(x > 0 && y > 0 && x < 11 && y < 11);
            }
        }
    }
}

#[test]
fn test_neighborhood_table_basics() {
    let types = neighborhood_types();
    assert_eq!(types.len(), 256);
    assert_eq!(types[0], NeighborhoodType::Removable);
    assert_eq!(types[0b00000010], NeighborhoodType::Ending);
    assert_eq!(types[0b00011111], NeighborhoodType::Removable);
}

#[test]
fn neighborhood_table_keeps_lines() {
    let types = neighborhood_types();
    // left and right neighbours only: a horizontal line pixel
    assert_eq!(types[8 | 16], NeighborhoodType::Skeleton);
    // top and bottom neighbours only: a vertical line pixel
    assert_eq!(types[2 | 64], NeighborhoodType::Skeleton);
}

#[test]
fn false_ending_next_to_branch() {
    let mut m = BooleanMatrix::new(10, 10);
    for x in 2..5 {
        m.set(x, 5, true);
    }
    assert!(!is_false_ending(&m, &IntPoint::new(2, 5)));
    m.set(4, 4, true);
    assert!(is_false_ending(&m, &IntPoint::new(2, 5)));
}

// ---- image resize ----

#[test]
fn test_resize_with_dpi() {
    let resizer = ImageResizer::new(500, &IntPoint::new(200, 200));
    assert_eq!(resizer.width, 500);
    assert_eq!(resizer.height, 500);
}

#[test]
fn test_resize_no_dpi() {
    let resizer = ImageResizer::new(0, &IntPoint::new(100, 100));
    assert_eq!(resizer.width, 500);
    assert_eq!(resizer.height, 500);
}

#[test]
fn test_resize_smaller() {
    let resizer = ImageResizer::new(500, &IntPoint::new(50, 100));
    assert!(resizer.width > 0);
    assert!(resizer.height > 0);
}

#[test]
fn resize_keeps_aspect_and_clamps() {
    let resizer = ImageResizer::new(500, &IntPoint::new(333, 101));
    assert_eq!(resizer.width, 1648);
    assert_eq!(resizer.height, 500);
    let wide = ImageResizer::new(1000, &IntPoint::new(333, 101));
    assert_eq!(wide.width, 2000);
    assert_eq!(wide.height, 1000);
}

// ---- skeleton filter (pixel level) ----

#[test]
fn test_filter_removes_dots() {
    let mut skeleton = BooleanMatrix::new(5, 5);
    skeleton.set(2, 2, true);
    let filter = SkeletonFilter::new(&skeleton);
    assert!(!filter.skeleton().get(2, 2));
}

#[test]
fn test_filter_keeps_lines() {
    let mut skeleton = BooleanMatrix::new(10, 10);
    for x in 0..10 {
        skeleton.set(x, 5, true);
    }
    let filter = SkeletonFilter::new(&skeleton);
    assert!(filter.skeleton().get(5, 5));
}

#[test]
fn test_filter_dimensions() {
    let skeleton = filled(20, 20);
    let filter = SkeletonFilter::new(&skeleton);
    assert_eq!(filter.skeleton().width(), 20);
    assert_eq!(filter.skeleton().height(), 20);
}

// ---- skeleton graph ----

fn build_two_nodes(len: usize) -> (SkeletonGraph, usize, usize, usize) {
    let mut g = SkeletonGraph::new();
    let a = g.add_minutia(IntPoint::new(0, 0));
    let b = g.add_minutia(IntPoint::new(len as i32, 0));
    let mut pts = Vec::new();
    for i in 0..len {
        pts.push(IntPoint::new(i as i32, 0));
    }
    let r = g.connect(a, b, pts);
    (g, a, b, r)
}

#[test]
fn test_connect_creates_bidirectional_ridges() {
    let mut g = SkeletonGraph::new();
    let a = g.add_minutia(IntPoint::new(0, 0));
    let b = g.add_minutia(IntPoint::new(10, 0));
    let ridge = g.connect(a, b, vec![IntPoint::new(0, 0), IntPoint::new(10, 0)]);
    assert_eq!(g.ridges[ridge].start, Some(a));
    let rev = g.ridges[ridge].reversed;
    assert_eq!(g.ridges[rev].start, Some(b));
    assert_eq!(g.minutiae[a].ridges, vec![ridge]);
    assert_eq!(g.minutiae[b].ridges, vec![rev]);
    assert_eq!(g.ridges[rev].points[0], IntPoint::new(10, 0));
    assert_eq!(g.ridges[rev].points[1], IntPoint::new(0, 0));
}

#[test]
fn test_detach_ridge_removes_from_both_ends() {
    let mut g = SkeletonGraph::new();
    let a = g.add_minutia(IntPoint::new(0, 0));
    let b = g.add_minutia(IntPoint::new(5, 5));
    let r = g.connect(a, b, vec![IntPoint::new(0, 0), IntPoint::new(5, 5)]);
    let rev = g.ridges[r].reversed;
    g.detach_ridge(r);
    assert!(g.minutiae[a].ridges.is_empty());
    assert!(g.minutiae[b].ridges.is_empty());
    assert!(g.ridges[r].start.is_none());
    assert!(g.ridges[rev].start.is_none());
    assert!(!g.is_attached(r));
}

#[test]
fn test_compact_drops_detached() {
    let mut g = SkeletonGraph::new();
    let a = g.add_minutia(IntPoint::new(0, 0));
    let b = g.add_minutia(IntPoint::new(5, 5));
    let c = g.add_minutia(IntPoint::new(10, 10));
    let _keep = g.connect(a, b, vec![IntPoint::new(0, 0), IntPoint::new(5, 5)]);
    let drop = g.connect(b, c, vec![IntPoint::new(5, 5), IntPoint::new(10, 10)]);
    g.detach_ridge(drop);
    let map = g.compact();
    assert_eq!(g.minutiae.len(), 2);
    assert_eq!(map[c], None);
    assert_eq!(map[a], Some(0));
    assert_eq!(map[b], Some(1));
    assert_eq!(g.ridges.len(), 2);
}

#[test]
fn compact_keeps_lists_twins_and_courses() {
    let mut g = SkeletonGraph::new();
    let a = g.add_minutia(IntPoint::new(0, 0));
    let b = g.add_minutia(IntPoint::new(5, 5));
    let c = g.add_minutia(IntPoint::new(10, 10));
    let drop = g.connect(a, c, vec![IntPoint::new(0, 0), IntPoint::new(10, 10)]);
    let _keep = g.connect(b, c, vec![IntPoint::new(5, 5), IntPoint::new(10, 10)]);
    g.detach_ridge(drop);
    let _ = g.compact();
    // a is dropped; b and c become 0 and 1; ridges 2 and 3 become 0 and 1
    assert_eq!(g.minutiae.len(), 2);
    assert_eq!(g.minutiae[0].position, IntPoint::new(5, 5));
    assert_eq!(g.minutiae[0].ridges, vec![0]);
    assert_eq!(g.minutiae[1].ridges, vec![1]);
    assert_eq!(g.ridges[0].reversed, 1);
    assert_eq!(g.ridges[1].reversed, 0);
    assert_eq!(g.ridges[0].start, Some(0));
    assert_eq!(g.ridges[0].end, Some(1));
    assert_eq!(g.ridges[0].points, vec![IntPoint::new(5, 5), IntPoint::new(10, 10)]);
}

#[test]
fn push_point_extends_only_that_ridge() {
    let (mut g, _a, _b, r) = build_two_nodes(2);
    g.push_point(r, IntPoint::new(2, 0));
    let rev = g.ridges[r].reversed;
    assert_eq!(g.ridges[r].points.len(), 3);
    assert_eq!(g.ridges[r].points[2], IntPoint::new(2, 0));
    assert_eq!(g.ridges[rev].points.len(), 2);
}

// ---- graph filters ----

#[test]
fn skeleton_filters_graph_test_dot_filter_removes_isolated() {
    let mut g = SkeletonGraph::new();
    let a = g.add_minutia(IntPoint::new(0, 0));
    let b = g.add_minutia(IntPoint::new(50, 0));
    let _ = g.connect(a, b, vec![IntPoint::new(0, 0), IntPoint::new(50, 0)]);
    let lone = g.add_minutia(IntPoint::new(200, 200));
    assert_eq!(g.minutiae.len(), 3);
    dot_filter(&mut g);
    assert_eq!(g.minutiae.len(), 2);
    let _ = lone;
}

#[test]
fn test_fragment_filter_removes_short_fragments() {
    let (mut g, _a, _b, _r) = build_two_nodes(5);
    fragment_filter(&mut g);
    assert_eq!(g.minutiae.len(), 0);
}

#[test]
fn fragment_filter_keeps_long_fragments() {
    let (mut g, _a, _b, _r) = build_two_nodes(40);
    fragment_filter(&mut g);
    assert_eq!(g.minutiae.len(), 2);
    assert_eq!(g.ridges.len(), 2);
}

#[test]
fn test_tail_filter_removes_short_tail_to_junction() {
    let mut g = SkeletonGraph::new();
    let a = g.add_minutia(IntPoint::new(0, 0));
    let c = g.add_minutia(IntPoint::new(100, 100));
    let d1 = g.add_minutia(IntPoint::new(200, 100));
    let d2 = g.add_minutia(IntPoint::new(100, 200));
    let long1: Vec<IntPoint> = (0..100).map(|i| IntPoint::new(i * 2, 100)).collect();
    let long2: Vec<IntPoint> = (0..100).map(|i| IntPoint::new(100, i * 2)).collect();
    let _tail = g.connect(a, c, vec![IntPoint::new(0, 0), IntPoint::new(100, 100)]);
    let _r1 = g.connect(c, d1, long1);
    let _r2 = g.connect(c, d2, long2);
    tail_filter(&mut g);
    assert!(
        g.minutiae.iter().all(|m| m.position != IntPoint::new(0, 0)),
        "tail end should be removed"
    );
}

#[test]
fn knot_filter_merges_pass_through_node() {
    let mut g = SkeletonGraph::new();
    let a = g.add_minutia(IntPoint::new(0, 0));
    let m = g.add_minutia(IntPoint::new(3, 0));
    let b = g.add_minutia(IntPoint::new(6, 0));
    let _ = g.connect(a, m, vec![IntPoint::new(0, 0), IntPoint::new(1, 0), IntPoint::new(2, 0), IntPoint::new(3, 0)]);
    let _ = g.connect(m, b, vec![IntPoint::new(3, 0), IntPoint::new(4, 0), IntPoint::new(5, 0), IntPoint::new(6, 0)]);
    knot_filter(&mut g);
    assert_eq!(g.minutiae.len(), 2);
    assert_eq!(g.ridges.len(), 2);
    assert_eq!(g.ridges[0].points.len(), 7);
}

#[test]
fn pore_filter_keeps_plain_line() {
    let (mut g, _a, _b, _r) = build_two_nodes(30);
    pore_filter(&mut g);
    assert_eq!(g.minutiae.len(), 2);
}

#[test]
fn gap_filter_joins_facing_endings() {
    let mut g = SkeletonGraph::new();
    let a = g.add_minutia(IntPoint::new(0, 0));
    let b = g.add_minutia(IntPoint::new(30, 0));
    let c = g.add_minutia(IntPoint::new(40, 0));
    let d = g.add_minutia(IntPoint::new(70, 0));
    let left: Vec<IntPoint> = (0..31).map(|i| IntPoint::new(i, 0)).collect();
    let right: Vec<IntPoint> = (40..71).map(|i| IntPoint::new(i, 0)).collect();
    let _ = g.connect(a, b, left);
    let _ = g.connect(c, d, right);
    assert!(is_within_gap_limits(&g, b, c));
    gap_filter(&mut g);
    // the gap between b and c is bridged; b and c become pass-through nodes
    // and are merged, leaving one ridge from a to d
    assert_eq!(g.minutiae.len(), 2);
    assert_eq!(g.ridges.len(), 2);
}

#[test]
fn gap_filter_bridges_three_pixel_gap() {
    let mut g = SkeletonGraph::new();
    let a = g.add_minutia(IntPoint::new(0, 0));
    let b = g.add_minutia(IntPoint::new(10, 0));
    let c = g.add_minutia(IntPoint::new(13, 0));
    let d = g.add_minutia(IntPoint::new(23, 0));
    let _ = g.connect(a, b, (0..=10).map(|x| IntPoint::new(x, 0)).collect());
    let _ = g.connect(c, d, (13..=23).map(|x| IntPoint::new(x, 0)).collect());
    gap_filter(&mut g);
    let mut covered: Vec<(i32, i32)> = Vec::new();
    for (i, r) in g.ridges.iter().enumerate() {
        if g.is_attached(i) {
            for p in &r.points {
                if !covered.contains(&(p.x, p.y)) {
                    covered.push((p.x, p.y));
                }
            }
        }
    }
    covered.sort();
    let expected: Vec<(i32, i32)> = (0..=23).map(|x| (x, 0)).collect();
    assert_eq!(covered, expected);
    let mut endings: Vec<IntPoint> = Vec::new();
    for m in &g.minutiae {
        let live = m.ridges.iter().filter(|&&r| g.is_attached(r)).count();
        assert!(live >= 1);
        if live == 1 {
            endings.push(m.position);
        }
    }
    assert_eq!(endings, vec![IntPoint::new(0, 0), IntPoint::new(23, 0)]);
}

// ---- pixel skeleton tracer ----

#[test]
fn test_skeletonize_simple_line() {
    let mut binary = BooleanMatrix::new(10, 10);
    for x in 0..10 {
        binary.set(x, 5, true);
    }
    let tracer = SkeletonTracer::new(&binary);
    assert!(tracer.is_skeleton_pixel(5, 5));
    assert!(tracer.is_skeleton_pixel(1, 5));
    assert!(tracer.is_skeleton_pixel(8, 5));
}

#[test]
fn test_skeletonize_cross() {
    let mut binary = BooleanMatrix::new(10, 10);
    for x in 0..10 {
        binary.set(x, 5, true);
    }
    for y in 0..10 {
        binary.set(5, y, true);
    }
    let tracer = SkeletonTracer::new(&binary);
    assert!(tracer.pixel_count() >= 10);
}

#[test]
fn test_pixel_count() {
    let binary = filled(5, 5);
    let tracer = SkeletonTracer::new(&binary);
    assert!(tracer.pixel_count() > 0);
    assert!(tracer.pixel_count() <= 25);
}

#[test]
fn test_find_minutia_points() {
    let binary = filled(10, 10);
    let tracer = SkeletonTracer::new(&binary);
    let points = tracer.find_minutia_points();
    assert!(points.len() >= 4);
}

#[test]
fn test_small_image() {
    let mut binary = BooleanMatrix::new(2, 2);
    binary.set(0, 0, true);
    binary.set(1, 1, true);
    let tracer = SkeletonTracer::new(&binary);
    assert_eq!(tracer.pixel_count(), 2);
}

#[test]
fn test_empty_image() {
    let binary = BooleanMatrix::new(5, 5);
    let tracer = SkeletonTracer::new(&binary);
    assert_eq!(tracer.pixel_count(), 0);
}

#[test]
fn tracer_outside_pixel_is_not_skeleton() {
    let binary = filled(3, 3);
    let tracer = SkeletonTracer::new(&binary);
    assert!(!tracer.is_skeleton_pixel(-1, 0));
    assert!(!tracer.is_skeleton_pixel(3, 1));
}

// ---- graph tracing ----

#[test]
fn test_trace_simple_line_two_endings() {
    let mut thinned = BooleanMatrix::new(10, 3);
    for x in 0..10 {
        thinned.set(x, 1, true);
    }
    let graph = trace(&thinned);
    assert_eq!(graph.minutiae.len(), 2);
    assert_eq!(graph.ridges.len(), 2);
    assert!(graph.is_attached(0));
}

#[test]
fn test_trace_cross_four_endings() {
    let mut thinned = BooleanMatrix::new(9, 9);
    for x in 0..9 {
        thinned.set(x, 4, true);
    }
    for y in 0..9 {
        thinned.set(4, y, true);
    }
    let graph = trace(&thinned);
    assert_eq!(graph.minutiae.len(), 5);
    assert_eq!(graph.ridges.len(), 8);
}

#[test]
fn trace_line_ridges_run_along_the_line() {
    let mut thinned = BooleanMatrix::new(10, 3);
    for x in 0..10 {
        thinned.set(x, 1, true);
    }
    let graph = trace(&thinned);
    assert_eq!(graph.minutiae[0].position, IntPoint::new(0, 1));
    assert_eq!(graph.minutiae[1].position, IntPoint::new(9, 1));
    let forward: Vec<IntPoint> = (0..10).map(|x| IntPoint::new(x, 1)).collect();
    let backward: Vec<IntPoint> = forward.iter().rev().cloned().collect();
    assert_eq!(graph.ridges[0].points, forward);
    assert_eq!(graph.ridges[1].points, backward);
    assert_eq!(graph.ridges[0].reversed, 1);
    assert_eq!(graph.ridges[0].start, Some(0));
    assert_eq!(graph.ridges[1].start, Some(1));
}

#[test]
fn trace_fills_gap_to_group_mean() {
    // A blob of three touching endings/junctions on the left end of a line:
    // the group's minutia sits at their mean, so the ridge leaving the group
    // does not start at the minutia and its twin is extended to it.
    let mut thinned = BooleanMatrix::new(12, 5);
    for x in 2..12 {
        thinned.set(x, 2, true);
    }
    thinned.set(1, 1, true);
    thinned.set(1, 3, true);
    let graph = trace(&thinned);
    for (i, r) in graph.ridges.iter().enumerate() {
        let twin = &graph.ridges[r.reversed];
        assert_eq!(twin.reversed, i);
        let start = graph.minutiae[r.start.unwrap()].position;
        if r.points[0] != start {
            assert_eq!(*twin.points.last().unwrap(), start);
        }
    }
}

#[test]
fn test_find_minutiae_counts() {
    let mut thinned = BooleanMatrix::new(10, 3);
    for x in 0..10 {
        thinned.set(x, 1, true);
    }
    let minutiae = find_minutiae(&thinned);
    assert_eq!(minutiae.len(), 2);
}

#[test]
fn find_minutiae_in_row_major_order() {
    let mut thinned = BooleanMatrix::new(6, 6);
    for y in 1..5 {
        thinned.set(4, y, true);
    }
    let minutiae = find_minutiae(&thinned);
    assert_eq!(minutiae, vec![IntPoint::new(4, 1), IntPoint::new(4, 4)]);
}

#[test]
fn trace_empty_image_gives_empty_graph() {
    let thinned = BooleanMatrix::new(7, 7);
    let graph = trace(&thinned);
    assert_eq!(graph.minutiae.len(), 0);
    assert_eq!(graph.ridges.len(), 0);
}

// ---- voting ----

#[test]
fn test_vote_all_true_stays_true() {
    let input = filled(40, 40);
    let voted = vote(&input, None, 2, Fraction::new(61, 100), 4);
    assert!(voted.get(20, 20));
}

#[test]
fn test_vote_all_false_stays_false() {
    let input = BooleanMatrix::new(40, 40);
    let voted = vote(&input, None, 2, Fraction::new(61, 100), 4);
    assert!(!voted.get(20, 20));
}

#[test]
fn test_vote_removes_speckle() {
    let mut input = BooleanMatrix::new(40, 40);
    input.set(20, 20, true);
    let voted = vote(&input, None, 2, Fraction::new(61, 100), 4);
    assert!(!voted.get(20, 20), "isolated speckle should not survive vote");
}

#[test]
fn test_vote_output_dimensions() {
    let input = BooleanMatrix::new(30, 25);
    let voted = vote(&input, None, 1, Fraction::new(7, 10), 4);
    assert_eq!(voted.width(), 30);
    assert_eq!(voted.height(), 25);
}

#[test]
fn vote_border_stays_clear() {
    let input = filled(20, 20);
    let voted = vote(&input, None, 1, Fraction::new(1, 2), 3);
    assert!(!voted.get(2, 10));
    assert!(voted.get(3, 10));
    assert!(!voted.get(10, 17));
}

#[test]
fn vote_respects_mask() {
    let input = filled(20, 20);
    let mut mask = BooleanMatrix::new(20, 20);
    mask.set(10, 10, true);
    let voted = vote(&input, Some(&mask), 1, Fraction::new(1, 2), 0);
    assert!(voted.get(10, 10));
    assert!(!voted.get(11, 10));
}

#[test]
fn block_errors_vote_fills_hole() {
    let mut input = filled(10, 10);
    input.set(5, 5, false);
    let voted = block_errors_vote(&input);
    assert!(voted.get(5, 5));
}

// ---- binarization ----

fn full_block_mask(blocks: &cearaafis::primitives::block_map::BlockMap) -> BooleanMatrix {
    let mut mask = BooleanMatrix::new(
        blocks.primary.blocks.x() as usize,
        blocks.primary.blocks.y() as usize,
    );
    for y in 0..mask.height() {
        for x in 0..mask.width() {
            mask.set(x, y, true);
        }
    }
    mask
}

/// Pixels where `input` exceeds `baseline`.
fn above_baseline(input: &[(usize, usize, f64)], width: usize, height: usize) -> BooleanMatrix {
    let mut above = BooleanMatrix::new(width, height);
    for &(x, y, v) in input {
        let baseline = 0.0;
        if v - baseline > 0.0 {
            above.set(x, y, true);
        }
    }
    above
}

#[test]
fn test_binarize_input_above_baseline() {
    let blocks = cearaafis::primitives::block_map::BlockMap::new(30, 30, 15);
    let above = above_baseline(&[(10, 10, 0.5), (20, 5, -0.5)], 30, 30);
    let mask = full_block_mask(&blocks);
    let binary = cearaafis::extractor::binarized_image::binarize(&above, &mask, &blocks);
    assert!(binary.get(10, 10), "input > baseline should be true");
    assert!(!binary.get(20, 5), "input < baseline should be false");
}

#[test]
fn test_binarize_skips_unmasked_blocks() {
    let blocks = cearaafis::primitives::block_map::BlockMap::new(30, 30, 15);
    let above = above_baseline(&[(25, 25, 0.9)], 30, 30);
    let mut mask = full_block_mask(&blocks);
    mask.set(1, 1, false);
    let binary = cearaafis::extractor::binarized_image::binarize(&above, &mask, &blocks);
    assert!(!binary.get(25, 25), "pixel in unmasked block must not binarize");
}

fn edge_points(e: &cearaafis::features::neighbor_edge::NeighborEdge) -> Vec<(i16, i16)> {
    e.indexed.shape.points.iter().map(|p| (p.x, p.y)).collect()
}

#[test]
fn build_edges_links_sorted_component_pixels() {
    let mut m = BooleanMatrix::new(6, 4);
    for &(x, y) in &[(1, 0), (2, 0), (2, 1), (5, 0), (1, 3), (0, 3)] {
        m.set(x, y, true);
    }
    let edges = cearaafis::extractor::FeatureExtractor::build_edges(&m);
    assert_eq!(edges.len(), 2);
    assert_eq!(edges[0].len(), 2);
    assert_eq!(edge_points(&edges[0][0]), vec![(1, 0), (2, 0)]);
    assert_eq!(edge_points(&edges[0][1]), vec![(2, 0), (2, 1)]);
    assert_eq!(edges[1].len(), 1);
    assert_eq!(edge_points(&edges[1][0]), vec![(0, 3), (1, 3)]);
    for list in &edges {
        for e in list {
            assert_eq!(e.indexed.index, 0);
            assert!(e.neighbor.is_none());
        }
    }
}

#[test]
fn build_edges_skips_isolated_pixels() {
    let mut m = BooleanMatrix::new(5, 5);
    m.set(0, 0, true);
    m.set(2, 2, true);
    m.set(4, 4, true);
    assert!(cearaafis::extractor::FeatureExtractor::build_edges(&m).is_empty());
    assert!(cearaafis::extractor::FeatureExtractor::build_edges(&BooleanMatrix::new(0, 0)).is_empty());
}

#[test]
fn build_edges_orders_points_by_x_then_y() {
    let mut m = BooleanMatrix::new(4, 4);
    for &(x, y) in &[(1, 0), (2, 0), (2, 1), (1, 2), (0, 3)] {
        m.set(x, y, true);
    }
    let edges = cearaafis::extractor::FeatureExtractor::build_edges(&m);
    assert_eq!(edges.len(), 1);
    let chain: Vec<Vec<(i16, i16)>> = edges[0].iter().map(edge_points).collect();
    assert_eq!(
        chain,
        vec![
            vec![(0, 3), (1, 0)],
            vec![(1, 0), (1, 2)],
            vec![(1, 2), (2, 0)],
            vec![(2, 0), (2, 1)],
        ]
    );
}

#[test]
fn mask_range_spans_first_to_last_set_cell() {
    let mut m = BooleanMatrix::new(8, 2);
    m.set(2, 0, true);
    m.set(5, 0, true);
    let r = cearaafis::extractor::pixelwise_orientations::mask_range(&m, 0);
    assert_eq!((r.start, r.end), (2, 6));
    let empty = cearaafis::extractor::pixelwise_orientations::mask_range(&m, 1);
    assert_eq!((empty.start, empty.end), (0, 0));
}

#[test]
fn graph_ridge_direction_points_shift_window() {
    let points: Vec<IntPoint> = (0..30).map(|i| IntPoint::new(i, 2 * i)).collect();
    let long = cearaafis::extractor::skeleton_graph::GraphRidge { reversed: 0, start: None, end: None, points };
    let (a, b) = long.direction_points();
    assert_eq!((a.x, b.x), (1, 21));
    let points: Vec<IntPoint> = (0..5).map(|i| IntPoint::new(i, 0)).collect();
    let short = cearaafis::extractor::skeleton_graph::GraphRidge { reversed: 0, start: None, end: None, points };
    let (a, b) = short.direction_points();
    assert_eq!((a.x, b.x), (0, 4));
}

#[test]
fn stage_skeleton_thins_and_filter_drops_dots() {
    let mut m = BooleanMatrix::new(12, 12);
    for y in 2..9 {
        for x in 3..6 {
            m.set(x, y, true);
        }
    }
    let skeleton = cearaafis::extractor::FeatureExtractor::stage_skeleton(m.clone());
    assert_eq!(skeleton.width(), 12);
    assert!(count_set(&skeleton) < count_set(&m));
    let mut dot = BooleanMatrix::new(12, 12);
    dot.set(6, 6, true);
    let filtered = cearaafis::extractor::FeatureExtractor::stage_skeleton_filters(dot);
    assert_eq!(count_set(&filtered), 0);
}

#[test]
fn detach_undoes_connect_on_existing_lists() {
    let (mut g, a, b, first) = build_two_nodes(4);
    let lists_before: Vec<Vec<usize>> = g.minutiae.iter().map(|m| m.ridges.clone()).collect();
    let r = g.connect(b, a, vec![IntPoint::new(4, 0), IntPoint::new(0, 0)]);
    assert_eq!(r, first + 2);
    g.detach_ridge(r);
    let lists_after: Vec<Vec<usize>> = g.minutiae.iter().map(|m| m.ridges.clone()).collect();
    assert_eq!(lists_after, lists_before);
    assert!(g.is_attached(first));
    assert!(!g.is_attached(r));
    assert!(!g.is_attached(r + 1));
}
