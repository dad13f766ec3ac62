use cearaafis::extractor_minutiae::minutia_collector;
use cearaafis::extractor_skeletons::skeleton_filters::{
    apply_filters, SkeletonDotFilter, SkeletonFilter, SkeletonKnotFilter,
};
use cearaafis::extractor_skeletons::skeleton_tracing::SkeletonTracing;
use cearaafis::features::edge_shape::EdgeShape;
use cearaafis::features::indexed_edge::IndexedEdge;
use cearaafis::features::minutia_type::MinutiaType;
use cearaafis::features::neighbor_edge::NeighborEdge;
use cearaafis::features::skeleton::Skeleton;
use cearaafis::features::skeleton_minutia::SkeletonMinutia;
use cearaafis::features::skeleton_ridge::direction_span;
use cearaafis::features::skeleton_type::SkeletonType;
use cearaafis::features::skeleton_types::SkeletonTypeExt;
use cearaafis::matcher::MinutiaPair;
use cearaafis::primitives::bool_matrix::BooleanMatrix;
use cearaafis::primitives::int_point::IntPoint;
use cearaafis::primitives::short_point::ShortPoint;

#[test]
fn hello_world() {
    assert_eq!(1 + 1, 2);
}

#[test]
fn features_module_exists() {}

#[test]
fn edge_shape_test_new() {
    let shape = EdgeShape::new(vec![]);
    assert!(shape.points.is_empty());
}

#[test]
fn indexed_edge_test_new() {
    let edge = IndexedEdge::new(0, EdgeShape::new(vec![ShortPoint::new(1, 2)]));
    assert_eq!(edge.index, 0);
    assert_eq!(edge.shape.points.len(), 1);
}

#[test]
fn neighbor_edge_test_new() {
    let edge = NeighborEdge::new(IndexedEdge::new(0, EdgeShape::new(vec![ShortPoint::new(1, 2)])));
    assert!(edge.neighbor.is_none());
}

#[test]
fn skeleton_minutia_test_new() {
    let m = SkeletonMinutia::new(IntPoint::new(10, 20));
    assert_eq!(m.position.x(), 10);
    assert_eq!(m.position.y(), 20);
    assert!(m.ridges.is_empty());
}

#[test]
fn collector_minutia_new() {
    let m = minutia_collector::SkeletonMinutia::new(IntPoint::new(3, 4));
    assert_eq!(m.position, IntPoint::new(3, 4));
    assert!(m.ridges.is_empty());
}

#[test]
fn minutia_type_codes() {
    assert_eq!(MinutiaType::Ending.code(), 0);
    assert_eq!(MinutiaType::Bifurcation.code(), 1);
}

#[test]
fn skeleton_type_queries() {
    assert!(SkeletonType::Ridges.is_ridges());
    assert!(!SkeletonType::Ridges.is_valleys());
    assert!(SkeletonType::Valleys.is_valleys());
    assert_eq!(SkeletonType::Ridges.prefix(), "ridges-");
    assert_eq!(SkeletonType::Valleys.prefix(), "valleys-");
}

#[test]
fn skeleton_add_and_remove_minutiae() {
    let mut s = Skeleton::new(SkeletonType::Ridges, &IntPoint::new(8, 8));
    s.add_minutia(SkeletonMinutia::new(IntPoint::new(1, 1)));
    s.add_minutia(SkeletonMinutia::new(IntPoint::new(2, 3)));
    s.add_minutia(SkeletonMinutia::new(IntPoint::new(1, 1)));
    s.remove_minutia(&SkeletonMinutia::new(IntPoint::new(1, 1)));
    assert_eq!(s.minutiae.len(), 1);
    assert_eq!(s.minutiae[0].position, IntPoint::new(2, 3));
}

#[test]
fn skeleton_shadow_is_blank_of_image_size() {
    let mut s = Skeleton::new(SkeletonType::Valleys, &IntPoint::new(4, 3));
    s.add_minutia(SkeletonMinutia::new(IntPoint::new(3, 2)));
    let shadow = s.shadow();
    assert_eq!(shadow.width(), 4);
    assert_eq!(shadow.height(), 3);
    assert!(!shadow.get(3, 2));
    assert!(!shadow.get(0, 0));
}

#[test]
fn minutia_pair_new() {
    let p = MinutiaPair::new(3, 7);
    assert_eq!(p.probe, 3);
    assert_eq!(p.candidate, 7);
    assert_eq!(p.supporting_edges, 0);
}

#[test]
fn skeleton_filters_test_dot_filter_removes_isolated() {
    let mut bm = BooleanMatrix::new(5, 5);
    bm.set(2, 2, true);
    let dot_filter = SkeletonDotFilter;
    dot_filter.apply(&mut bm, &IntPoint::new(2, 2));
    assert!(!bm.get(2, 2));
}

#[test]
fn test_dot_filter_keeps_connected() {
    let mut bm = BooleanMatrix::new(5, 5);
    for y in 1..4 {
        for x in 1..4 {
            bm.set(x, y, true);
        }
    }
    let dot_filter = SkeletonDotFilter;
    dot_filter.apply(&mut bm, &IntPoint::new(2, 2));
    assert!(bm.get(2, 2));
}

#[test]
fn knot_filter_changes_nothing() {
    let mut bm = BooleanMatrix::new(3, 3);
    bm.set(1, 1, true);
    SkeletonKnotFilter.apply(&mut bm, &IntPoint::new(1, 1));
    assert!(bm.get(1, 1));
}

#[test]
fn apply_filters_removes_every_dot() {
    let mut bm = BooleanMatrix::new(6, 6);
    bm.set(1, 1, true);
    bm.set(4, 4, true);
    bm.set(4, 3, true);
    apply_filters(&mut bm);
    assert!(!bm.get(1, 1));
    assert!(bm.get(4, 4));
    assert!(bm.get(4, 3));
}

#[test]
fn test_thinning_basic() {
    let mut bm = BooleanMatrix::new(20, 20);
    for y in 0..20 {
        bm.set(10, y, true);
    }
    let tracing = SkeletonTracing::new(&bm);
    assert!(tracing.skeleton().get(10, 10));
}

#[test]
fn tracing_trace_gives_empty_ridge_skeleton() {
    let bm = BooleanMatrix::new(7, 5);
    let mut tracing = SkeletonTracing::new(&bm);
    let skeleton = tracing.trace();
    assert_eq!(skeleton.type_, SkeletonType::Ridges);
    assert_eq!(skeleton.size, IntPoint::new(7, 5));
    assert!(skeleton.minutiae.is_empty());
}

#[test]
fn skeleton_ridge_span_needs_a_full_window() {
    assert_eq!(direction_span(25), Some((1, 21)));
    assert_eq!(direction_span(22), Some((1, 21)));
    assert_eq!(direction_span(21), Some((1, 20)));
    assert_eq!(direction_span(20), None);
    assert_eq!(direction_span(3), None);
    assert_eq!(direction_span(1), None);
}
