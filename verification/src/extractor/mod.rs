pub mod window;
pub mod vote_filter;
pub mod binary_thinning;
pub mod binarized_image;
pub mod skeleton_graph;
pub mod skeleton_filters_graph;
pub mod skeleton_tracing_graph;
pub mod neighbors;
pub mod skeleton_tracing;
pub mod skeleton_filters;
pub mod image_resize;
pub mod clipped_contrast;
pub mod absolute_contrast_mask;
pub mod relative_contrast_mask;
pub mod segmentation_mask;
pub mod local_histograms;
pub mod minutia_collector_graph;
pub mod minutia_collector;
pub mod edges;
pub mod pixelwise_orientations;

use vstd::prelude::*;
use crate::extractor::binarized_image::set_count;
use crate::extractor::skeleton_filters::{isolated_dot, SkeletonFilter};
use crate::extractor::skeleton_tracing::{traced, SkeletonTracer};
use crate::extractor::vote_filter::{vote, vote_at};
use crate::parameters::{Fraction, Parameters};
use crate::primitives::bool_matrix::BooleanMatrix;

verus! {

/// Extracts minutiae from fingerprint images of a given resolution.
pub struct FeatureExtractor {
    pub dpi: u32,
}

impl FeatureExtractor {
    /// An extractor for images of `dpi` dots per inch (0 when unknown).
    pub fn new(dpi: u32) -> (r: FeatureExtractor)
        ensures
            r.dpi == dpi,
    {
        FeatureExtractor { dpi }
    }

    /// Number of set cells.
    pub fn boolean_count(matrix: &BooleanMatrix) -> (count: usize)
        ensures
            count == set_count(matrix.cells@),
    {
        let n = matrix.cells.len();
        let mut count: usize = 0;
        let mut i: usize = 0;
        while i < n
            invariant
                n == matrix.cells@.len(),
                i <= n,
                count == set_count(matrix.cells@.subrange(0, i as int)),
                count <= i,
            decreases n - i,
        {
            proof {
                assert(matrix.cells@.subrange(0, i + 1).drop_last() =~= matrix.cells@.subrange(0, i as int));
            }
            if matrix.cells[i] {
                count = count + 1;
            }
            i = i + 1;
        }
        assert(matrix.cells@.subrange(0, n as int) =~= matrix.cells@);
        count
    }

    /// The binarized image with every pixel added that the binarization
    /// vote sets: the vote covers the pixels at least
    /// `BINARIZED_VOTE_BORDER_DISTANCE` away from the edges and sets those
    /// with at least 61 % of the pixels set in the window of radius
    /// `BINARIZED_VOTE_RADIUS` around them.
    pub fn stage_vote_filter(binarized: &BooleanMatrix) -> (result: BooleanMatrix)
        requires
            binarized.wf(),
            binarized.width <= i32::MAX,
            binarized.height <= i32::MAX,
        ensures
            result.wf(),
            result.width == binarized.width,
            result.height == binarized.height,
            forall|x: int, y: int| #[trigger] result.in_bounds(x, y) ==> result.at(x, y) == (binarized.at(x, y) || vote_at(
                *binarized,
                None,
                Parameters::BINARIZED_VOTE_RADIUS as int,
                Fraction { numerator: 61, denominator: 100 },
                Parameters::BINARIZED_VOTE_BORDER_DISTANCE as int,
                x,
                y,
            )),
    {
        let voted = vote(
            binarized,
            None,
            Parameters::BINARIZED_VOTE_RADIUS as i32,
            Parameters::binarized_vote_majority(),
            Parameters::BINARIZED_VOTE_BORDER_DISTANCE as i32,
        );
        let mut result = BooleanMatrix::from_clone(binarized);
        let ghost copy = result;
        result.merge(&voted);
        assert forall|x: int, y: int| #[trigger] result.in_bounds(x, y) implies result.at(x, y) == (binarized.at(x, y) || vote_at(
            *binarized,
            None,
            Parameters::BINARIZED_VOTE_RADIUS as int,
            Fraction { numerator: 61, denominator: 100 },
            Parameters::BINARIZED_VOTE_BORDER_DISTANCE as int,
            x,
            y,
        )) by {
            assert(voted.in_bounds(x, y));
            assert(copy.in_bounds(x, y));
        }
        result
    }
    /// The traced skeleton of the binarized image.
    pub fn stage_skeleton(binarized: BooleanMatrix) -> (r: BooleanMatrix)
        requires
            binarized.wf(),
            binarized.width <= i32::MAX,
            binarized.height <= i32::MAX,
        ensures
            r.wf(),
            r.width == binarized.width,
            r.height == binarized.height,
            forall|x: int, y: int| #![trigger r.at(x, y)] r.in_bounds(x, y) ==> r.at(x, y) == traced(binarized)(x, y),
    {
        let tracer = SkeletonTracer::new(&binarized);
        BooleanMatrix::from_clone(tracer.skeleton())
    }

    /// The skeleton without its isolated dots.
    pub fn stage_skeleton_filters(skeleton: BooleanMatrix) -> (r: BooleanMatrix)
        requires
            skeleton.wf(),
            skeleton.width <= i32::MAX,
            skeleton.height <= i32::MAX,
        ensures
            r.wf(),
            r.width == skeleton.width,
            r.height == skeleton.height,
            forall|x: int, y: int| #![trigger r.at(x, y)] r.in_bounds(x, y) ==> r.at(x, y) == (skeleton.at(x, y) && !isolated_dot(skeleton, x, y)),
    {
        let filter = SkeletonFilter::new(&skeleton);
        BooleanMatrix::from_clone(filter.skeleton())
    }
}

} // verus!
