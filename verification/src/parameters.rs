use vstd::prelude::*;

verus! {

/// An exact non-negative ratio `numerator / denominator`.
///
/// Majority thresholds of the vote filters are ratios; holding them exactly
/// keeps every vote decision a comparison of integers.
#[derive(Clone, Copy, Debug, PartialEq, Eq, Structural)]
pub struct Fraction {
    pub numerator: u32,
    pub denominator: u32,
}

impl Fraction {
    pub fn new(numerator: u32, denominator: u32) -> (r: Fraction)
        ensures
            r.numerator == numerator,
            r.denominator == denominator,
    {
        Fraction { numerator, denominator }
    }

    /// Whether `count` out of `total` reaches this ratio, that is
    /// `count / total >= numerator / denominator`, compared without division.
    pub open spec fn reached(self, count: int, total: int) -> bool {
        count * self.denominator >= self.numerator * total
    }
}

/// Tuning constants of the extractor.
pub struct Parameters;

impl Parameters {
    pub const BLOCK_SIZE: usize = 15;
    pub const HISTOGRAM_DEPTH: usize = 256;
    pub const LOCAL_HISTOGRAM_WINDOW_SIZE: usize = 15;
    pub const RELATIVE_CONTRAST_SAMPLE: usize = 168568;
    pub const MASK_VOTE_RADIUS: usize = 7;
    pub const MASK_VOTE_BORDER_DISTANCE: usize = 4;
    pub const BLOCK_ERRORS_VOTE_RADIUS: usize = 1;
    pub const BLOCK_ERRORS_VOTE_BORDER_DISTANCE: usize = 4;
    pub const ORIENTATION_SPLIT: usize = 50;
    pub const ORIENTATIONS_CHECKED: usize = 20;
    pub const ORIENTATION_SMOOTHING_RADIUS: usize = 1;
    pub const PARALLEL_SMOOTHING_RESOLUTION: usize = 32;
    pub const PARALLEL_SMOOTHING_RADIUS: usize = 7;
    pub const ORTHOGONAL_SMOOTHING_RESOLUTION: usize = 11;
    pub const ORTHOGONAL_SMOOTHING_RADIUS: usize = 4;
    pub const BINARIZED_VOTE_RADIUS: usize = 2;
    pub const BINARIZED_VOTE_BORDER_DISTANCE: usize = 17;
    pub const INNER_MASK_BORDER_DISTANCE: usize = 14;
    pub const MINUTIA_CLOUD_RADIUS: usize = 20;
    pub const MAX_CLOUD_SIZE: usize = 4;
    pub const MAX_MINUTIAE: usize = 100;
    pub const SORT_BY_NEIGHBOR: usize = 5;
    pub const EDGE_TABLE_NEIGHBORS: usize = 9;
    pub const THINNING_ITERATIONS: usize = 26;
    pub const MAX_PORE_ARM: usize = 41;
    pub const SHORTEST_ENDED_MINUTIA: usize = 7;
    pub const MAX_RUPTURE_SIZE: usize = 5;
    pub const MAX_GAP_SIZE: usize = 20;
    pub const GAP_ANGLE_OFFSET: usize = 22;
    pub const TOLERATED_GAP_OVERLAP: usize = 2;
    pub const MIN_TAIL_LENGTH: usize = 21;
    pub const MIN_FRAGMENT_LENGTH: usize = 22;
    pub const MAX_DISTANCE_ERROR: usize = 13;
    pub const RIDGE_DIRECTION_SAMPLE: usize = 21;
    pub const RIDGE_DIRECTION_SKIP: usize = 1;
    pub const MAX_TRIED_ROOTS: usize = 70;
    pub const MIN_ROOT_EDGE_LENGTH: usize = 58;
    pub const MAX_ROOT_EDGE_LOOKUPS: usize = 1633;
    pub const MIN_SUPPORTING_EDGES: usize = 1;

    /// Majority of the segmentation mask vote: 51 %.
    pub fn mask_vote_majority() -> (r: Fraction)
        ensures
            r.numerator == 51,
            r.denominator == 100,
    {
        Fraction::new(51, 100)
    }

    /// Majority of the block error vote: 70 %.
    pub fn block_errors_vote_majority() -> (r: Fraction)
        ensures
            r.numerator == 7,
            r.denominator == 10,
    {
        Fraction::new(7, 10)
    }

    /// Majority of the binarized image vote: 61 %.
    pub fn binarized_vote_majority() -> (r: Fraction)
        ensures
            r.numerator == 61,
            r.denominator == 100,
    {
        Fraction::new(61, 100)
    }
}

} // verus!
