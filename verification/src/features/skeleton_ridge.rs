use vstd::prelude::*;
use crate::parameters::Parameters;

verus! {

/// Indices of the two shape points a skeleton ridge of `n` points takes its
/// direction from: the sample window starts `RIDGE_DIRECTION_SKIP` points in
/// and spans `RIDGE_DIRECTION_SAMPLE` points; a ridge exactly one point too
/// short for it loses the window's last point, and a shorter ridge has no
/// direction.
pub open spec fn skeleton_ridge_span(n: int) -> Option<(int, int)> {
    let skip = Parameters::RIDGE_DIRECTION_SKIP as int;
    let sample = Parameters::RIDGE_DIRECTION_SAMPLE as int;
    if n >= skip + sample {
        Some((skip, skip + sample - 1))
    } else if n == sample {
        Some((skip, sample - 1))
    } else {
        None
    }
}

/// The sample window of a skeleton ridge of `n` points (see
/// `skeleton_ridge_span`): shifted back to end at the last point, then moved
/// forward again when that pushed its start below zero, and dropped when it
/// no longer fits.
pub fn direction_span(n: usize) -> (r: Option<(usize, usize)>)
    ensures
        match r {
            Some((first, last)) => skeleton_ridge_span(n as int) == Some((first as int, last as int)),
            None => skeleton_ridge_span(n as int) is None,
        },
{
    if n < 2 {
        return None;
    }
    let skip = Parameters::RIDGE_DIRECTION_SKIP as i64;
    let sample = Parameters::RIDGE_DIRECTION_SAMPLE as i64;
    let count: i64 = if n > 1000 { 1000 } else { n as i64 };
    let mut first: i64 = skip;
    let mut last: i64 = skip + sample - 1;
    if last >= count {
        let shift = last - count + 1;
        last = last - shift;
        let shifted_first = first - shift;
        if shifted_first < 0 {
            let shift2 = 0 - shifted_first;
            first = first + shift2;
            last = last + shift2;
        }
    }
    if last >= count || first >= count {
        None
    } else {
        Some((first as usize, last as usize))
    }
}

} // verus!
