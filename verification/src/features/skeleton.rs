use vstd::prelude::*;
use crate::features::skeleton_minutia::SkeletonMinutia;
use crate::features::skeleton_type::SkeletonType;
use crate::primitives::bool_matrix::BooleanMatrix;
use crate::primitives::int_point::IntPoint;

verus! {

/// The minutiae of one skeleton of an image of the given size.
pub struct Skeleton {
    pub type_: SkeletonType,
    pub size: IntPoint,
    pub minutiae: Vec<SkeletonMinutia>,
}

/// Positions of a list of skeleton minutiae.
pub open spec fn positions(s: Seq<SkeletonMinutia>) -> Seq<IntPoint> {
    s.map_values(|m: SkeletonMinutia| m.position)
}

impl Skeleton {
    /// An empty skeleton.
    pub fn new(type_: SkeletonType, size: &IntPoint) -> (r: Skeleton)
        ensures
            r.type_ == type_,
            r.size == *size,
            r.minutiae@.len() == 0,
    {
        Skeleton { type_, size: *size, minutiae: Vec::new() }
    }

    /// Appends a minutia.
    pub fn add_minutia(&mut self, minutia: SkeletonMinutia)
        ensures
            final(self).type_ == old(self).type_,
            final(self).size == old(self).size,
            final(self).minutiae@ == old(self).minutiae@.push(minutia),
    {
        self.minutiae.push(minutia);
    }

    /// Removes every minutia at the position of `minutia`, keeping the order of the others.
    pub fn remove_minutia(&mut self, minutia: &SkeletonMinutia)
        ensures
            final(self).type_ == old(self).type_,
            final(self).size == old(self).size,
            positions(final(self).minutiae@) == positions(old(self).minutiae@).filter(|p: IntPoint| p != minutia.position),
    {
        let mut kept: Vec<SkeletonMinutia> = Vec::new();
        let old_len = self.minutiae.len();
        let ghost old_ms = self.minutiae@;
        let mut remaining: Vec<SkeletonMinutia> = Vec::new();
        std::mem::swap(&mut remaining, &mut self.minutiae);
        let mut i: usize = 0;
        while i < remaining.len()
            invariant
                remaining@ == old_ms,
                i <= remaining@.len(),
                positions(kept@) == positions(old_ms.subrange(0, i as int)).filter(|p: IntPoint| p != minutia.position),
            decreases remaining@.len() - i,
        {
            let m_pos = remaining[i].position;
            proof {
                assert(old_ms.subrange(0, i + 1) == old_ms.subrange(0, i as int).push(old_ms[i as int]));
                assert(positions(old_ms.subrange(0, i + 1)) =~= positions(old_ms.subrange(0, i as int)).push(m_pos));
                assert(positions(old_ms.subrange(0, i as int)).push(m_pos).filter(|p: IntPoint| p != minutia.position)
                    == {
                        let f = positions(old_ms.subrange(0, i as int)).filter(|p: IntPoint| p != minutia.position);
                        if m_pos != minutia.position { f.push(m_pos) } else { f }
                    }) by {
                    reveal(Seq::filter);
                    assert(positions(old_ms.subrange(0, i as int)).push(m_pos).drop_last() =~= positions(old_ms.subrange(0, i as int)));
                }
            }
            if m_pos != minutia.position {
                let m = SkeletonMinutia { position: m_pos, ridges: copy_indices(&remaining[i].ridges) };
                kept.push(m);
                proof {
                    assert(positions(kept@) =~= positions(kept@.drop_last()).push(m_pos));
                }
            }
            i = i + 1;
        }
        assert(old_ms.subrange(0, old_ms.len() as int) =~= old_ms);
        self.minutiae = kept;
    }

    /// A clear matrix of the skeleton's size.
    pub fn shadow(&self) -> (r: BooleanMatrix)
        requires
            self.size.x >= 0,
            self.size.y >= 0,
            self.size.x * self.size.y <= usize::MAX,
        ensures
            r.wf(),
            r.width == self.size.x,
            r.height == self.size.y,
            forall|x: int, y: int| r.in_bounds(x, y) ==> !#[trigger] r.at(x, y),
    {
        BooleanMatrix::from_point(&self.size)
    }
}

/// A copy of a list of indices.
fn copy_indices(v: &Vec<usize>) -> (r: Vec<usize>)
    ensures
        r@ == v@,
{
    let mut r: Vec<usize> = Vec::new();
    let mut k: usize = 0;
    while k < v.len()
        invariant
            k <= v@.len(),
            r@ == v@.subrange(0, k as int),
        decreases v@.len() - k,
    {
        r.push(v[k]);
        k = k + 1;
    }
    assert(v@.subrange(0, v@.len() as int) =~= v@);
    r
}

impl Default for Skeleton {
    fn default() -> (r: Skeleton)
        ensures
            r.type_ == SkeletonType::Ridges,
            r.size.x == 0,
            r.size.y == 0,
            r.minutiae@.len() == 0,
    {
        Skeleton::new(SkeletonType::Ridges, &IntPoint::new(0, 0))
    }
}

} // verus!
