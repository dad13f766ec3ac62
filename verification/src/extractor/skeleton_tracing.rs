use vstd::prelude::*;
use crate::extractor::binarized_image::set_count;
use crate::extractor::neighbors::{cells_of, count_neighbors, lemma_cells_of, lemma_neighbors_agree, neighbors_of};
use crate::parameters::Parameters;
use crate::primitives::bool_matrix::BooleanMatrix;
use crate::primitives::int_point::IntPoint;

verus! {

/// One round of junction removal: every set pixel off the frame of a
/// `w × h` image with at least three set neighbours is cleared, all decided
/// on the image before the round.
pub open spec fn tracer_pass(f: spec_fn(int, int) -> bool, w: int, h: int) -> spec_fn(int, int) -> bool {
    |x: int, y: int| f(x, y) && !(1 <= x < w - 1 && 1 <= y < h - 1 && neighbors_of(f, w, h, x, y) >= 3)
}

/// Applying one round at a pixel.
pub proof fn lemma_tracer_pass(f: spec_fn(int, int) -> bool, w: int, h: int, x: int, y: int)
    ensures
        tracer_pass(f, w, h)(x, y) == (f(x, y) && !(1 <= x < w - 1 && 1 <= y < h - 1 && neighbors_of(f, w, h, x, y) >= 3)),
{
}

/// `k` rounds of junction removal.
pub open spec fn tracer_rounds(f: spec_fn(int, int) -> bool, w: int, h: int, k: nat) -> spec_fn(int, int) -> bool
    decreases k,
{
    if k == 0 {
        f
    } else {
        tracer_pass(tracer_rounds(f, w, h, (k - 1) as nat), w, h)
    }
}

/// The skeleton that `SkeletonTracer::new` derives from `binary`: the input
/// itself when it is less than 3 pixels wide or high, otherwise the input
/// after `THINNING_ITERATIONS` rounds of junction removal.
pub open spec fn traced(binary: BooleanMatrix) -> spec_fn(int, int) -> bool {
    if binary.width < 3 || binary.height < 3 {
        cells_of(binary)
    } else {
        tracer_rounds(cells_of(binary), binary.width as int, binary.height as int, Parameters::THINNING_ITERATIONS as nat)
    }
}

/// A set pixel with exactly one set neighbour or at least three.
pub open spec fn tracer_minutia(m: BooleanMatrix, x: int, y: int) -> bool {
    let n = neighbors_of(cells_of(m), m.width as int, m.height as int, x, y);
    m.at(x, y) && (n == 1 || n >= 3)
}

/// Skeleton of a binary image by repeated removal of junction pixels.
pub struct SkeletonTracer {
    skeleton: BooleanMatrix,
}

impl SkeletonTracer {
    /// The traced skeleton.
    pub closed spec fn skeleton_view(&self) -> BooleanMatrix {
        self.skeleton
    }

    /// One round of junction removal (see `tracer_pass`).
    fn thin_pass(skeleton: &mut BooleanMatrix)
        requires
            old(skeleton).wf(),
            old(skeleton).width <= i32::MAX,
            old(skeleton).height <= i32::MAX,
            old(skeleton).width >= 1,
            old(skeleton).height >= 1,
        ensures
            final(skeleton).wf(),
            final(skeleton).width == old(skeleton).width,
            final(skeleton).height == old(skeleton).height,
            forall|x: int, y: int| #![trigger final(skeleton).at(x, y)] final(skeleton).in_bounds(x, y) ==>
                final(skeleton).at(x, y) == tracer_pass(cells_of(*old(skeleton)), old(skeleton).width as int, old(skeleton).height as int)(x, y),
    {
        let snapshot = BooleanMatrix::from_clone(skeleton);
        let w = skeleton.width();
        let h = skeleton.height();
        let ghost f = cells_of(*old(skeleton));
        let mut y: usize = 1;
        while y + 1 < h
            invariant
                f == cells_of(*old(skeleton)),
                skeleton.wf(),
                snapshot.wf(),
                snapshot.same_as(&*old(skeleton)),
                skeleton.width == w,
                skeleton.height == h,
                w == old(skeleton).width,
                h == old(skeleton).height,
                w <= i32::MAX,
                h <= i32::MAX,
                w >= 1,
                h >= 1,
                1 <= y <= h,
                forall|a: int, b: int| #![trigger skeleton.at(a, b)] skeleton.in_bounds(a, b) ==>
                    skeleton.at(a, b) == if b < y { tracer_pass(f, w as int, h as int)(a, b) } else { old(skeleton).at(a, b) },
            decreases h - y,
        {
            proof {
                assert forall|a: int, b: int| #![trigger skeleton.at(a, b)] skeleton.in_bounds(a, b) implies
                    skeleton.at(a, b) == if b < y || (b == y && a < 1) {
                        tracer_pass(f, w as int, h as int)(a, b)
                    } else {
                        old(skeleton).at(a, b)
                    } by {
                    if b == y && a < 1 {
                        lemma_tracer_pass(f, w as int, h as int, a, b);
                        lemma_cells_of(*old(skeleton), a, b);
                    }
                }
            }
            let mut x: usize = 1;
            while x + 1 < w
                invariant
                    f == cells_of(*old(skeleton)),
                    skeleton.wf(),
                    snapshot.wf(),
                    snapshot.same_as(&*old(skeleton)),
                    skeleton.width == w,
                    skeleton.height == h,
                    w == old(skeleton).width,
                    h == old(skeleton).height,
                    w <= i32::MAX,
                    h <= i32::MAX,
                    w >= 1,
                    1 <= y,
                    y + 1 < h,
                    1 <= x <= w,
                    forall|a: int, b: int| #![trigger skeleton.at(a, b)] skeleton.in_bounds(a, b) ==>
                        skeleton.at(a, b) == if b < y || (b == y && a < x) {
                            tracer_pass(f, w as int, h as int)(a, b)
                        } else {
                            old(skeleton).at(a, b)
                        },
                decreases w - x,
            {
                proof {
                    assert forall|a: int, b: int| 0 <= a < w && 0 <= b < h implies #[trigger] cells_of(snapshot)(a, b) == f(a, b) by {
                        assert(snapshot.at(a, b) == old(skeleton).at(a, b));
                        lemma_cells_of(snapshot, a, b);
                        lemma_cells_of(*old(skeleton), a, b);
                    }
                    lemma_neighbors_agree(cells_of(snapshot), f, w as int, h as int, x as int, y as int);
                }
                proof {
                    lemma_tracer_pass(f, w as int, h as int, x as int, y as int);
                    lemma_cells_of(*old(skeleton), x as int, y as int);
                }
                if snapshot.get(x, y) && count_neighbors(&snapshot, x, y) >= 3 {
                    skeleton.set(x, y, false);
                }
                x = x + 1;
            }
            proof {
                assert forall|a: int, b: int| #![trigger skeleton.at(a, b)] skeleton.in_bounds(a, b) implies
                    skeleton.at(a, b) == if b < y + 1 {
                        tracer_pass(f, w as int, h as int)(a, b)
                    } else {
                        old(skeleton).at(a, b)
                    } by {
                    if b == y && a >= x {
                        lemma_tracer_pass(f, w as int, h as int, a, b);
                        lemma_cells_of(*old(skeleton), a, b);
                    }
                }
            }
            y = y + 1;
        }
        proof {
            assert forall|a: int, b: int| #![trigger skeleton.at(a, b)] skeleton.in_bounds(a, b) implies
                skeleton.at(a, b) == tracer_pass(f, w as int, h as int)(a, b) by {
                if b >= y {
                    lemma_tracer_pass(f, w as int, h as int, a, b);
                    lemma_cells_of(*old(skeleton), a, b);
                }
            }
        }
    }

    /// Runs `iterations` rounds of junction removal; images less than 3
    /// pixels wide or high are left as they are.
    fn thin(skeleton: &mut BooleanMatrix, iterations: usize)
        requires
            old(skeleton).wf(),
            old(skeleton).width <= i32::MAX,
            old(skeleton).height <= i32::MAX,
        ensures
            final(skeleton).wf(),
            final(skeleton).width == old(skeleton).width,
            final(skeleton).height == old(skeleton).height,
            forall|x: int, y: int| #![trigger final(skeleton).at(x, y)] final(skeleton).in_bounds(x, y) ==>
                final(skeleton).at(x, y) == if old(skeleton).width < 3 || old(skeleton).height < 3 {
                    old(skeleton).at(x, y)
                } else {
                    tracer_rounds(cells_of(*old(skeleton)), old(skeleton).width as int, old(skeleton).height as int, iterations as nat)(x, y)
                },
    {
        let w = skeleton.width();
        let h = skeleton.height();
        if w < 3 || h < 3 {
            return;
        }
        let ghost f = cells_of(*old(skeleton));
        let mut i: usize = 0;
        while i < iterations
            invariant
                f == cells_of(*old(skeleton)),
                skeleton.wf(),
                skeleton.width == w,
                skeleton.height == h,
                w == old(skeleton).width,
                h == old(skeleton).height,
                3 <= w <= i32::MAX,
                3 <= h <= i32::MAX,
                i <= iterations,
                forall|a: int, b: int| #![trigger skeleton.at(a, b)] skeleton.in_bounds(a, b) ==>
                    skeleton.at(a, b) == tracer_rounds(f, w as int, h as int, i as nat)(a, b),
            decreases iterations - i,
        {
            let ghost before = *skeleton;
            Self::thin_pass(skeleton);
            proof {
                assert forall|a: int, b: int| #![trigger skeleton.at(a, b)] skeleton.in_bounds(a, b) implies
                    skeleton.at(a, b) == tracer_rounds(f, w as int, h as int, (i + 1) as nat)(a, b) by {
                    let prev = tracer_rounds(f, w as int, h as int, i as nat);
                    assert forall|c: int, d: int| 0 <= c < w && 0 <= d < h implies #[trigger] cells_of(before)(c, d) == prev(c, d) by {
                        assert(before.at(c, d) == prev(c, d));
                    }
                    lemma_neighbors_agree(cells_of(before), prev, w as int, h as int, a, b);
                    assert(before.at(a, b) == prev(a, b));
                }
            }
            i = i + 1;
        }
    }

    /// Traces the skeleton of `binary` (see `traced`).
    pub fn new(binary: &BooleanMatrix) -> (tracer: SkeletonTracer)
        requires
            binary.wf(),
            binary.width <= i32::MAX,
            binary.height <= i32::MAX,
        ensures
            tracer.skeleton_view().wf(),
            tracer.skeleton_view().width == binary.width,
            tracer.skeleton_view().height == binary.height,
            forall|x: int, y: int| #![trigger tracer.skeleton_view().at(x, y)] tracer.skeleton_view().in_bounds(x, y) ==>
                tracer.skeleton_view().at(x, y) == traced(*binary)(x, y),
    {
        let mut skeleton = BooleanMatrix::from_clone(binary);
        let ghost copy = skeleton;
        Self::thin(&mut skeleton, Parameters::THINNING_ITERATIONS);
        proof {
            assert(cells_of(copy) =~= cells_of(*binary));
        }
        SkeletonTracer { skeleton }
    }

    /// The traced skeleton.
    pub fn skeleton(&self) -> (r: &BooleanMatrix)
        ensures
            *r == self.skeleton_view(),
    {
        &self.skeleton
    }

    /// Whether `(x, y)` is a pixel of the skeleton (false outside the image).
    pub fn is_skeleton_pixel(&self, x: i32, y: i32) -> (r: bool)
        requires
            self.skeleton_view().wf(),
            self.skeleton_view().width <= i32::MAX,
            self.skeleton_view().height <= i32::MAX,
        ensures
            r == (self.skeleton_view().in_bounds(x as int, y as int) && self.skeleton_view().at(x as int, y as int)),
    {
        let w = self.skeleton.width() as i32;
        let h = self.skeleton.height() as i32;
        if x < 0 || y < 0 || x >= w || y >= h {
            return false;
        }
        self.skeleton.get(x as usize, y as usize)
    }

    /// Number of skeleton pixels.
    pub fn pixel_count(&self) -> (n: usize)
        requires
            self.skeleton_view().wf(),
        ensures
            n == set_count(self.skeleton_view().cells@),
    {
        let cells = &self.skeleton.cells;
        let mut count: usize = 0;
        let mut i: usize = 0;
        while i < cells.len()
            invariant
                i <= cells@.len(),
                count == set_count(cells@.subrange(0, i as int)),
                count <= i,
            decreases cells@.len() - i,
        {
            proof {
                assert(cells@.subrange(0, i + 1).drop_last() =~= cells@.subrange(0, i as int));
            }
            if cells[i] {
                count = count + 1;
            }
            i = i + 1;
        }
        assert(cells@.subrange(0, cells@.len() as int) =~= cells@);
        count
    }

    /// Skeleton pixels with one set neighbour or at least three, in
    /// row-major order.
    pub fn find_minutia_points(&self) -> (points: Vec<IntPoint>)
        requires
            self.skeleton_view().wf(),
            self.skeleton_view().width <= i32::MAX,
            self.skeleton_view().height <= i32::MAX,
        ensures
            forall|i: int| 0 <= i < points@.len() ==> {
                let p = #[trigger] points@[i];
                &&& self.skeleton_view().in_bounds(p.x as int, p.y as int)
                &&& tracer_minutia(self.skeleton_view(), p.x as int, p.y as int)
            },
            forall|i: int, j: int| 0 <= i < j < points@.len() ==>
                (#[trigger] points@[i]).y * self.skeleton_view().width + points@[i].x
                < (#[trigger] points@[j]).y * self.skeleton_view().width + points@[j].x,
            forall|x: int, y: int| self.skeleton_view().in_bounds(x, y) && tracer_minutia(self.skeleton_view(), x, y) ==>
                #[trigger] points@.contains(IntPoint { x: x as i32, y: y as i32 }),
    {
        let m = &self.skeleton;
        let w = m.width();
        let h = m.height();
        let mut points: Vec<IntPoint> = Vec::new();
        let mut y: usize = 0;
        while y < h
            invariant
                m.wf(),
                *m == self.skeleton_view(),
                w == m.width,
                h == m.height,
                w <= i32::MAX,
                h <= i32::MAX,
                y <= h,
                forall|i: int| 0 <= i < points@.len() ==> {
                    let p = #[trigger] points@[i];
                    &&& m.in_bounds(p.x as int, p.y as int)
                    &&& tracer_minutia(*m, p.x as int, p.y as int)
                    &&& p.y < y
                },
                forall|i: int, j: int| 0 <= i < j < points@.len() ==>
                    (#[trigger] points@[i]).y * w + points@[i].x < (#[trigger] points@[j]).y * w + points@[j].x,
                forall|a: int, b: int| 0 <= a < w && 0 <= b < y && tracer_minutia(*m, a, b) ==>
                    #[trigger] points@.contains(IntPoint { x: a as i32, y: b as i32 }),
            decreases h - y,
        {
            let mut x: usize = 0;
            while x < w
                invariant
                    m.wf(),
                    *m == self.skeleton_view(),
                    w == m.width,
                    h == m.height,
                    w <= i32::MAX,
                    h <= i32::MAX,
                    y < h,
                    x <= w,
                    forall|i: int| 0 <= i < points@.len() ==> {
                        let p = #[trigger] points@[i];
                        &&& m.in_bounds(p.x as int, p.y as int)
                        &&& tracer_minutia(*m, p.x as int, p.y as int)
                        &&& (p.y < y || (p.y == y && p.x < x))
                    },
                    forall|i: int, j: int| 0 <= i < j < points@.len() ==>
                        (#[trigger] points@[i]).y * w + points@[i].x < (#[trigger] points@[j]).y * w + points@[j].x,
                    forall|a: int, b: int| 0 <= a < w && 0 <= b < h && (b < y || (b == y && a < x)) && tracer_minutia(*m, a, b) ==>
                        #[trigger] points@.contains(IntPoint { x: a as i32, y: b as i32 }),
                decreases w - x,
            {
                if m.get(x, y) {
                    let n = count_neighbors(m, x, y);
                    if n == 1 || n >= 3 {
                        let ghost before = points@;
                        let at = IntPoint::new(x as i32, y as i32);
                        points.push(at);
                        proof {
                            assert forall|i: int, j: int| 0 <= i < j < points@.len() implies
                                (#[trigger] points@[i]).y * w + points@[i].x < (#[trigger] points@[j]).y * w + points@[j].x by {
                                if j == before.len() {
                                    let p = points@[i];
                                    if p.y < y {
                                        assert(p.y * w + p.x < y * w + x) by (nonlinear_arith)
                                            requires p.y < y, 0 <= p.x < w, 0 <= x;
                                    }
                                }
                            }
                            assert forall|a: int, b: int| 0 <= a < w && 0 <= b < h && (b < y || (b == y && a < x + 1)) && tracer_minutia(*m, a, b) implies
                                #[trigger] points@.contains(IntPoint { x: a as i32, y: b as i32 }) by {
                                if b == y && a == x {
                                    assert(points@[before.len() as int] == IntPoint { x: a as i32, y: b as i32 });
                                } else {
                                    assert(before.contains(IntPoint { x: a as i32, y: b as i32 }));
                                    let k = choose|k: int| 0 <= k < before.len() && before[k] == IntPoint { x: a as i32, y: b as i32 };
                                    assert(points@[k] == before[k]);
                                }
                            }
                        }
                    }
                }
                x = x + 1;
            }
            y = y + 1;
        }
        points
    }
}

} // verus!
