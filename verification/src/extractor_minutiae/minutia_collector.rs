use vstd::prelude::*;
use crate::extractor::neighbors::{cells_of, count_neighbors, neighbors_of};
use crate::features::minutia_type::MinutiaType;
use crate::primitives::bool_matrix::BooleanMatrix;
use crate::primitives::int_point::IntPoint;

verus! {

/// A point of a skeleton that corresponds to a minutia, with the indices of its ridges.
#[derive(Clone, Debug)]
pub struct SkeletonMinutia {
    pub position: IntPoint,
    pub ridges: Vec<usize>,
}

impl SkeletonMinutia {
    /// A minutia point without ridges.
    pub fn new(position: IntPoint) -> (r: SkeletonMinutia)
        ensures
            r.position == position,
            r.ridges@.len() == 0,
    {
        SkeletonMinutia { position, ridges: Vec::new() }
    }
}

/// The minutia type of skeleton pixel `(x, y)`, if it is one: a set pixel
/// with one set neighbour ends a ridge, one with three or more is a
/// bifurcation.
pub open spec fn minutia_kind(m: BooleanMatrix, x: int, y: int) -> Option<MinutiaType> {
    let n = neighbors_of(cells_of(m), m.width as int, m.height as int, x, y);
    if !m.at(x, y) {
        None
    } else if n == 1 {
        Some(MinutiaType::Ending)
    } else if n >= 3 {
        Some(MinutiaType::Bifurcation)
    } else {
        None
    }
}

/// Whether `(x, y)` is examined: pixels on the outermost rows and columns are not.
pub open spec fn examined(m: BooleanMatrix, x: int, y: int) -> bool {
    1 <= x < m.width - 1 && 1 <= y < m.height - 1
}

/// Position of `(x, y)` in row-major order.
pub open spec fn scan_index(x: int, y: int, width: int) -> int {
    y * width + x
}

/// Finds ridge endings and bifurcations in a binary skeleton.
pub struct MinutiaCollector {
    skeleton: BooleanMatrix,
    width: usize,
    height: usize,
}

impl MinutiaCollector {
    /// The skeleton the collector works on.
    pub closed spec fn skeleton_view(&self) -> BooleanMatrix {
        self.skeleton
    }

    /// The collector keeps a well-formed copy of its skeleton and its size.
    pub closed spec fn wf(&self) -> bool {
        &&& self.skeleton.wf()
        &&& self.width == self.skeleton.width
        &&& self.height == self.skeleton.height
        &&& self.width <= i32::MAX
        &&& self.height <= i32::MAX
    }

    /// A collector over a copy of `skeleton`.
    pub fn new(skeleton: &BooleanMatrix) -> (r: MinutiaCollector)
        requires
            skeleton.wf(),
            skeleton.width <= i32::MAX,
            skeleton.height <= i32::MAX,
        ensures
            r.wf(),
            r.skeleton_view().same_as(skeleton),
    {
        MinutiaCollector {
            skeleton: BooleanMatrix::from_clone(skeleton),
            width: skeleton.width(),
            height: skeleton.height(),
        }
    }

    /// Number of set pixels among the eight around `(x, y)`.
    fn count_neighbors(&self, x: usize, y: usize) -> (n: usize)
        requires
            self.wf(),
            x < self.skeleton_view().width,
            y < self.skeleton_view().height,
        ensures
            n == neighbors_of(cells_of(self.skeleton_view()), self.skeleton_view().width as int, self.skeleton_view().height as int, x as int, y as int),
    {
        count_neighbors(&self.skeleton, x, y)
    }

    /// The minutiae of the skeleton with their types, in row-major order of
    /// position; pixels on the outermost rows and columns are skipped.
    pub fn collect(&self) -> (minutiae: Vec<(IntPoint, MinutiaType)>)
        requires
            self.wf(),
            self.skeleton_view().height >= 1,
            self.skeleton_view().height >= 3 ==> self.skeleton_view().width >= 1,
        ensures
            forall|i: int| 0 <= i < minutiae@.len() ==> {
                let (p, t) = #[trigger] minutiae@[i];
                &&& examined(self.skeleton_view(), p.x as int, p.y as int)
                &&& minutia_kind(self.skeleton_view(), p.x as int, p.y as int) == Some(t)
            },
            forall|i: int, j: int| 0 <= i < j < minutiae@.len() ==>
                scan_index((#[trigger] minutiae@[i]).0.x as int, minutiae@[i].0.y as int, self.skeleton_view().width as int)
                    < scan_index((#[trigger] minutiae@[j]).0.x as int, minutiae@[j].0.y as int, self.skeleton_view().width as int),
            forall|x: int, y: int| #![trigger minutia_kind(self.skeleton_view(), x, y)]
                examined(self.skeleton_view(), x, y) && (minutia_kind(self.skeleton_view(), x, y) is Some) ==>
                (exists|i: int| 0 <= i < minutiae@.len() && (#[trigger] minutiae@[i]).0 == IntPoint { x: x as i32, y: y as i32 }),
    {
        let ghost m = self.skeleton_view();
        let w = self.width;
        let h = self.height;
        let mut minutiae: Vec<(IntPoint, MinutiaType)> = Vec::new();
        let mut y: usize = 1;
        while y < h - 1
            invariant
                self.wf(),
                m == self.skeleton_view(),
                w == m.width,
                h == m.height,
                h >= 1,
                h >= 3 ==> w >= 1,
                1 <= y,
                forall|i: int| 0 <= i < minutiae@.len() ==> {
                    let (p, t) = #[trigger] minutiae@[i];
                    &&& examined(m, p.x as int, p.y as int)
                    &&& minutia_kind(m, p.x as int, p.y as int) == Some(t)
                    &&& p.y < y
                },
                forall|i: int, j: int| 0 <= i < j < minutiae@.len() ==>
                    scan_index((#[trigger] minutiae@[i]).0.x as int, minutiae@[i].0.y as int, w as int)
                        < scan_index((#[trigger] minutiae@[j]).0.x as int, minutiae@[j].0.y as int, w as int),
                forall|a: int, b: int| #![trigger minutia_kind(m, a, b)]
                    examined(m, a, b) && b < y && (minutia_kind(m, a, b) is Some) ==>
                    (exists|i: int| 0 <= i < minutiae@.len() && (#[trigger] minutiae@[i]).0 == IntPoint { x: a as i32, y: b as i32 }),
            decreases h - y,
        {
            let mut x: usize = 1;
            while x < w - 1
                invariant
                    self.wf(),
                    m == self.skeleton_view(),
                    w == m.width,
                    h == m.height,
                    1 <= y < h - 1,
                    w >= 1,
                    1 <= x,
                    forall|i: int| 0 <= i < minutiae@.len() ==> {
                        let (p, t) = #[trigger] minutiae@[i];
                        &&& examined(m, p.x as int, p.y as int)
                        &&& minutia_kind(m, p.x as int, p.y as int) == Some(t)
                        &&& (p.y < y || (p.y == y && p.x < x))
                    },
                    forall|i: int, j: int| 0 <= i < j < minutiae@.len() ==>
                        scan_index((#[trigger] minutiae@[i]).0.x as int, minutiae@[i].0.y as int, w as int)
                            < scan_index((#[trigger] minutiae@[j]).0.x as int, minutiae@[j].0.y as int, w as int),
                    forall|a: int, b: int| #![trigger minutia_kind(m, a, b)]
                        examined(m, a, b) && (b < y || (b == y && a < x)) && (minutia_kind(m, a, b) is Some) ==>
                        (exists|i: int| 0 <= i < minutiae@.len() && (#[trigger] minutiae@[i]).0 == IntPoint { x: a as i32, y: b as i32 }),
                decreases w - x,
            {
                if self.skeleton.get(x, y) {
                    let neighbors = self.count_neighbors(x, y);
                    let kind = if neighbors == 1 {
                        Some(MinutiaType::Ending)
                    } else if neighbors >= 3 {
                        Some(MinutiaType::Bifurcation)
                    } else {
                        None
                    };
                    assert(kind == minutia_kind(m, x as int, y as int));
                    if let Some(t) = kind {
                        let at = IntPoint::new(x as i32, y as i32);
                        let ghost before = minutiae@;
                        minutiae.push((at, t));
                        proof {
                            assert forall|i: int, j: int| 0 <= i < j < minutiae@.len() implies
                                scan_index((#[trigger] minutiae@[i]).0.x as int, minutiae@[i].0.y as int, w as int)
                                    < scan_index((#[trigger] minutiae@[j]).0.x as int, minutiae@[j].0.y as int, w as int) by {
                                if j == before.len() {
                                    let p = minutiae@[i].0;
                                    assert(before[i] == minutiae@[i]);
                                    if p.y < y {
                                        assert(p.y * w + p.x < y * w + x) by (nonlinear_arith)
                                            requires p.y < y, 0 <= p.x < w, 0 <= x;
                                    }
                                } else {
                                    assert(before[i] == minutiae@[i] && before[j] == minutiae@[j]);
                                }
                            }
                            assert forall|a: int, b: int| #![trigger minutia_kind(m, a, b)]
                                examined(m, a, b) && (b < y || (b == y && a < x + 1)) && (minutia_kind(m, a, b) is Some) implies
                                exists|i: int| 0 <= i < minutiae@.len() && (#[trigger] minutiae@[i]).0 == IntPoint { x: a as i32, y: b as i32 } by {
                                if b == y && a == x {
                                    assert(minutiae@[before.len() as int].0 == IntPoint { x: a as i32, y: b as i32 });
                                } else {
                                    let k = choose|k: int| 0 <= k < before.len() && (#[trigger] before[k]).0 == IntPoint { x: a as i32, y: b as i32 };
                                    assert(minutiae@[k] == before[k]);
                                }
                            }
                        }
                    }
                }
                x = x + 1;
            }
            y = y + 1;
        }
        minutiae
    }

    /// The skeleton the collector works on.
    pub fn skeleton(&self) -> (r: &BooleanMatrix)
        ensures
            *r == self.skeleton_view(),
    {
        &self.skeleton
    }

    /// Width and height of the skeleton.
    pub fn dimensions(&self) -> (r: (usize, usize))
        requires
            self.wf(),
        ensures
            r == (self.skeleton_view().width, self.skeleton_view().height),
    {
        (self.width, self.height)
    }
}

} // verus!
