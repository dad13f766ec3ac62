use vstd::prelude::*;
use std::collections::HashSet;
use crate::extractor::binary_thinning::{corner_set, count_set_corners};
use crate::extractor::skeleton_filters_graph::{key_of, point_key};
use crate::extractor::skeleton_graph::{copy_points, joined, SkeletonGraph};
use crate::primitives::bool_matrix::BooleanMatrix;
use crate::primitives::int_matrix::IntMatrix;
use crate::primitives::int_point::{corner_offsets, line_len, line_point, IntPoint};

verus! {

broadcast use vstd::std_specs::hash::group_hash_axioms;

/// A set pixel with one neighbour (an ending) or more than two (a junction).
pub open spec fn minutia_point(m: BooleanMatrix, x: int, y: int) -> bool {
    let c = count_set_corners(m, IntPoint { x: x as i32, y: y as i32 }, 8);
    m.at(x, y) && (c == 1 || c > 2)
}

/// A set pixel with exactly one set neighbour is an ending and one with three
/// or more is a junction: both are minutia points; a pixel with none or two
/// set neighbours, or a clear one, is not.
pub proof fn law_minutia_point_counts(m: BooleanMatrix, x: int, y: int)
    ensures
        m.at(x, y) && count_set_corners(m, IntPoint { x: x as i32, y: y as i32 }, 8) == 1 ==> minutia_point(m, x, y),
        m.at(x, y) && count_set_corners(m, IntPoint { x: x as i32, y: y as i32 }, 8) >= 3 ==> minutia_point(m, x, y),
        count_set_corners(m, IntPoint { x: x as i32, y: y as i32 }, 8) == 0 ==> !minutia_point(m, x, y),
        count_set_corners(m, IntPoint { x: x as i32, y: y as i32 }, 8) == 2 ==> !minutia_point(m, x, y),
        !m.at(x, y) ==> !minutia_point(m, x, y),
{
}

/// Position of a point in row-major order.
pub open spec fn row_major(p: IntPoint, width: int) -> int {
    p.y * width + p.x
}

/// Counts the set pixels among the eight around `p`.
fn set_corners(m: &BooleanMatrix, p: &IntPoint) -> (c: i32)
    requires
        m.wf(),
        i32::MIN + 1 <= p.x <= i32::MAX - 1,
        i32::MIN + 1 <= p.y <= i32::MAX - 1,
    ensures
        c == count_set_corners(*m, *p, 8),
{
    let corners = IntPoint::corner_neighbors();
    let mut count: i32 = 0;
    let mut j: usize = 0;
    while j < 8
        invariant
            corners@ == corner_offsets(),
            m.wf(),
            i32::MIN + 1 <= p.x <= i32::MAX - 1,
            i32::MIN + 1 <= p.y <= i32::MAX - 1,
            j <= 8,
            count == count_set_corners(*m, *p, j as int),
            0 <= count <= j,
        decreases 8 - j,
    {
        let q = p.plus(&corners[j]);
        if m.get_with_fallback(q.x(), q.y(), false) {
            count = count + 1;
        }
        j = j + 1;
    }
    count
}

/// The minutia points of a thinned image, in row-major order.
pub fn find_minutiae(thinned: &BooleanMatrix) -> (result: Vec<IntPoint>)
    requires
        thinned.wf(),
        thinned.width <= i32::MAX - 1,
        thinned.height <= i32::MAX - 1,
    ensures
        forall|i: int| 0 <= i < result@.len() ==> {
            let p = #[trigger] result@[i];
            &&& thinned.in_bounds(p.x as int, p.y as int)
            &&& minutia_point(*thinned, p.x as int, p.y as int)
        },
        forall|i: int, j: int| 0 <= i < j < result@.len() ==>
            row_major(#[trigger] result@[i], thinned.width as int) < row_major(#[trigger] result@[j], thinned.width as int),
        forall|x: int, y: int| thinned.in_bounds(x, y) && minutia_point(*thinned, x, y) ==>
            #[trigger] result@.contains(IntPoint { x: x as i32, y: y as i32 }),
        forall|x: int, y: int| #![trigger result@.contains(IntPoint { x: x as i32, y: y as i32 })]
            thinned.in_bounds(x, y) && thinned.at(x, y) && {
                let c = count_set_corners(*thinned, IntPoint { x: x as i32, y: y as i32 }, 8);
                c == 1 || c >= 3
            } ==> result@.contains(IntPoint { x: x as i32, y: y as i32 }),
{
    let w = thinned.width();
    let h = thinned.height();
    let mut result: Vec<IntPoint> = Vec::new();
    let mut y: usize = 0;
    while y < h
        invariant
            thinned.wf(),
            w == thinned.width,
            h == thinned.height,
            w <= i32::MAX - 1,
            h <= i32::MAX - 1,
            y <= h,
            forall|i: int| 0 <= i < result@.len() ==> {
                let p = #[trigger] result@[i];
                &&& thinned.in_bounds(p.x as int, p.y as int)
                &&& minutia_point(*thinned, p.x as int, p.y as int)
                &&& p.y < y
            },
            forall|i: int, j: int| 0 <= i < j < result@.len() ==>
                row_major(#[trigger] result@[i], w as int) < row_major(#[trigger] result@[j], w as int),
            forall|a: int, b: int| 0 <= a < w && 0 <= b < y && minutia_point(*thinned, a, b) ==>
                #[trigger] result@.contains(IntPoint { x: a as i32, y: b as i32 }),
        decreases h - y,
    {
        let mut x: usize = 0;
        while x < w
            invariant
                thinned.wf(),
                w == thinned.width,
                h == thinned.height,
                w <= i32::MAX - 1,
                h <= i32::MAX - 1,
                y < h,
                x <= w,
                forall|i: int| 0 <= i < result@.len() ==> {
                    let p = #[trigger] result@[i];
                    &&& thinned.in_bounds(p.x as int, p.y as int)
                    &&& minutia_point(*thinned, p.x as int, p.y as int)
                    &&& (p.y < y || (p.y == y && p.x < x))
                },
                forall|i: int, j: int| 0 <= i < j < result@.len() ==>
                    row_major(#[trigger] result@[i], w as int) < row_major(#[trigger] result@[j], w as int),
                forall|a: int, b: int| 0 <= a < w && 0 <= b < h && (b < y || (b == y && a < x)) && minutia_point(*thinned, a, b) ==>
                    #[trigger] result@.contains(IntPoint { x: a as i32, y: b as i32 }),
            decreases w - x,
        {
            if thinned.get(x, y) {
                let at = IntPoint::new(x as i32, y as i32);
                let count = set_corners(thinned, &at);
                if count == 1 || count > 2 {
                    let ghost before = result@;
                    result.push(at);
                    proof {
                        assert forall|i: int, j: int| 0 <= i < j < result@.len() implies
                            row_major(#[trigger] result@[i], w as int) < row_major(#[trigger] result@[j], w as int) by {
                            if j == before.len() {
                                let p = result@[i];
                                assert(p.y < y || (p.y == y && p.x < x));
                                if p.y < y {
                                    assert(p.y * w + p.x < y * w + x) by (nonlinear_arith)
                                        requires p.y < y, 0 <= p.x < w, 0 <= x;
                                }
                            }
                        }
                        assert forall|a: int, b: int| 0 <= a < w && 0 <= b < h && (b < y || (b == y && a < x + 1)) && minutia_point(*thinned, a, b) implies
                            #[trigger] result@.contains(IntPoint { x: a as i32, y: b as i32 }) by {
                            if b == y && a == x {
                                assert(result@[before.len() as int] == IntPoint { x: a as i32, y: b as i32 });
                            } else {
                                assert(before.contains(IntPoint { x: a as i32, y: b as i32 }));
                                let k = choose|k: int| 0 <= k < before.len() && before[k] == IntPoint { x: a as i32, y: b as i32 };
                                assert(result@[k] == before[k]);
                            }
                        }
                    }
                }
            }
            x = x + 1;
        }
        y = y + 1;
    }
    proof {
        assert forall|x: int, y: int| #![trigger result@.contains(IntPoint { x: x as i32, y: y as i32 })]
            thinned.in_bounds(x, y) && thinned.at(x, y) && {
                let c = count_set_corners(*thinned, IntPoint { x: x as i32, y: y as i32 }, 8);
                c == 1 || c >= 3
            } implies result@.contains(IntPoint { x: x as i32, y: y as i32 }) by {
            law_minutia_point_counts(*thinned, x, y);
        }
    }
    result
}

/// Every point of `l` lies in the `width × height` matrix.
pub open spec fn points_inside(l: Seq<IntPoint>, width: int, height: int) -> bool {
    forall|j: int| 0 <= j < l.len() ==> 0 <= (#[trigger] l[j]).x < width && 0 <= l[j].y < height
}

/// Lists of points attached to some pixels of a `width × height` matrix.
struct PointLists {
    present: BooleanMatrix,
    lists: Vec<Vec<IntPoint>>,
}

impl PointLists {
    spec fn wf(&self) -> bool {
        &&& self.present.wf()
        &&& self.lists@.len() == self.present.width * self.present.height
    }

    /// The list attached to the pixel `(x, y)`.
    spec fn list_at(&self, x: int, y: int) -> Seq<IntPoint> {
        self.lists@[y * self.present.width + x]@
    }

    /// Whether the point `p` lies inside the matrix and has a list.
    spec fn has(&self, p: IntPoint) -> bool {
        self.present.in_bounds(p.x as int, p.y as int) && self.present.at(p.x as int, p.y as int)
    }

    /// Every attached list is nonempty and made of pixels that have lists.
    spec fn lists_ok(&self) -> bool {
        forall|x: int, y: int| #![trigger self.present.at(x, y)] self.present.in_bounds(x, y) && self.present.at(x, y) ==> {
            let l = self.list_at(x, y);
            &&& l.len() > 0
            &&& points_inside(l, self.present.width as int, self.present.height as int)
            &&& forall|j: int| 0 <= j < l.len() ==> self.has(#[trigger] l[j])
            &&& l.contains(IntPoint { x: x as i32, y: y as i32 })
        }
    }

    fn new(width: usize, height: usize) -> (r: PointLists)
        requires
            width * height <= usize::MAX,
        ensures
            r.wf(),
            r.lists_ok(),
            r.present.width == width,
            r.present.height == height,
            forall|x: int, y: int| #[trigger] r.present.in_bounds(x, y) ==> !r.present.at(x, y),
    {
        let present = BooleanMatrix::new(width, height);
        let n = width * height;
        let mut lists: Vec<Vec<IntPoint>> = Vec::new();
        let mut i: usize = 0;
        while i < n
            invariant
                i <= n,
                lists@.len() == i,
            decreases n - i,
        {
            lists.push(Vec::new());
            i = i + 1;
        }
        PointLists { present, lists }
    }

    /// Index of the list of `p`, when `p` has one.
    fn slot(&self, p: &IntPoint) -> (r: Option<usize>)
        requires
            self.wf(),
        ensures
            r matches Some(i) ==> {
                &&& self.present.in_bounds(p.x as int, p.y as int)
                &&& self.present.at(p.x as int, p.y as int)
                &&& i == p.y * self.present.width + p.x
                &&& i < self.lists@.len()
            },
            r is None ==> !(self.present.in_bounds(p.x as int, p.y as int) && self.present.at(p.x as int, p.y as int)),
    {
        if p.x < 0 || p.y < 0 {
            return None;
        }
        let x = p.x as usize;
        let y = p.y as usize;
        if x >= self.present.width() || y >= self.present.height() {
            return None;
        }
        if !self.present.get(x, y) {
            return None;
        }
        let n = self.lists.len();
        proof {
            crate::primitives::grid::lemma_cell_index_bounds(x as int, y as int, self.present.width as int, self.present.height as int);
            assert(y * self.present.width <= y * self.present.width + x);
        }
        Some(y * self.present.width() + x)
    }

    /// Attaches `list` to the pixel `p` (inside the matrix); every point of
    /// `list` has a list already or is `p`.
    fn insert(&mut self, p: &IntPoint, list: Vec<IntPoint>)
        requires
            old(self).wf(),
            old(self).lists_ok(),
            old(self).present.in_bounds(p.x as int, p.y as int),
            list@.len() > 0,
            points_inside(list@, old(self).present.width as int, old(self).present.height as int),
            forall|j: int| 0 <= j < list@.len() ==> old(self).has(#[trigger] list@[j]) || list@[j] == *p,
            list@.contains(*p),
        ensures
            final(self).wf(),
            final(self).lists_ok(),
            final(self).present.width == old(self).present.width,
            final(self).present.height == old(self).present.height,
            forall|a: int, b: int| #[trigger] final(self).present.in_bounds(a, b) ==>
                final(self).present.at(a, b) == (old(self).present.at(a, b) || (a == p.x && b == p.y)),
    {
        let x = p.x as usize;
        let y = p.y as usize;
        let n = self.lists.len();
        proof {
            crate::primitives::grid::lemma_cell_index_bounds(x as int, y as int, self.present.width as int, self.present.height as int);
            assert(y * self.present.width <= y * self.present.width + x);
        }
        let i = y * self.present.width() + x;
        let ghost before = *self;
        self.present.set(x, y, true);
        self.lists.set(i, list);
        proof {
            assert forall|a: int, b: int| #![trigger self.present.at(a, b)] self.present.in_bounds(a, b) && self.present.at(a, b) implies {
                let l = self.list_at(a, b);
                &&& l.len() > 0
                &&& points_inside(l, self.present.width as int, self.present.height as int)
                &&& forall|j: int| 0 <= j < l.len() ==> self.has(#[trigger] l[j])
                &&& l.contains(IntPoint { x: a as i32, y: b as i32 })
            } by {
                let l = self.list_at(a, b);
                if !(a == x && b == y) {
                    assert(before.present.at(a, b));
                    crate::primitives::grid::lemma_cell_index_bounds(a, b, self.present.width as int, self.present.height as int);
                    if b * self.present.width + a == i {
                        crate::primitives::grid::lemma_cell_index_injective(a, b, x as int, y as int, self.present.width as int);
                    }
                    assert(l == before.list_at(a, b));
                    assert forall|j: int| 0 <= j < l.len() implies self.has(#[trigger] l[j]) by {
                        assert(before.has(l[j]));
                    }
                } else {
                    assert(l == list@);
                    assert forall|j: int| 0 <= j < l.len() implies self.has(#[trigger] l[j]) by {
                        if l[j] != *p {
                            assert(before.has(l[j]));
                        }
                    }
                }
            }
        }
    }
}

/// Attaching a list to a pixel that has one already leaves the set of
/// pixels with lists unchanged.
proof fn lemma_insert_present(base: PointLists, before: PointLists, after: PointLists, p: IntPoint)
    requires
        before.has(p),
        forall|a: int, b: int| #[trigger] before.present.in_bounds(a, b) ==> before.present.at(a, b) == base.present.at(a, b),
        after.present.width == before.present.width,
        after.present.height == before.present.height,
        forall|a: int, b: int| #[trigger] after.present.in_bounds(a, b) ==>
            after.present.at(a, b) == (before.present.at(a, b) || (a == p.x && b == p.y)),
    ensures
        forall|a: int, b: int| #[trigger] after.present.in_bounds(a, b) ==> after.present.at(a, b) == before.present.at(a, b),
        forall|q: IntPoint| #[trigger] after.has(q) == before.has(q),
        forall|a: int, b: int| #[trigger] after.present.in_bounds(a, b) ==> after.present.at(a, b) == base.present.at(a, b),
{
    assert forall|a: int, b: int| #[trigger] after.present.in_bounds(a, b) implies after.present.at(a, b) == base.present.at(a, b) by {
        assert(before.present.in_bounds(a, b));
    }
    assert forall|q: IntPoint| #[trigger] after.has(q) == before.has(q) by {
        if after.present.in_bounds(q.x as int, q.y as int) {
            assert(after.present.at(q.x as int, q.y as int) == before.present.at(q.x as int, q.y as int));
        }
    }
}

/// Attaching a list to a pixel inside the matrix gives that pixel a list
/// and changes no other.
proof fn lemma_insert_grows(before: PointLists, after: PointLists, p: IntPoint)
    requires
        before.present.in_bounds(p.x as int, p.y as int),
        after.present.width == before.present.width,
        after.present.height == before.present.height,
        forall|a: int, b: int| #[trigger] after.present.in_bounds(a, b) ==>
            after.present.at(a, b) == (before.present.at(a, b) || (a == p.x && b == p.y)),
    ensures
        forall|q: IntPoint| #[trigger] after.has(q) == (before.has(q) || q == p),
{
    assert forall|q: IntPoint| #[trigger] after.has(q) == (before.has(q) || q == p) by {
        if after.present.in_bounds(q.x as int, q.y as int) {
            assert(after.present.at(q.x as int, q.y as int) == (before.present.at(q.x as int, q.y as int) || (q.x == p.x && q.y == p.y)));
        }
        assert(after.present.in_bounds(p.x as int, p.y as int));
    }
}

/// Groups minutia points that touch each other. Each point gets the list of
/// its group as it stood when the point was last updated; a group is known
/// by the first point of its list.
fn link_neighboring_minutiae(minutiae: &Vec<IntPoint>, width: usize, height: usize) -> (linking: PointLists)
    requires
        width * height <= usize::MAX,
        width <= i32::MAX - 1,
        height <= i32::MAX - 1,
        points_inside(minutiae@, width as int, height as int),
    ensures
        linking.wf(),
        linking.lists_ok(),
        linking.present.width == width,
        linking.present.height == height,
        forall|x: int, y: int| #[trigger] linking.present.in_bounds(x, y) ==>
            (linking.present.at(x, y) <==> minutiae@.contains(IntPoint { x: x as i32, y: y as i32 })),
{
    let mut linking = PointLists::new(width, height);
    let corners = IntPoint::corner_neighbors();
    let mut i: usize = 0;
    while i < minutiae.len()
        invariant
            corners@ == corner_offsets(),
            linking.wf(),
            linking.lists_ok(),
            linking.present.width == width,
            linking.present.height == height,
            width <= i32::MAX - 1,
            height <= i32::MAX - 1,
            i <= minutiae@.len(),
            points_inside(minutiae@, width as int, height as int),
            forall|x: int, y: int| #[trigger] linking.present.in_bounds(x, y) ==>
                (linking.present.at(x, y) <==> minutiae@.subrange(0, i as int).contains(IntPoint { x: x as i32, y: y as i32 })),
        decreases minutiae@.len() - i,
    {
        let minutia_pos = minutiae[i];
        let ghost start = linking;
        let mut own_links: Option<Vec<IntPoint>> = None;
        let mut k: usize = 0;
        while k < 8
            invariant
                corners@ == corner_offsets(),
                linking.wf(),
                linking.lists_ok(),
                linking.present.width == width,
                linking.present.height == height,
                width <= i32::MAX - 1,
                height <= i32::MAX - 1,
                0 <= minutia_pos.x < width,
                0 <= minutia_pos.y < height,
                k <= 8,
                own_links matches Some(o) ==> {
                    &&& o@.len() > 0
                    &&& points_inside(o@, width as int, height as int)
                    &&& forall|j: int| 0 <= j < o@.len() ==> linking.has(#[trigger] o@[j])
                },
                forall|x: int, y: int| #[trigger] linking.present.in_bounds(x, y) ==>
                    linking.present.at(x, y) == start.present.at(x, y),
            decreases 8 - k,
        {
            let neighbor_pos = minutia_pos.plus(&corners[k]);
            if let Some(slot) = linking.slot(&neighbor_pos) {
                let neighbor_first = linking.lists[slot][0];
                let is_same = match &own_links {
                    Some(o) => o[0] == neighbor_first,
                    None => false,
                };
                if !is_same {
                    match own_links {
                        Some(own) => {
                            let ghost lists_now = linking;
                            let mut merged = copy_points(&linking.lists[slot]);
                            let ghost nbr = merged@;
                            proof {
                                assert(merged@ == linking.list_at(neighbor_pos.x as int, neighbor_pos.y as int));
                                assert(linking.present.at(neighbor_pos.x as int, neighbor_pos.y as int));
                                assert(IntPoint { x: neighbor_pos.x as int as i32, y: neighbor_pos.y as int as i32 } == neighbor_pos);
                                assert(nbr.contains(neighbor_pos));
                                assert(merged@ =~= nbr + own@.subrange(0, 0));
                            }
                            let mut j: usize = 0;
                            while j < own.len()
                                invariant
                                    j <= own@.len(),
                                    merged@.len() > 0,
                                    points_inside(merged@, width as int, height as int),
                                    points_inside(own@, width as int, height as int),
                                    forall|t: int| 0 <= t < own@.len() ==> lists_now.has(#[trigger] own@[t]),
                                    forall|t: int| 0 <= t < merged@.len() ==> lists_now.has(#[trigger] merged@[t]),
                                    merged@ == nbr + own@.subrange(0, j as int),
                                decreases own@.len() - j,
                            {
                                merged.push(own[j]);
                                proof {
                                    assert(nbr + own@.subrange(0, j + 1) =~= (nbr + own@.subrange(0, j as int)).push(own@[j as int]));
                                }
                                j = j + 1;
                            }
                            proof {
                                assert(own@.subrange(0, own@.len() as int) =~= own@);
                            }
                            let mut j: usize = 0;
                            while j < own.len()
                                invariant
                                    linking.wf(),
                                    linking.lists_ok(),
                                    linking.present.width == width,
                                    linking.present.height == height,
                                    j <= own@.len(),
                                    merged@.len() > 0,
                                    points_inside(merged@, width as int, height as int),
                                    points_inside(own@, width as int, height as int),
                                    forall|t: int| 0 <= t < own@.len() ==> linking.has(#[trigger] own@[t]),
                                    forall|t: int| 0 <= t < merged@.len() ==> linking.has(#[trigger] merged@[t]),
                                    linking.has(neighbor_pos),
                                    forall|x: int, y: int| #[trigger] linking.present.in_bounds(x, y) ==>
                                        linking.present.at(x, y) == start.present.at(x, y),
                                    merged@ == nbr + own@,
                                    nbr.contains(neighbor_pos),
                                decreases own@.len() - j,
                            {
                                let copy = copy_points(&merged);
                                let ghost before = linking;
                                proof {
                                    assert(linking.has(own@[j as int]));
                                    assert(copy@[nbr.len() + j] == own@[j as int]);
                                }
                                linking.insert(&own[j], copy);
                                proof {
                                    lemma_insert_present(start, before, linking, own@[j as int]);
                                }
                                j = j + 1;
                            }
                            let copy = copy_points(&merged);
                            let ghost before = linking;
                            proof {
                                let t = choose|t: int| 0 <= t < nbr.len() && nbr[t] == neighbor_pos;
                                assert(copy@[t] == neighbor_pos);
                            }
                            linking.insert(&neighbor_pos, copy);
                            proof {
                                lemma_insert_present(start, before, linking, neighbor_pos);
                            }
                            own_links = Some(merged);
                        },
                        None => {
                            let copied = copy_points(&linking.lists[slot]);
                            proof {
                                assert(copied@ == linking.list_at(neighbor_pos.x as int, neighbor_pos.y as int));
                                assert(linking.present.at(neighbor_pos.x as int, neighbor_pos.y as int));
                            }
                            own_links = Some(copied);
                        },
                    }
                }
            }
            k = k + 1;
        }
        let mut list = match own_links {
            Some(o) => o,
            None => Vec::new(),
        };
        let ghost own_part = list@;
        list.push(minutia_pos);
        let key = list[0];
        let copy = copy_points(&list);
        let ghost before = linking;
        proof {
            assert forall|j: int| 0 <= j < copy@.len() implies linking.has(#[trigger] copy@[j]) || copy@[j] == minutia_pos by {
                if j < own_part.len() {
                    assert(copy@[j] == own_part[j]);
                }
            }
            assert(copy@[own_part.len() as int] == minutia_pos);
        }
        linking.insert(&minutia_pos, copy);
        let ghost mid = linking;
        proof {
            lemma_insert_grows(before, linking, minutia_pos);
            assert forall|j: int| 0 <= j < list@.len() implies linking.has(#[trigger] list@[j]) by {
                if j < own_part.len() {
                    assert(list@[j] == own_part[j]);
                    assert(before.has(list@[j]));
                }
            }
            assert(linking.has(list@[0]));
        }
        if key != minutia_pos {
            linking.insert(&key, list);
            proof {
                lemma_insert_present(mid, mid, linking, key);
            }
        }
        proof {
            let pre = minutiae@.subrange(0, i as int);
            let post = minutiae@.subrange(0, i + 1);
            assert(post == pre.push(minutia_pos));
            assert forall|q: IntPoint| #[trigger] linking.has(q) == mid.has(q) by {}
            assert forall|x: int, y: int| #[trigger] linking.present.in_bounds(x, y) implies
                (linking.present.at(x, y) <==> post.contains(IntPoint { x: x as i32, y: y as i32 })) by {
                let q = IntPoint { x: x as i32, y: y as i32 };
                assert(start.present.in_bounds(x, y));
                assert(before.present.in_bounds(x, y));
                assert(linking.has(q) == linking.present.at(x, y));
                assert(mid.has(q) == (before.has(q) || q == minutia_pos));
                assert(before.has(q) == start.present.at(x, y));
                if post.contains(q) {
                    let t = choose|t: int| 0 <= t < post.len() && post[t] == q;
                    if t < pre.len() {
                        assert(pre[t] == q);
                    }
                }
                if pre.contains(q) {
                    let t = choose|t: int| 0 <= t < pre.len() && pre[t] == q;
                    assert(post[t] == q);
                }
                assert(post[pre.len() as int] == minutia_pos);
            }
        }
        i = i + 1;
    }
    proof {
        assert(minutiae@.subrange(0, minutiae@.len() as int) =~= minutiae@);
    }
    linking
}

/// Every minutia of the graph lies in the `width × height` image.
pub open spec fn positions_inside(g: SkeletonGraph, width: int, height: int) -> bool {
    forall|m: int| 0 <= m < g.minutiae@.len() ==> {
        let p = #[trigger] g.minutiae@[m].position;
        0 <= p.x < width && 0 <= p.y < height
    }
}

/// Every ridge has points, the first of them inside the image.
pub open spec fn ridges_start_inside(g: SkeletonGraph, width: int, height: int) -> bool {
    forall|r: int| 0 <= r < g.ridges@.len() ==> {
        let pts = (#[trigger] g.ridges@[r]).points@;
        pts.len() > 0 && 0 <= pts[0].x < width && 0 <= pts[0].y < height
    }
}

/// Sum of the `x` coordinates of a list of points.
pub open spec fn sum_x(l: Seq<IntPoint>) -> int
    decreases l.len(),
{
    if l.len() == 0 {
        0
    } else {
        sum_x(l.drop_last()) + l.last().x
    }
}

/// Sum of the `y` coordinates of a list of points.
pub open spec fn sum_y(l: Seq<IntPoint>) -> int
    decreases l.len(),
{
    if l.len() == 0 {
        0
    } else {
        sum_y(l.drop_last()) + l.last().y
    }
}

/// The integer mean of a nonempty list of points with nonnegative
/// coordinates: each coordinate's sum divided by the count, rounded down.
pub open spec fn mean(l: Seq<IntPoint>) -> IntPoint {
    IntPoint { x: (sum_x(l) / (l.len() as int)) as i32, y: (sum_y(l) / (l.len() as int)) as i32 }
}

/// Integer mean of the coordinates of a nonempty list of points inside the image.
fn mean_point(points: &Vec<IntPoint>, width: usize, height: usize) -> (c: IntPoint)
    requires
        points@.len() > 0,
        width <= i32::MAX,
        height <= i32::MAX,
        points_inside(points@, width as int, height as int),
    ensures
        0 <= c.x < width,
        0 <= c.y < height,
        c == mean(points@),
{
    let mut sx: i128 = 0;
    let mut sy: i128 = 0;
    let mut k: usize = 0;
    while k < points.len()
        invariant
            k <= points@.len(),
            width <= i32::MAX,
            height <= i32::MAX,
            points_inside(points@, width as int, height as int),
            0 <= sx <= k * (width - 1),
            0 <= sy <= k * (height - 1),
            sx == sum_x(points@.subrange(0, k as int)),
            sy == sum_y(points@.subrange(0, k as int)),
        decreases points@.len() - k,
    {
        let p = points[k];
        assert(points@.subrange(0, k + 1).drop_last() =~= points@.subrange(0, k as int));
        assert(0 <= p.x < width && 0 <= p.y < height);
        assert(k * (width - 1) + (width - 1) == (k + 1) * (width - 1)) by (nonlinear_arith);
        assert(k * (height - 1) + (height - 1) == (k + 1) * (height - 1)) by (nonlinear_arith);
        assert((k + 1) * (width - 1) <= 0x1_0000_0000_0000_0000 * 0x8000_0000) by (nonlinear_arith)
            requires k + 1 <= 0x1_0000_0000_0000_0000, 0 <= width - 1 <= 0x8000_0000;
        assert((k + 1) * (height - 1) <= 0x1_0000_0000_0000_0000 * 0x8000_0000) by (nonlinear_arith)
            requires k + 1 <= 0x1_0000_0000_0000_0000, 0 <= height - 1 <= 0x8000_0000;
        sx = sx + p.x as i128;
        sy = sy + p.y as i128;
        k = k + 1;
    }
    assert(points@.subrange(0, points@.len() as int) =~= points@);
    let n = points.len() as i128;
    let cx = sx / n;
    let cy = sy / n;
    assert(0 <= cx <= width - 1) by (nonlinear_arith)
        requires 0 <= sx <= n * (width - 1), n > 0, cx == sx / n;
    assert(0 <= cy <= height - 1) by (nonlinear_arith)
        requires 0 <= sy <= n * (height - 1), n > 0, cy == sy / n;
    IntPoint::new(cx as i32, cy as i32)
}

/// Whether `p` is the mean of the list attached to some pixel.
spec fn at_list_mean(linking: PointLists, p: IntPoint) -> bool {
    exists|a: int, b: int| #![trigger linking.list_at(a, b)]
        linking.present.in_bounds(a, b) && linking.present.at(a, b) && p == mean(linking.list_at(a, b))
}

/// `pos` is the mean of the list attached to some pixel whose list starts with `f`.
spec fn group_mean_at(linking: PointLists, f: IntPoint, pos: IntPoint) -> bool {
    exists|a: int, b: int| #![trigger linking.list_at(a, b)]
        linking.present.in_bounds(a, b) && linking.present.at(a, b) && linking.list_at(a, b)[0] == f
            && pos == mean(linking.list_at(a, b))
}

/// Adds one minutia at the mean position of each group of touching minutia
/// points and returns, for every pixel with a group list, one more than the
/// index of its group's minutia (0 elsewhere). Pixels are visited in
/// row-major order and a group's minutia is placed at the mean of the list
/// of its first pixel.
fn minutia_centers(graph: &mut SkeletonGraph, linking: &PointLists) -> (centers: IntMatrix)
    requires
        old(graph).wf(),
        old(graph).minutiae@.len() == 0,
        linking.wf(),
        linking.lists_ok(),
        linking.present.width <= 32767,
        linking.present.height <= 32767,
    ensures
        final(graph).wf(),
        final(graph).ridges@.len() == old(graph).ridges@.len(),
        positions_inside(*final(graph), linking.present.width as int, linking.present.height as int),
        centers.wf(),
        centers.width == linking.present.width,
        centers.height == linking.present.height,
        forall|x: int, y: int| #![trigger centers.at(x, y)] centers.in_bounds(x, y) ==> {
            &&& 0 <= centers.at(x, y) <= final(graph).minutiae@.len()
            &&& (linking.present.at(x, y) <==> centers.at(x, y) > 0)
        },
        forall|m: int| 0 <= m < final(graph).minutiae@.len() ==>
            at_list_mean(*linking, #[trigger] final(graph).minutiae@[m].position),
        forall|m: int| 0 <= m < final(graph).minutiae@.len() ==> (#[trigger] final(graph).minutiae@[m]).ridges@.len() == 0,
        forall|x: int, y: int| #![trigger centers.at(x, y)] centers.in_bounds(x, y) && linking.present.at(x, y) ==>
            group_mean_at(*linking, linking.list_at(x, y)[0], final(graph).minutiae@[centers.at(x, y) - 1].position),
{
    let w = linking.present.width();
    let h = linking.present.height();
    let n = linking.lists.len();
    assert(w * h <= 32767 * 32767) by (nonlinear_arith)
        requires w <= 32767, h <= 32767;
    let mut centers = IntMatrix::new(w, h);
    let mut cluster_centers = IntMatrix::new(w, h);
    let mut y: usize = 0;
    while y < h
        invariant
            graph.wf(),
            graph.ridges@.len() == old(graph).ridges@.len(),
            positions_inside(*graph, w as int, h as int),
            linking.wf(),
            linking.lists_ok(),
            w == linking.present.width,
            h == linking.present.height,
            n == w * h,
            w * h <= 32767 * 32767,
            w <= 32767,
            h <= 32767,
            y <= h,
            graph.minutiae@.len() <= y * w,
            centers.wf(),
            centers.width == w,
            centers.height == h,
            cluster_centers.wf(),
            cluster_centers.width == w,
            cluster_centers.height == h,
            forall|a: int, b: int| #![trigger centers.at(a, b)] centers.in_bounds(a, b) ==> {
                &&& 0 <= centers.at(a, b) <= graph.minutiae@.len()
                &&& (b < y ==> (linking.present.at(a, b) <==> centers.at(a, b) > 0))
                &&& (b >= y ==> centers.at(a, b) == 0)
            },
            forall|a: int, b: int| #![trigger cluster_centers.at(a, b)] cluster_centers.in_bounds(a, b) ==>
                0 <= cluster_centers.at(a, b) <= graph.minutiae@.len(),
            forall|m: int| 0 <= m < graph.minutiae@.len() ==> at_list_mean(*linking, #[trigger] graph.minutiae@[m].position),
            forall|m: int| 0 <= m < graph.minutiae@.len() ==> (#[trigger] graph.minutiae@[m]).ridges@.len() == 0,
            forall|c: int, d: int| #![trigger cluster_centers.at(c, d)] cluster_centers.in_bounds(c, d) && cluster_centers.at(c, d) > 0 ==>
                group_mean_at(*linking, IntPoint { x: c as i32, y: d as i32 }, graph.minutiae@[cluster_centers.at(c, d) - 1].position),
            forall|a: int, b: int| #![trigger centers.at(a, b)] centers.in_bounds(a, b) && b < y && linking.present.at(a, b) ==>
                centers.at(a, b) == cluster_centers.at(linking.list_at(a, b)[0].x as int, linking.list_at(a, b)[0].y as int),
        decreases h - y,
    {
        let mut x: usize = 0;
        while x < w
            invariant
                graph.wf(),
                graph.ridges@.len() == old(graph).ridges@.len(),
                positions_inside(*graph, w as int, h as int),
                linking.wf(),
                linking.lists_ok(),
                w == linking.present.width,
                h == linking.present.height,
                n == w * h,
                w * h <= 32767 * 32767,
                w <= 32767,
                h <= 32767,
                y < h,
                x <= w,
                graph.minutiae@.len() <= y * w + x,
                centers.wf(),
                centers.width == w,
                centers.height == h,
                cluster_centers.wf(),
                cluster_centers.width == w,
                cluster_centers.height == h,
                forall|a: int, b: int| #![trigger centers.at(a, b)] centers.in_bounds(a, b) ==> {
                    &&& 0 <= centers.at(a, b) <= graph.minutiae@.len()
                    &&& ((b < y || (b == y && a < x)) ==> (linking.present.at(a, b) <==> centers.at(a, b) > 0))
                    &&& (!(b < y || (b == y && a < x)) ==> centers.at(a, b) == 0)
                },
                forall|a: int, b: int| #![trigger cluster_centers.at(a, b)] cluster_centers.in_bounds(a, b) ==>
                    0 <= cluster_centers.at(a, b) <= graph.minutiae@.len(),
                forall|m: int| 0 <= m < graph.minutiae@.len() ==> at_list_mean(*linking, #[trigger] graph.minutiae@[m].position),
                forall|m: int| 0 <= m < graph.minutiae@.len() ==> (#[trigger] graph.minutiae@[m]).ridges@.len() == 0,
            forall|c: int, d: int| #![trigger cluster_centers.at(c, d)] cluster_centers.in_bounds(c, d) && cluster_centers.at(c, d) > 0 ==>
                group_mean_at(*linking, IntPoint { x: c as i32, y: d as i32 }, graph.minutiae@[cluster_centers.at(c, d) - 1].position),
            forall|a: int, b: int| #![trigger centers.at(a, b)] centers.in_bounds(a, b) && (b < y || (b == y && a < x)) && linking.present.at(a, b) ==>
                centers.at(a, b) == cluster_centers.at(linking.list_at(a, b)[0].x as int, linking.list_at(a, b)[0].y as int),
            decreases w - x,
        {
            if linking.present.get(x, y) {
                proof {
                    crate::primitives::grid::lemma_cell_index_bounds(x as int, y as int, w as int, h as int);
                    assert(linking.present.at(x as int, y as int));
                    assert(y * w <= y * w + x);
                }
                let linked = &linking.lists[y * w + x];
                let primary = linked[0];
                let ghost cc_before = cluster_centers;
                let ghost centers_before = centers;
                let ghost g_old = *graph;
                proof {
                    assert(linked@ == linking.list_at(x as int, y as int));
                    assert(0 <= primary.x < w && 0 <= primary.y < h);
                }
                let existing = cluster_centers.get(primary.x as usize, primary.y as usize);
                let value: i32 = if existing > 0 {
                    existing
                } else {
                    let center = mean_point(linked, w, h);
                    assert(y * w + x < w * h) by (nonlinear_arith)
                        requires x < w, y < h;
                    let ghost g_before = *graph;
                    let added = graph.add_minutia(center);
                    proof {
                        assert(linked@ == linking.list_at(x as int, y as int));
                        assert(at_list_mean(*linking, center));
                        assert forall|m: int| 0 <= m < graph.minutiae@.len() implies
                            at_list_mean(*linking, #[trigger] graph.minutiae@[m].position) by {
                            if m < g_before.minutiae@.len() {
                                assert(graph.minutiae@[m] == g_before.minutiae@[m]);
                            }
                        }
                        assert forall|m: int| 0 <= m < graph.minutiae@.len() implies
                            (#[trigger] graph.minutiae@[m]).ridges@.len() == 0 by {
                            if m < g_before.minutiae@.len() {
                                assert(graph.minutiae@[m] == g_before.minutiae@[m]);
                            }
                        }
                    }
                    cluster_centers.set(primary.x as usize, primary.y as usize, (added + 1) as i32);
                    (added + 1) as i32
                };
                centers.set(x, y, value);
                proof {
                    let px = primary.x as int;
                    let py = primary.y as int;
                    assert(cluster_centers.at(px, py) == value);
                    assert forall|c: int, d: int| #![trigger cluster_centers.at(c, d)] cluster_centers.in_bounds(c, d) && cluster_centers.at(c, d) > 0 implies
                        group_mean_at(*linking, IntPoint { x: c as i32, y: d as i32 }, graph.minutiae@[cluster_centers.at(c, d) - 1].position) by {
                        if existing == 0 && c == px && d == py {
                            assert(IntPoint { x: c as i32, y: d as i32 } == primary);
                            assert(graph.minutiae@[cluster_centers.at(c, d) - 1].position == mean(linking.list_at(x as int, y as int)));
                        } else {
                            assert(cluster_centers.at(c, d) == cc_before.at(c, d));
                            assert(cc_before.at(c, d) <= g_old.minutiae@.len());
                            assert(graph.minutiae@[cc_before.at(c, d) - 1] == g_old.minutiae@[cc_before.at(c, d) - 1]);
                        }
                    }
                    assert forall|a: int, b: int| #![trigger centers.at(a, b)] centers.in_bounds(a, b) && (b < y || (b == y && a < x + 1)) && linking.present.at(a, b) implies
                        centers.at(a, b) == cluster_centers.at(linking.list_at(a, b)[0].x as int, linking.list_at(a, b)[0].y as int) by {
                        if !(a == x && b == y) {
                            assert(centers.at(a, b) == centers_before.at(a, b));
                            let fa = linking.list_at(a, b)[0];
                            assert(linking.present.in_bounds(a, b));
                            assert(0 <= fa.x < w && 0 <= fa.y < h);
                            if existing == 0 && fa.x == px && fa.y == py {
                                assert(centers_before.at(a, b) > 0);
                                assert(false);
                            }
                        }
                    }
                }
            }
            x = x + 1;
        }
        assert(y * w + w == (y + 1) * w) by (nonlinear_arith);
        y = y + 1;
    }
    centers
}

/// No minutia of `g` lists a ridge twice.
pub open spec fn lists_distinct(g: SkeletonGraph) -> bool {
    forall|m: int, j: int, k: int| #![trigger g.listed(m)[j], g.listed(m)[k]]
        0 <= m < g.minutiae@.len() && 0 <= j < k < g.listed(m).len() ==> g.listed(m)[j] != g.listed(m)[k]
}

/// Joining two minutiae keeps every minutia's list free of repeats.
proof fn lemma_connect_distinct(before: SkeletonGraph, after: SkeletonGraph, start: usize, end: usize, points: Seq<IntPoint>, index: usize)
    requires
        before.wf(),
        lists_distinct(before),
        joined(before, after, start, end, points, index),
    ensures
        lists_distinct(after),
{
    assert forall|m: int, j: int, k: int|
        0 <= m < after.minutiae@.len() && 0 <= j < k < after.listed(m).len() implies
        #[trigger] after.listed(m)[j] != #[trigger] after.listed(m)[k] by {
        let old_list = before.listed(m);
        let n = old_list.len();
        assert(after.listed(m) == old_list
            + (if m == start { seq![index] } else { Seq::empty() })
            + (if m == end { seq![(index + 1) as usize] } else { Seq::empty() }));
        if j < n {
            assert(after.listed(m)[j] == old_list[j]);
            assert(before.listed_ok(m, j));
            if k < n {
                assert(after.listed(m)[k] == old_list[k]);
            } else {
                assert(after.listed(m)[k] >= index);
            }
        }
    }
}

/// Ridges `2 * i` and `2 * i + 1` of `g` are a traced pair: the first runs
/// from a pixel with a list through at least one pixel to another pixel with
/// a list, its second pixel set in `thinned` and without a list, and the
/// second runs through the same pixels the other way; each starts at the
/// minutia that `centers` gives its first pixel.
spec fn traced_pair(g: SkeletonGraph, thinned: BooleanMatrix, linking: PointLists, centers: IntMatrix, i: int) -> bool {
    let a = g.ridges@[2 * i];
    let w = a.points@;
    &&& w.len() >= 3
    &&& linking.has(w[0])
    &&& linking.has(w.last())
    &&& thinned.in_bounds(w[1].x as int, w[1].y as int)
    &&& thinned.at(w[1].x as int, w[1].y as int)
    &&& !linking.has(w[1])
    &&& g.ridges@[2 * i + 1].points@ == w.reverse()
    &&& a.reversed == 2 * i + 1
    &&& a.start == Some((centers.at(w[0].x as int, w[0].y as int) - 1) as usize)
    &&& g.ridges@[2 * i + 1].start == Some((centers.at(w.last().x as int, w.last().y as int) - 1) as usize)
}

/// Whether `p` has a list in `linking`, as a predicate.
spec fn has_fn(linking: PointLists) -> spec_fn(IntPoint) -> bool {
    |t: IntPoint| linking.has(t)
}

/// Some ridge of `g` has `q` as its second point.
pub open spec fn lead_covered(g: SkeletonGraph, q: IntPoint) -> bool {
    exists|r: int| #![trigger g.ridges@[r]] 0 <= r < g.ridges@.len() && g.ridges@[r].points@[1] == q
}

/// Some ridge of `g` has a second point with key `key`.
spec fn lead_key_covered(g: SkeletonGraph, key: int) -> bool {
    exists|r: int| #![trigger g.ridges@[r]] 0 <= r < g.ridges@.len() && point_key(g.ridges@[r].points@[1]) == key
}

/// The walk from pixel `p` (with a list) through its `k`-th neighbour `q`
/// is accounted for: `q` is not a set pixel without a list, or some ridge
/// has `q` as its second point, or the walk never reaches a pixel with a
/// list, or the graph had no room left for more ridges.
spec fn start_covered(g: SkeletonGraph, thinned: BooleanMatrix, linking: PointLists, p: IntPoint, k: int) -> bool {
    let q = neighbor_at(p, k);
    (thinned.in_bounds(q.x as int, q.y as int) && thinned.at(q.x as int, q.y as int) && !linking.has(q)) ==> {
        ||| lead_covered(g, q)
        ||| !walk_reaches(thinned, has_fn(linking), p, q, walk_limit(thinned))
        ||| g.ridges@.len() + 2 > usize::MAX
    }
}

/// Distinct points have distinct keys.
proof fn lemma_point_key_injective(a: IntPoint, b: IntPoint)
    requires
        point_key(a) == point_key(b),
    ensures
        a == b,
{
    let ya = a.y + 0x8000_0000;
    let yb = b.y + 0x8000_0000;
    assert(0 <= ya < 0x1_0000_0000 && 0 <= yb < 0x1_0000_0000);
    assert((a.x - b.x) * 0x1_0000_0000 == yb - ya) by (nonlinear_arith)
        requires a.x * 0x1_0000_0000 + ya == b.x * 0x1_0000_0000 + yb;
    assert(a.x == b.x) by (nonlinear_arith)
        requires (a.x - b.x) * 0x1_0000_0000 == yb - ya, -0x1_0000_0000 < yb - ya < 0x1_0000_0000;
}

/// Adding ridges keeps every walk and lead accounted for.
proof fn lemma_covered_grows(g1: SkeletonGraph, g2: SkeletonGraph, thinned: BooleanMatrix, linking: PointLists)
    requires
        g2.ridges@.len() >= g1.ridges@.len(),
        forall|i: int| 0 <= i < g1.ridges@.len() ==> #[trigger] g2.ridges@[i] == g1.ridges@[i],
    ensures
        forall|p: IntPoint, k: int| start_covered(g1, thinned, linking, p, k) ==> #[trigger] start_covered(g2, thinned, linking, p, k),
        forall|key: int| lead_key_covered(g1, key) ==> #[trigger] lead_key_covered(g2, key),
{
    assert forall|p: IntPoint, k: int| start_covered(g1, thinned, linking, p, k) implies #[trigger] start_covered(g2, thinned, linking, p, k) by {
        let q = neighbor_at(p, k);
        if lead_covered(g1, q) {
            let r = choose|r: int| #![trigger g1.ridges@[r]] 0 <= r < g1.ridges@.len() && g1.ridges@[r].points@[1] == q;
            assert(g2.ridges@[r] == g1.ridges@[r]);
        }
    }
    assert forall|key: int| lead_key_covered(g1, key) implies #[trigger] lead_key_covered(g2, key) by {
        let r = choose|r: int| #![trigger g1.ridges@[r]] 0 <= r < g1.ridges@.len() && point_key(g1.ridges@[r].points@[1]) == key;
        assert(g2.ridges@[r] == g1.ridges@[r]);
    }
}

/// Follows ridges from every minutia point to the next minutia point and
/// joins the two groups' minutiae by a ridge through the visited pixels.
/// From each minutia point (in row-major order), every set neighbour that
/// is neither a minutia point nor already the second point of a traced
/// ridge starts a walk; each step goes to the first set neighbour (in the
/// order of `corner_offsets`) other than the previous pixel, or diagonally
/// down-right when there is none, until a minutia point is reached. A walk
/// that leaves the image to the right or below, or that runs through more
/// steps than there are (previous, current) pixel pairs, can never reach a
/// minutia point; it is dropped. So every walk from a minutia point through
/// a set neighbour that is no minutia point either gave a ridge with that
/// neighbour as its second point, or never reaches a minutia point (unless
/// the graph ran out of room for ridges).
fn trace_ridges(graph: &mut SkeletonGraph, thinned: &BooleanMatrix, linking: &PointLists, centers: &IntMatrix)
    requires
        old(graph).wf(),
        positions_inside(*old(graph), thinned.width as int, thinned.height as int),
        ridges_start_inside(*old(graph), thinned.width as int, thinned.height as int),
        thinned.wf(),
        thinned.width <= 32767,
        thinned.height <= 32767,
        linking.wf(),
        linking.present.width == thinned.width,
        linking.present.height == thinned.height,
        centers.wf(),
        centers.width == thinned.width,
        centers.height == thinned.height,
        forall|x: int, y: int| #![trigger centers.at(x, y)] centers.in_bounds(x, y) ==> {
            &&& 0 <= centers.at(x, y) <= old(graph).minutiae@.len()
            &&& (linking.present.at(x, y) <==> centers.at(x, y) > 0)
        },
        old(graph).ridges@.len() == 0,
        forall|m: int| 0 <= m < old(graph).minutiae@.len() ==> (#[trigger] old(graph).minutiae@[m]).ridges@.len() == 0,
    ensures
        lists_distinct(*final(graph)),
        final(graph).wf(),
        final(graph).same_positions(old(graph)),
        positions_inside(*final(graph), thinned.width as int, thinned.height as int),
        ridges_start_inside(*final(graph), thinned.width as int, thinned.height as int),
        final(graph).ridges@.len() % 2 == 0,
        forall|i: int| 0 <= i < final(graph).ridges@.len() / 2 ==>
            #[trigger] traced_pair(*final(graph), *thinned, *linking, *centers, i),
        forall|p: IntPoint, k: int| linking.has(p) && 0 <= k < 8 ==>
            #[trigger] start_covered(*final(graph), *thinned, *linking, p, k),
{
    let ghost g0 = *graph;
    let w = thinned.width();
    let h = thinned.height();
    let corners = IntPoint::corner_neighbors();
    assert(8 * (w + 1) * (h + 1) <= 8 * 32768 * 32768) by (nonlinear_arith)
        requires w <= 32767, h <= 32767;
    let limit: u64 = 8 * (w as u64 + 1) * (h as u64 + 1);
    let mut leads: HashSet<i64> = HashSet::new();
    let ghost mut full = false;
    let mut y: usize = 0;
    while y < h
        invariant
            graph.wf(),
            graph.same_positions(&g0),
            lists_distinct(*graph),
            full ==> graph.ridges@.len() + 2 > usize::MAX,
            forall|r: int| 0 <= r < graph.ridges@.len() ==> (#[trigger] graph.ridges@[r]).points@.len() >= 3,
            forall|key: i64| #[trigger] leads@.contains(key) ==> full || lead_key_covered(*graph, key as int),
            limit == walk_limit(*thinned),
            forall|p: IntPoint, kk: int| linking.has(p) && 0 <= kk < 8 && row_major(p, w as int) < y * w ==>
                #[trigger] start_covered(*graph, *thinned, *linking, p, kk),
            graph.ridges@.len() % 2 == 0,
            forall|i: int| 0 <= i < graph.ridges@.len() / 2 ==> #[trigger] traced_pair(*graph, *thinned, *linking, *centers, i),
            positions_inside(*graph, w as int, h as int),
            ridges_start_inside(*graph, w as int, h as int),
            corners@ == corner_offsets(),
            thinned.wf(),
            w == thinned.width,
            h == thinned.height,
            w <= 32767,
            h <= 32767,
            linking.wf(),
            linking.present.width == w,
            linking.present.height == h,
            centers.wf(),
            centers.width == w,
            centers.height == h,
            forall|x: int, y: int| #![trigger centers.at(x, y)] centers.in_bounds(x, y) ==> {
                &&& 0 <= centers.at(x, y) <= g0.minutiae@.len()
                &&& (linking.present.at(x, y) <==> centers.at(x, y) > 0)
            },
            y <= h,
        decreases h - y,
    {
        let mut x: usize = 0;
        while x < w
            invariant
                graph.wf(),
                graph.same_positions(&g0),
            lists_distinct(*graph),
            full ==> graph.ridges@.len() + 2 > usize::MAX,
            forall|r: int| 0 <= r < graph.ridges@.len() ==> (#[trigger] graph.ridges@[r]).points@.len() >= 3,
            forall|key: i64| #[trigger] leads@.contains(key) ==> full || lead_key_covered(*graph, key as int),
            limit == walk_limit(*thinned),
            forall|p: IntPoint, kk: int| linking.has(p) && 0 <= kk < 8 && row_major(p, w as int) < y * w + x ==>
                #[trigger] start_covered(*graph, *thinned, *linking, p, kk),
            graph.ridges@.len() % 2 == 0,
            forall|i: int| 0 <= i < graph.ridges@.len() / 2 ==> #[trigger] traced_pair(*graph, *thinned, *linking, *centers, i),
                positions_inside(*graph, w as int, h as int),
                ridges_start_inside(*graph, w as int, h as int),
                corners@ == corner_offsets(),
                thinned.wf(),
                w == thinned.width,
                h == thinned.height,
                w <= 32767,
                h <= 32767,
                linking.wf(),
                linking.present.width == w,
                linking.present.height == h,
                centers.wf(),
                centers.width == w,
                centers.height == h,
                forall|x: int, y: int| #![trigger centers.at(x, y)] centers.in_bounds(x, y) ==> {
                    &&& 0 <= centers.at(x, y) <= g0.minutiae@.len()
                    &&& (linking.present.at(x, y) <==> centers.at(x, y) > 0)
                },
                y < h,
                x <= w,
            decreases w - x,
        {
            if linking.present.get(x, y) {
                let minutia_point = IntPoint::new(x as i32, y as i32);
                let mut k: usize = 0;
                while k < 8
                    invariant
                        graph.wf(),
                        graph.same_positions(&g0),
            lists_distinct(*graph),
            full ==> graph.ridges@.len() + 2 > usize::MAX,
            forall|r: int| 0 <= r < graph.ridges@.len() ==> (#[trigger] graph.ridges@[r]).points@.len() >= 3,
            forall|key: i64| #[trigger] leads@.contains(key) ==> full || lead_key_covered(*graph, key as int),
            limit == walk_limit(*thinned),
            forall|p: IntPoint, kk: int| linking.has(p) && 0 <= kk < 8 && (row_major(p, w as int) < y * w + x || (p == minutia_point && kk < k)) ==>
                #[trigger] start_covered(*graph, *thinned, *linking, p, kk),
            graph.ridges@.len() % 2 == 0,
            forall|i: int| 0 <= i < graph.ridges@.len() / 2 ==> #[trigger] traced_pair(*graph, *thinned, *linking, *centers, i),
                        positions_inside(*graph, w as int, h as int),
                        ridges_start_inside(*graph, w as int, h as int),
                        corners@ == corner_offsets(),
                        thinned.wf(),
                        w == thinned.width,
                        h == thinned.height,
                        w <= 32767,
                        h <= 32767,
                        linking.wf(),
                        linking.present.width == w,
                        linking.present.height == h,
                        centers.wf(),
                        centers.width == w,
                        centers.height == h,
                        forall|x: int, y: int| #![trigger centers.at(x, y)] centers.in_bounds(x, y) ==> {
                            &&& 0 <= centers.at(x, y) <= g0.minutiae@.len()
                            &&& (linking.present.at(x, y) <==> centers.at(x, y) > 0)
                        },
                        y < h,
                        x < w,
                        minutia_point.x == x,
                        minutia_point.y == y,
                        linking.present.at(x as int, y as int),
                        k <= 8,
                    decreases 8 - k,
                {
                    let start = minutia_point.plus(&corners[k]);
                    let start_key = key_of(&start);
                    let start_ok = thinned.get_with_fallback(start.x(), start.y(), false)
                        && linking.slot(&start).is_none()
                        && !leads.contains(&start_key);
                    proof {
                        assert(start == neighbor_at(minutia_point, k as int));
                        if thinned.in_bounds(start.x as int, start.y as int) && thinned.at(start.x as int, start.y as int)
                            && !linking.has(start) && !start_ok {
                            let key = start_key;
                            assert(leads@.contains(key));
                            if !full {
                                let r = choose|r: int| #![trigger graph.ridges@[r]] 0 <= r < graph.ridges@.len() && point_key(graph.ridges@[r].points@[1]) == key as int;
                                lemma_point_key_injective(graph.ridges@[r].points@[1], start);
                            }
                        }
                    }
                    if start_ok {
                        let mut ridge_points: Vec<IntPoint> = Vec::new();
                        ridge_points.push(minutia_point);
                        ridge_points.push(start);
                        let mut previous = minutia_point;
                        let mut current = start;
                        let mut steps: u64 = 0;
                        let mut reached = false;
                        let ghost stop = has_fn(*linking);
                        proof {
                            assert(start == neighbor_at(minutia_point, k as int));
                        }
                        while steps < limit
                            invariant_except_break
                                !reached,
                                walk_reaches(*thinned, stop, minutia_point, start, limit as nat)
                                    == walk_reaches(*thinned, stop, previous, current, (limit - steps) as nat),
                                0 <= current.x <= w,
                                0 <= current.y <= h,
                                0 <= previous.x <= w,
                                0 <= previous.y <= h,
                            invariant
                                corners@ == corner_offsets(),
                                thinned.wf(),
                                w == thinned.width,
                                h == thinned.height,
                                w <= 32767,
                                h <= 32767,
                                linking.wf(),
                                linking.present.width == w,
                                linking.present.height == h,
                                stop == has_fn(*linking),
                                steps <= limit,
                                ridge_points@.len() >= 2,
                                ridge_points@[0] == minutia_point,
                                ridge_points@[1] == start,
                                ridge_points@.last() == current,
                                reached ==> linking.present.in_bounds(current.x as int, current.y as int)
                                    && linking.present.at(current.x as int, current.y as int),
                                reached ==> ridge_points@.len() >= 3,
                            ensures
                                reached == walk_reaches(*thinned, stop, minutia_point, start, limit as nat),
                                ridge_points@.len() >= 2,
                                ridge_points@[0] == minutia_point,
                                ridge_points@[1] == start,
                                ridge_points@.last() == current,
                                reached ==> linking.present.in_bounds(current.x as int, current.y as int)
                                    && linking.present.at(current.x as int, current.y as int),
                                reached ==> ridge_points@.len() >= 3,
                            decreases limit - steps,
                        {
                            let next = walk_step(thinned, &current, &previous, &corners);
                            proof {
                                assert(walk_reaches(*thinned, stop, previous, current, (limit - steps) as nat) == {
                                    if next.x > thinned.width || next.y > thinned.height {
                                        false
                                    } else if stop(next) {
                                        true
                                    } else {
                                        walk_reaches(*thinned, stop, current, next, (limit - steps - 1) as nat)
                                    }
                                });
                            }
                            previous = current;
                            current = next;
                            ridge_points.push(current);
                            steps = steps + 1;
                            if current.x > w as i32 || current.y > h as i32 {
                                break;
                            }
                            if linking.slot(&current).is_some() {
                                reached = true;
                                break;
                            }
                        }
                        if reached {
                            let lead1 = ridge_points[1];
                            let lead2 = ridge_points[ridge_points.len() - 2];
                            let start_index = centers.get(x, y) - 1;
                            let end_index = centers.get(current.x as usize, current.y as usize) - 1;
                            if has_room_for_ridge(graph) {
                                let ghost g_before = *graph;
                                let ghost walk = ridge_points@;
                                proof {
                                    assert(linking.has(walk[0]));
                                    assert(linking.has(walk.last()));
                                    assert(centers.at(x as int, y as int) > 0);
                                    assert(centers.at(current.x as int, current.y as int) > 0);
                                }
                                let index = graph.connect(start_index as usize, end_index as usize, ridge_points);
                                proof {
                                    assert forall|m: int| 0 <= m < graph.minutiae@.len() implies
                                        (#[trigger] graph.minutiae@[m]).position == g0.minutiae@[m].position by {
                                        assert(g_before.minutiae@[m].position == g0.minutiae@[m].position);
                                    }
                                    lemma_connect_distinct(g_before, *graph, start_index as usize, end_index as usize, walk, index);
                                    let n = g_before.ridges@.len() / 2;
                                    assert forall|i: int| 0 <= i < graph.ridges@.len() / 2 implies
                                        #[trigger] traced_pair(*graph, *thinned, *linking, *centers, i) by {
                                        if i < n {
                                            assert(traced_pair(g_before, *thinned, *linking, *centers, i));
                                            assert(graph.ridges@[2 * i] == g_before.ridges@[2 * i]);
                                            assert(graph.ridges@[2 * i + 1] == g_before.ridges@[2 * i + 1]);
                                        } else {
                                            assert(2 * i == index);
                                        }
                                    }
                                    assert forall|r: int| 0 <= r < graph.ridges@.len() implies (#[trigger] graph.ridges@[r]).points@.len() >= 3 by {
                                        if r < g_before.ridges@.len() {
                                            assert(graph.ridges@[r] == g_before.ridges@[r]);
                                        }
                                    }
                                    lemma_covered_grows(g_before, *graph, *thinned, *linking);
                                    assert(graph.ridges@[index as int].points@[1] == lead1);
                                    assert(graph.ridges@[index + 1].points@ == walk.reverse());
                                    assert(graph.ridges@[index + 1].points@[1] == lead2);
                                    assert(lead_covered(*graph, start));
                                    assert(lead_key_covered(*graph, point_key(lead1)));
                                    assert(lead_key_covered(*graph, point_key(lead2)));
                                }
                            } else {
                                proof {
                                    full = true;
                                }
                            }
                            let ghost leads_before = leads@;
                            leads.insert(key_of(&lead1));
                            leads.insert(key_of(&lead2));
                            proof {
                                assert forall|key: i64| #[trigger] leads@.contains(key) implies full || lead_key_covered(*graph, key as int) by {
                                    if key != point_key(lead1) && key != point_key(lead2) {
                                        assert(leads_before.contains(key));
                                    }
                                }
                            }
                        }
                    }
                    proof {
                        assert(start_covered(*graph, *thinned, *linking, minutia_point, k as int));
                    }
                    k = k + 1;
                }
                proof {
                    assert forall|p: IntPoint, kk: int| linking.has(p) && 0 <= kk < 8 && row_major(p, w as int) < y * w + x + 1 implies
                        #[trigger] start_covered(*graph, *thinned, *linking, p, kk) by {
                        if row_major(p, w as int) == y * w + x {
                            crate::primitives::grid::lemma_cell_index_injective(p.x as int, p.y as int, x as int, y as int, w as int);
                            assert(p == minutia_point);
                        }
                    }
                }
            } else {
                proof {
                    assert forall|p: IntPoint, kk: int| linking.has(p) && 0 <= kk < 8 && row_major(p, w as int) < y * w + x + 1 implies
                        #[trigger] start_covered(*graph, *thinned, *linking, p, kk) by {
                        if row_major(p, w as int) == y * w + x {
                            crate::primitives::grid::lemma_cell_index_injective(p.x as int, p.y as int, x as int, y as int, w as int);
                            assert(linking.present.at(x as int, y as int));
                        }
                    }
                }
            }
            x = x + 1;
        }
        assert(y * w + w == (y + 1) * w) by (nonlinear_arith);
        y = y + 1;
    }
    proof {
        assert forall|p: IntPoint, kk: int| linking.has(p) && 0 <= kk < 8 implies
            #[trigger] start_covered(*graph, *thinned, *linking, p, kk) by {
            assert(p.y * w + p.x < h * w) by (nonlinear_arith)
                requires 0 <= p.x < w, 0 <= p.y < h;
        }
    }
}

/// Whether the graph still has room for one more ridge pair.
fn has_room_for_ridge(graph: &SkeletonGraph) -> (r: bool)
    ensures
        r == (graph.ridges@.len() + 2 <= usize::MAX),
{
    graph.ridges.len() <= usize::MAX - 2
}

/// The `k`-th of the eight neighbours of `p` (in the order of `corner_offsets`).
pub open spec fn neighbor_at(p: IntPoint, k: int) -> IntPoint {
    IntPoint { x: (p.x + corner_offsets()[k].x) as i32, y: (p.y + corner_offsets()[k].y) as i32 }
}

/// Where a ridge walk goes from `current` after `previous`: the first
/// neighbour from the `k`-th on (in the order of `corner_offsets`) that is
/// set in `thinned` and is not `previous`, or the last neighbour (diagonally
/// down-right) when there is none.
pub open spec fn walk_step_from(thinned: BooleanMatrix, current: IntPoint, previous: IntPoint, k: int) -> IntPoint
    decreases 8 - k,
{
    if k >= 8 {
        neighbor_at(current, 7)
    } else {
        let n = neighbor_at(current, k);
        if thinned.in_bounds(n.x as int, n.y as int) && thinned.at(n.x as int, n.y as int) && n != previous {
            n
        } else {
            walk_step_from(thinned, current, previous, k + 1)
        }
    }
}

/// Whether a ridge walk that has come from `previous` to `current` reaches
/// a pixel where `stop` holds within `n` more steps, without passing the
/// right or bottom edge of the image by more than one pixel.
pub open spec fn walk_reaches(thinned: BooleanMatrix, stop: spec_fn(IntPoint) -> bool, previous: IntPoint, current: IntPoint, n: nat) -> bool
    decreases n,
{
    if n == 0 {
        false
    } else {
        let next = walk_step_from(thinned, current, previous, 0);
        if next.x > thinned.width || next.y > thinned.height {
            false
        } else if stop(next) {
            true
        } else {
            walk_reaches(thinned, stop, current, next, (n - 1) as nat)
        }
    }
}

/// How many steps a ridge walk may take: as many as there are (previous,
/// current) pairs of neighbouring pixels within one pixel of the image.
pub open spec fn walk_limit(thinned: BooleanMatrix) -> nat {
    (8 * (thinned.width + 1) * (thinned.height + 1)) as nat
}

/// One step of a ridge walk from `current`: the first set neighbour (in the
/// order of `corner_offsets`) other than `previous`, or the pixel diagonally
/// down-right when there is none.
fn walk_step(thinned: &BooleanMatrix, current: &IntPoint, previous: &IntPoint, corners: &Vec<IntPoint>) -> (next: IntPoint)
    requires
        thinned.wf(),
        corners@ == corner_offsets(),
        0 <= current.x <= 32767,
        0 <= current.y <= 32767,
    ensures
        (thinned.in_bounds(next.x as int, next.y as int) && thinned.at(next.x as int, next.y as int) && next != *previous)
            || next == (IntPoint { x: (current.x + 1) as i32, y: (current.y + 1) as i32 }),
        next == walk_step_from(*thinned, *current, *previous, 0),
{
    let mut r: usize = 0;
    while r < 8
        invariant
            corners@ == corner_offsets(),
            thinned.wf(),
            0 <= current.x <= 32767,
            0 <= current.y <= 32767,
            r <= 8,
            walk_step_from(*thinned, *current, *previous, 0) == walk_step_from(*thinned, *current, *previous, r as int),
        decreases 8 - r,
    {
        let next = current.plus(&corners[r]);
        if thinned.get_with_fallback(next.x(), next.y(), false) && next != *previous {
            return next;
        }
        r = r + 1;
    }
    current.plus(&corners[7])
}

/// The rasterized line from `from` to `to`, both ends included.
pub open spec fn line_seq(from: IntPoint, to: IntPoint) -> Seq<IntPoint> {
    Seq::new(line_len(from, to) as nat, |i: int| line_point(from, to, i))
}

/// What closes the gap between a ridge's first point `first` and the
/// position `pos` of the minutia it starts at: nothing when they coincide,
/// else the line from `first` to `pos` without its first point.
pub open spec fn linking_fill(first: IntPoint, pos: IntPoint) -> Seq<IntPoint> {
    if first == pos {
        Seq::empty()
    } else {
        line_seq(first, pos).skip(1)
    }
}

/// The points that ridge `p` of `g` asks to be appended to its twin.
pub open spec fn fill_of(g: SkeletonGraph, p: int) -> Seq<IntPoint> {
    let r = g.ridges@[p];
    linking_fill(r.points@[0], g.minutiae@[r.start.unwrap() as int].position)
}

/// Whether ridge `p` of `g` comes before the `j`-th ridge listed at minutia
/// `m` in the order minutia by minutia, list by list.
spec fn processed(g: SkeletonGraph, p: int, m: int, j: int) -> bool {
    let s = g.ridges@[p].start.unwrap() as int;
    s < m || (s == m && g.listed(m).subrange(0, j).contains(p as usize))
}

/// `g` is `before` where every processed ridge's twin got the fill of that ridge.
spec fn filled_upto(before: SkeletonGraph, g: SkeletonGraph, m: int, j: int) -> bool {
    &&& g.minutiae@ == before.minutiae@
    &&& g.ridges@.len() == before.ridges@.len()
    &&& forall|q: int| 0 <= q < before.ridges@.len() ==> {
        let o = #[trigger] before.ridges@[q];
        let c = g.ridges@[q];
        &&& c.reversed == o.reversed
        &&& c.start == o.start
        &&& c.end == o.end
        &&& c.points@ == o.points@ + (if processed(before, o.reversed as int, m, j) { fill_of(before, o.reversed as int) } else { Seq::empty() })
    }
}

/// Where a ridge does not start at its minutia's position (the minutia sits
/// at the mean of a group), the straight line from the ridge's first point
/// to the minutia, without its first point, is appended to the reversed ridge.
fn fix_linking_gaps(graph: &mut SkeletonGraph, width: usize, height: usize)
    requires
        old(graph).wf(),
        lists_distinct(*old(graph)),
        forall|r: int| 0 <= r < old(graph).ridges@.len() ==> (#[trigger] old(graph).ridges@[r]).start is Some,
        width <= 32767,
        height <= 32767,
        positions_inside(*old(graph), width as int, height as int),
        ridges_start_inside(*old(graph), width as int, height as int),
    ensures
        final(graph).wf(),
        final(graph).minutiae@ == old(graph).minutiae@,
        final(graph).ridges@.len() == old(graph).ridges@.len(),
        forall|q: int| 0 <= q < old(graph).ridges@.len() ==> {
            let o = #[trigger] old(graph).ridges@[q];
            let c = final(graph).ridges@[q];
            &&& c.reversed == o.reversed
            &&& c.start == o.start
            &&& c.end == o.end
            &&& c.points@ == o.points@ + fill_of(*old(graph), o.reversed as int)
        },
{
    let ghost g0 = *graph;
    let nm = graph.minutiae.len();
    let mut m: usize = 0;
    proof {
        assert forall|q: int| 0 <= q < g0.ridges@.len() implies {
            let o = #[trigger] g0.ridges@[q];
            let c = graph.ridges@[q];
            &&& c.reversed == o.reversed
            &&& c.start == o.start
            &&& c.end == o.end
            &&& c.points@ == o.points@ + (if processed(g0, o.reversed as int, 0, 0) { fill_of(g0, o.reversed as int) } else { Seq::empty() })
        } by {
            assert(g0.ridge_ok(q));
            assert(!processed(g0, g0.ridges@[q].reversed as int, 0, 0));
            assert(g0.ridges@[q].points@ + Seq::<IntPoint>::empty() =~= g0.ridges@[q].points@);
        }
    }
    while m < nm
        invariant
            graph.wf(),
            g0.wf(),
            lists_distinct(g0),
            forall|r: int| 0 <= r < g0.ridges@.len() ==> (#[trigger] g0.ridges@[r]).start is Some,
            nm == g0.minutiae@.len(),
            width <= 32767,
            height <= 32767,
            positions_inside(g0, width as int, height as int),
            ridges_start_inside(g0, width as int, height as int),
            m <= nm,
            filled_upto(g0, *graph, m as int, 0),
        decreases nm - m,
    {
        let count = graph.minutiae[m].ridges.len();
        let mut j: usize = 0;
        while j < count
            invariant
                graph.wf(),
                g0.wf(),
                lists_distinct(g0),
                forall|r: int| 0 <= r < g0.ridges@.len() ==> (#[trigger] g0.ridges@[r]).start is Some,
                nm == g0.minutiae@.len(),
                width <= 32767,
                height <= 32767,
                positions_inside(g0, width as int, height as int),
                ridges_start_inside(g0, width as int, height as int),
                m < nm,
                count == g0.listed(m as int).len(),
                j <= count,
                filled_upto(g0, *graph, m as int, j as int),
            decreases count - j,
        {
            let r = graph.minutiae[m].ridges[j];
            proof {
                g0.lemma_listed_attached(m as int, j as int);
                assert(g0.ridge_ok(r as int));
                assert(g0.ridges@[r as int].points@.len() > 0);
            }
            let ghost g_step = *graph;
            let minutia_pos = graph.minutiae[m].position;
            let first = graph.ridges[r].points[0];
            let rev = graph.ridges[r].reversed;
            proof {
                assert(g0.ridges@[r as int] == g0.ridges@[r as int]);
                assert(graph.ridges@[r as int].points@[0] == g0.ridges@[r as int].points@[0]);
                assert(minutia_pos == g0.minutiae@[m as int].position);
                assert(rev == g0.ridges@[r as int].reversed);
                assert(g0.ridge_ok(rev as int));
                assert(g0.ridges@[rev as int].reversed == r);
            }
            if first != minutia_pos {
                let filling = first.line_to(&minutia_pos);
                proof {
                    assert(filling@ =~= line_seq(first, minutia_pos));
                }
                let mut k: usize = 1;
                while k < filling.len()
                    invariant
                        graph.wf(),
                        graph.minutiae@ == g_step.minutiae@,
                        graph.ridges@.len() == g_step.ridges@.len(),
                        rev < graph.ridges@.len(),
                        1 <= k <= filling@.len() || filling@.len() == 0,
                        forall|q: int| 0 <= q < graph.ridges@.len() && q != rev ==> #[trigger] graph.ridges@[q] == g_step.ridges@[q],
                        graph.ridges@[rev as int].reversed == g_step.ridges@[rev as int].reversed,
                        graph.ridges@[rev as int].start == g_step.ridges@[rev as int].start,
                        graph.ridges@[rev as int].end == g_step.ridges@[rev as int].end,
                        filling@.len() > 0 ==> graph.ridges@[rev as int].points@ == g_step.ridges@[rev as int].points@ + filling@.subrange(1, k as int),
                    decreases filling@.len() - k,
                {
                    graph.push_point(rev, filling[k]);
                    proof {
                        assert(filling@.subrange(1, k + 1) =~= filling@.subrange(1, k as int).push(filling@[k as int]));
                    }
                    k = k + 1;
                }
                proof {
                    assert(line_len(first, minutia_pos) >= 1);
                    assert(filling@.subrange(1, filling@.len() as int) =~= line_seq(first, minutia_pos).skip(1));
                    assert(linking_fill(first, minutia_pos) == filling@.subrange(1, filling@.len() as int));
                }
            }
            proof {
                assert(fill_of(g0, r as int) == linking_fill(first, minutia_pos));
                let ghost lm = g0.listed(m as int);
                assert(lm[j as int] == r);
                assert(lm.subrange(0, j + 1) == lm.subrange(0, j as int).push(r));
                assert(!lm.subrange(0, j as int).contains(r)) by {
                    let pre = lm.subrange(0, j as int);
                    if pre.contains(r) {
                        let t = choose|t: int| 0 <= t < pre.len() && pre[t] == r;
                        assert(lm[t] == lm[j as int]);
                    }
                }
                assert forall|q: int| 0 <= q < g0.ridges@.len() implies {
                    let o = #[trigger] g0.ridges@[q];
                    let c = graph.ridges@[q];
                    &&& c.reversed == o.reversed
                    &&& c.start == o.start
                    &&& c.end == o.end
                    &&& c.points@ == o.points@ + (if processed(g0, o.reversed as int, m as int, j + 1) { fill_of(g0, o.reversed as int) } else { Seq::empty() })
                } by {
                    let o = g0.ridges@[q];
                    let p = o.reversed as int;
                    assert(g0.ridge_ok(q));
                    let s0 = g0.ridges@[p].start.unwrap() as int;
                    if p == r {
                        assert(g0.ridges@[r as int].reversed == q) ;
                        assert(q == rev);
                        assert(s0 == m);
                        assert(!processed(g0, p, m as int, j as int));
                        assert(lm.subrange(0, j + 1)[j as int] == r);
                        assert(processed(g0, p, m as int, j + 1));
                    } else {
                        assert(q != rev) by {
                            if q == rev {
                                assert(g0.ridges@[rev as int].reversed == r);
                            }
                        }
                        assert(processed(g0, p, m as int, j + 1) == processed(g0, p, m as int, j as int)) by {
                            if s0 == m {
                                let pre = lm.subrange(0, j as int);
                                let post = lm.subrange(0, j + 1);
                                if post.contains(p as usize) {
                                    let t = choose|t: int| 0 <= t < post.len() && post[t] == p as usize;
                                    if t < j {
                                        assert(pre[t] == p as usize);
                                    }
                                }
                                if pre.contains(p as usize) {
                                    let t = choose|t: int| 0 <= t < pre.len() && pre[t] == p as usize;
                                    assert(post[t] == p as usize);
                                }
                            }
                        }
                        assert(graph.ridges@[q] == g_step.ridges@[q]);
                    }
                }
            }
            j = j + 1;
        }
        proof {
            assert forall|q: int| 0 <= q < g0.ridges@.len() implies {
                let o = #[trigger] g0.ridges@[q];
                let c = graph.ridges@[q];
                &&& c.reversed == o.reversed
                &&& c.start == o.start
                &&& c.end == o.end
                &&& c.points@ == o.points@ + (if processed(g0, o.reversed as int, m + 1, 0) { fill_of(g0, o.reversed as int) } else { Seq::empty() })
            } by {
                let o = g0.ridges@[q];
                let p = o.reversed as int;
                assert(g0.ridge_ok(q));
                assert(g0.ridge_ok(p));
                let s0 = g0.ridges@[p].start.unwrap() as int;
                assert(g0.listed(m as int).subrange(0, count as int) =~= g0.listed(m as int));
                assert(processed(g0, p, m + 1, 0) == processed(g0, p, m as int, count as int));
            }
        }
        m = m + 1;
    }
    proof {
        assert forall|q: int| 0 <= q < g0.ridges@.len() implies {
            let o = #[trigger] g0.ridges@[q];
            let c = graph.ridges@[q];
            &&& c.reversed == o.reversed
            &&& c.start == o.start
            &&& c.end == o.end
            &&& c.points@ == o.points@ + fill_of(g0, o.reversed as int)
        } by {
            let o = g0.ridges@[q];
            assert(g0.ridge_ok(q));
            assert(g0.ridge_ok(o.reversed as int));
            assert(processed(g0, o.reversed as int, nm as int, 0));
        }
    }
}

/// `p` is an ending or a junction of the thinned image.
pub open spec fn is_minutia_pixel(thinned: BooleanMatrix, p: IntPoint) -> bool {
    thinned.in_bounds(p.x as int, p.y as int) && minutia_point(thinned, p.x as int, p.y as int)
}

/// `l` is a nonempty list of endings and junctions of the thinned image.
pub open spec fn minutia_pixels(thinned: BooleanMatrix, l: Seq<IntPoint>) -> bool {
    &&& l.len() > 0
    &&& forall|j: int| 0 <= j < l.len() ==> is_minutia_pixel(thinned, #[trigger] l[j])
}

/// `p` is the mean of a nonempty list of endings and junctions of the
/// thinned image.
pub open spec fn at_minutia_mean(thinned: BooleanMatrix, p: IntPoint) -> bool {
    exists|l: Seq<IntPoint>| #[trigger] minutia_pixels(thinned, l) && p == mean(l)
}

/// `w` runs from an ending or junction of the thinned image through at least
/// one more pixel to another; its second pixel is set and is neither.
pub open spec fn minutia_walk(thinned: BooleanMatrix, w: Seq<IntPoint>) -> bool {
    &&& w.len() >= 3
    &&& is_minutia_pixel(thinned, w[0])
    &&& is_minutia_pixel(thinned, w.last())
    &&& thinned.in_bounds(w[1].x as int, w[1].y as int)
    &&& thinned.at(w[1].x as int, w[1].y as int)
    &&& !minutia_point(thinned, w[1].x as int, w[1].y as int)
}

/// `pos` is the position of the minutia of the group of the ending or
/// junction `p`: the mean of a nonempty list of endings and junctions that
/// starts with the same pixel as such a list containing `p`.
pub open spec fn represents(thinned: BooleanMatrix, pos: IntPoint, p: IntPoint) -> bool {
    exists|l1: Seq<IntPoint>, l2: Seq<IntPoint>| #![trigger minutia_pixels(thinned, l1), minutia_pixels(thinned, l2)]
        minutia_pixels(thinned, l1) && l1.contains(p) && minutia_pixels(thinned, l2) && l2[0] == l1[0] && pos == mean(l2)
}

/// Some minutia of `g` represents the ending or junction `p`.
pub open spec fn has_minutia_for(g: SkeletonGraph, thinned: BooleanMatrix, p: IntPoint) -> bool {
    exists|m: int| 0 <= m < g.minutiae@.len() && #[trigger] represents(thinned, g.minutiae@[m].position, p)
}

/// Ridges `2 * i` and `2 * i + 1` of `g` are twins traced along a walk `w`
/// of the thinned image, one each way; each is extended at its far end by
/// the fill between its twin's first point and the position of the minutia
/// its twin starts at.
pub open spec fn traced_ridge_pair(g: SkeletonGraph, thinned: BooleanMatrix, i: int) -> bool {
    let a = g.ridges@[2 * i];
    let b = g.ridges@[2 * i + 1];
    &&& a.reversed == 2 * i + 1
    &&& a.start is Some
    &&& b.start is Some
    &&& exists|w: Seq<IntPoint>| #[trigger] minutia_walk(thinned, w)
        && a.points@ == w + linking_fill(w.last(), g.minutiae@[b.start.unwrap() as int].position)
        && b.points@ == w.reverse() + linking_fill(w[0], g.minutiae@[a.start.unwrap() as int].position)
        && represents(thinned, g.minutiae@[a.start.unwrap() as int].position, w[0])
        && represents(thinned, g.minutiae@[b.start.unwrap() as int].position, w.last())
}

/// Whether `p` is an ending or a junction of the thinned image, as a predicate.
pub open spec fn minutia_fn(thinned: BooleanMatrix) -> spec_fn(IntPoint) -> bool {
    |t: IntPoint| is_minutia_pixel(thinned, t)
}

/// The walk from the ending or junction `p` through its `k`-th neighbour
/// `q` is accounted for in `g`: where `q` is a set pixel that is neither an
/// ending nor a junction and the walk reaches an ending or junction within
/// `walk_limit` steps, some ridge of `g` has `q` as its second point (unless
/// `g` has no room left for more ridges).
pub open spec fn walk_accounted(g: SkeletonGraph, thinned: BooleanMatrix, p: IntPoint, k: int) -> bool {
    let q = neighbor_at(p, k);
    (thinned.in_bounds(q.x as int, q.y as int) && thinned.at(q.x as int, q.y as int) && !is_minutia_pixel(thinned, q)
        && walk_reaches(thinned, minutia_fn(thinned), p, q, walk_limit(thinned)))
        ==> (lead_covered(g, q) || g.ridges@.len() + 2 > usize::MAX)
}

/// Builds the skeleton graph of a thinned image: groups of touching minutia
/// points become one minutia at their mean position, joined by the ridges
/// traced between them. Every minutia lies at the mean of a nonempty list
/// of endings and junctions of the image, every ending or junction has the
/// minutia of its group, the ridges come in twin pairs traced along walks
/// between endings and junctions and start at the minutiae of the groups of
/// their ends, and every walk from an ending or junction that reaches
/// another one has given a ridge.
pub fn trace(thinned: &BooleanMatrix) -> (graph: SkeletonGraph)
    requires
        thinned.wf(),
        thinned.width <= 32767,
        thinned.height <= 32767,
    ensures
        graph.wf(),
        graph.positions_in_range(),
        positions_inside(graph, thinned.width as int, thinned.height as int),
        forall|m: int| 0 <= m < graph.minutiae@.len() ==> at_minutia_mean(*thinned, #[trigger] graph.minutiae@[m].position),
        graph.ridges@.len() % 2 == 0,
        forall|i: int| 0 <= i < graph.ridges@.len() / 2 ==> #[trigger] traced_ridge_pair(graph, *thinned, i),
        forall|p: IntPoint, k: int| is_minutia_pixel(*thinned, p) && 0 <= k < 8 ==> #[trigger] walk_accounted(graph, *thinned, p, k),
        forall|p: IntPoint| is_minutia_pixel(*thinned, p) ==> #[trigger] has_minutia_for(graph, *thinned, p),
{
    let mut graph = SkeletonGraph::new();
    let minutia_points = find_minutiae(thinned);
    let n = thinned.cells.len();
    proof {
        assert forall|i: int| 0 <= i < minutia_points@.len() implies
            0 <= (#[trigger] minutia_points@[i]).x < thinned.width && 0 <= minutia_points@[i].y < thinned.height by {
            let p = minutia_points@[i];
            assert(thinned.in_bounds(p.x as int, p.y as int));
        }
    }
    let linking = link_neighboring_minutiae(&minutia_points, thinned.width(), thinned.height());
    proof {
        assert forall|q: IntPoint| #[trigger] linking.has(q) == is_minutia_pixel(*thinned, q) by {
            assert(IntPoint { x: q.x as int as i32, y: q.y as int as i32 } == q);
            if linking.present.in_bounds(q.x as int, q.y as int) {
                assert(linking.present.at(q.x as int, q.y as int) <==> minutia_points@.contains(IntPoint { x: q.x as int as i32, y: q.y as int as i32 }));
            }
            if minutia_points@.contains(q) {
                let t = choose|t: int| 0 <= t < minutia_points@.len() && minutia_points@[t] == q;
                assert(thinned.in_bounds(minutia_points@[t].x as int, minutia_points@[t].y as int));
            }
        }
    }
    let centers = minutia_centers(&mut graph, &linking);
    let ghost g_centered = graph;
    proof {
        assert forall|r: int| 0 <= r < graph.ridges@.len() implies {
            let pts = (#[trigger] graph.ridges@[r]).points@;
            pts.len() > 0 && 0 <= pts[0].x < thinned.width && 0 <= pts[0].y < thinned.height
        } by {}
    }
    trace_ridges(&mut graph, thinned, &linking, &centers);
    let ghost g_traced = graph;
    proof {
        assert forall|r: int| 0 <= r < graph.ridges@.len() implies (#[trigger] graph.ridges@[r]).start is Some by {
            let i = r / 2;
            assert(traced_pair(graph, *thinned, linking, centers, i));
        }
    }
    fix_linking_gaps(&mut graph, thinned.width(), thinned.height());
    proof {
        assert forall|a: int, b: int| #![trigger graph.minutiae@[a].position, graph.minutiae@[b].position]
            0 <= a < graph.minutiae@.len() && 0 <= b < graph.minutiae@.len() implies {
            let p = graph.minutiae@[a].position;
            let q = graph.minutiae@[b].position;
            -0x7fff_ffff <= p.x - q.x <= 0x7fff_ffff && -0x7fff_ffff <= p.y - q.y <= 0x7fff_ffff
        } by {}
        assert forall|m: int| 0 <= m < graph.minutiae@.len() implies at_minutia_mean(*thinned, #[trigger] graph.minutiae@[m].position) by {
            assert(graph.minutiae@[m].position == g_centered.minutiae@[m].position);
            assert(at_list_mean(linking, g_centered.minutiae@[m].position));
            let (a, b) = choose|a: int, b: int| #![trigger linking.list_at(a, b)]
                linking.present.in_bounds(a, b) && linking.present.at(a, b) && g_centered.minutiae@[m].position == mean(linking.list_at(a, b));
            let l = linking.list_at(a, b);
            assert(linking.present.at(a, b));
            assert forall|j: int| 0 <= j < l.len() implies is_minutia_pixel(*thinned, #[trigger] l[j]) by {
                assert(linking.has(l[j]));
            }
            assert(minutia_pixels(*thinned, l));
        }
        assert forall|x: int, y: int| #![trigger linking.list_at(x, y)] linking.present.in_bounds(x, y) && linking.present.at(x, y) implies
            minutia_pixels(*thinned, linking.list_at(x, y)) by {
            let l = linking.list_at(x, y);
            assert(linking.present.at(x, y));
            assert forall|j: int| 0 <= j < l.len() implies is_minutia_pixel(*thinned, #[trigger] l[j]) by {
                assert(linking.has(l[j]));
            }
        }
        assert forall|p: IntPoint| linking.has(p) implies
            #[trigger] represents(*thinned, graph.minutiae@[centers.at(p.x as int, p.y as int) - 1].position, p) by {
            let x = p.x as int;
            let y = p.y as int;
            assert(centers.in_bounds(x, y));
            assert(linking.present.at(x, y));
            let k = centers.at(x, y) - 1;
            assert(0 <= k < graph.minutiae@.len());
            assert(graph.minutiae@[k].position == g_centered.minutiae@[k].position);
            assert(group_mean_at(linking, linking.list_at(x, y)[0], g_centered.minutiae@[k].position));
            let (a, b) = choose|a: int, b: int| #![trigger linking.list_at(a, b)]
                linking.present.in_bounds(a, b) && linking.present.at(a, b) && linking.list_at(a, b)[0] == linking.list_at(x, y)[0]
                    && g_centered.minutiae@[k].position == mean(linking.list_at(a, b));
            let l1 = linking.list_at(x, y);
            let l2 = linking.list_at(a, b);
            assert(minutia_pixels(*thinned, l1));
            assert(minutia_pixels(*thinned, l2));
            assert(IntPoint { x: x as i32, y: y as i32 } == p);
            assert(l1.contains(p));
        }
        assert forall|p: IntPoint| is_minutia_pixel(*thinned, p) implies #[trigger] has_minutia_for(graph, *thinned, p) by {
            assert(linking.has(p));
            assert(represents(*thinned, graph.minutiae@[centers.at(p.x as int, p.y as int) - 1].position, p));
            assert(centers.at(p.x as int, p.y as int) > 0);
        }
        assert forall|i: int| 0 <= i < graph.ridges@.len() / 2 implies #[trigger] traced_ridge_pair(graph, *thinned, i) by {
            assert(traced_pair(g_traced, *thinned, linking, centers, i));
            let w = g_traced.ridges@[2 * i].points@;
            assert(g_traced.ridge_ok(2 * i));
            assert(g_traced.ridge_ok(2 * i + 1));
            assert(linking.has(w[0]));
            assert(linking.has(w.last()));
            assert(linking.present.in_bounds(w[1].x as int, w[1].y as int));
            assert(!linking.has(w[1]));
            assert(minutia_walk(*thinned, w));
            assert(w.reverse()[0] == w.last());
            assert(w.reverse().len() > 0);
            let a0 = g_traced.ridges@[2 * i];
            let b0 = g_traced.ridges@[2 * i + 1];
            assert(graph.ridges@[2 * i].points@ == w + fill_of(g_traced, 2 * i + 1));
            assert(graph.ridges@[2 * i + 1].points@ == w.reverse() + fill_of(g_traced, 2 * i));
            assert(represents(*thinned, graph.minutiae@[centers.at(w[0].x as int, w[0].y as int) - 1].position, w[0]));
            assert(represents(*thinned, graph.minutiae@[centers.at(w.last().x as int, w.last().y as int) - 1].position, w.last()));
            assert(centers.at(w[0].x as int, w[0].y as int) > 0);
            assert(centers.at(w.last().x as int, w.last().y as int) > 0);
        }
        assert(has_fn(linking) =~= minutia_fn(*thinned));
        assert forall|p: IntPoint, k: int| is_minutia_pixel(*thinned, p) && 0 <= k < 8 implies #[trigger] walk_accounted(graph, *thinned, p, k) by {
            assert(linking.has(p));
            assert(start_covered(g_traced, *thinned, linking, p, k));
            let q = neighbor_at(p, k);
            if lead_covered(g_traced, q) {
                let r = choose|r: int| #![trigger g_traced.ridges@[r]] 0 <= r < g_traced.ridges@.len() && g_traced.ridges@[r].points@[1] == q;
                let i = r / 2;
                assert(traced_pair(g_traced, *thinned, linking, centers, i));
                assert(g_traced.ridges@[r].points@.len() >= 3);
                assert(graph.ridges@[r].points@ == g_traced.ridges@[r].points@ + fill_of(g_traced, g_traced.ridges@[r].reversed as int));
                assert(graph.ridges@[r].points@[1] == q);
            }
        }
    }
    graph
}

} // verus!
