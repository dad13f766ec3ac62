use vstd::prelude::*;
use crate::extractor::binary_thinning::{corner_set, count_set_corners, first_set_corner};
use crate::features::minutia_type::MinutiaType;
use crate::parameters::Parameters;
use crate::primitives::bool_matrix::BooleanMatrix;
use crate::primitives::int_point::{corner_offsets, IntPoint};

verus! {

/// A minutia found on a skeleton pixel: its position and type, the number
/// of set neighbours, and the integer direction its angle is taken from —
/// the offset of the first set neighbour for an ending (zero when it has
/// none), the sum of the offsets of all set neighbours for a bifurcation.
#[derive(Clone, Copy, Debug, PartialEq, Eq, Structural)]
pub struct PixelMinutia {
    pub position: IntPoint,
    pub typ: MinutiaType,
    pub direction: IntPoint,
    pub neighbors: u32,
}

/// Sum of the offsets of the set pixels among the first `k` around `p`.
pub open spec fn offset_sum(m: BooleanMatrix, p: IntPoint, k: int) -> (int, int)
    decreases k,
{
    if k <= 0 {
        (0, 0)
    } else {
        let s = offset_sum(m, p, k - 1);
        if corner_set(m, p, k - 1) {
            (s.0 + corner_offsets()[k - 1].x, s.1 + corner_offsets()[k - 1].y)
        } else {
            s
        }
    }
}

/// The minutia at pixel `(x, y)`, if any: a set pixel with at most one set
/// neighbour is an ending, one with three or more a bifurcation.
#[verifier::opaque]
pub open spec fn pixel_minutia(m: BooleanMatrix, x: int, y: int) -> Option<PixelMinutia> {
    let p = IntPoint { x: x as i32, y: y as i32 };
    let c = count_set_corners(m, p, 8);
    let first = first_set_corner(m, p, 0);
    let sum = offset_sum(m, p, 8);
    if !m.at(x, y) {
        None
    } else if c <= 1 {
        Some(PixelMinutia {
            position: p,
            typ: MinutiaType::Ending,
            direction: if first < 8 { corner_offsets()[first] } else { IntPoint { x: 0, y: 0 } },
            neighbors: c as u32,
        })
    } else if c >= 3 {
        Some(PixelMinutia {
            position: p,
            typ: MinutiaType::Bifurcation,
            direction: IntPoint { x: sum.0 as i32, y: sum.1 as i32 },
            neighbors: c as u32,
        })
    } else {
        None
    }
}

/// Sort key of a position: rows of ten thousand columns.
pub open spec fn sort_key(p: IntPoint) -> int {
    p.y * 10000 + p.x
}

/// Whether position `a` comes before `b`: by sort key, then in row-major order.
pub open spec fn comes_before(a: IntPoint, b: IntPoint, width: int) -> bool {
    sort_key(a) < sort_key(b) || (sort_key(a) == sort_key(b) && a.y * width + a.x < b.y * width + b.x)
}

/// `s` lists minutiae of `m`, each with the data of its pixel.
pub open spec fn all_minutiae(m: BooleanMatrix, s: Seq<PixelMinutia>) -> bool {
    forall|i: int| 0 <= i < s.len() ==> {
        let q = #[trigger] s[i];
        &&& m.in_bounds(q.position.x as int, q.position.y as int)
        &&& pixel_minutia(m, q.position.x as int, q.position.y as int) == Some(q)
    }
}

/// Counts and sums the set pixels around `(x, y)`, and finds the first one.
fn neighborhood(m: &BooleanMatrix, x: usize, y: usize) -> (r: (u32, usize, i32, i32))
    requires
        m.wf(),
        m.width <= i32::MAX - 1,
        m.height <= i32::MAX - 1,
        x < m.width,
        y < m.height,
    ensures
        r.0 == count_set_corners(*m, IntPoint { x: x as i32, y: y as i32 }, 8),
        r.1 == first_set_corner(*m, IntPoint { x: x as i32, y: y as i32 }, 0),
        r.2 == offset_sum(*m, IntPoint { x: x as i32, y: y as i32 }, 8).0,
        r.3 == offset_sum(*m, IntPoint { x: x as i32, y: y as i32 }, 8).1,
{
    let p = IntPoint::new(x as i32, y as i32);
    let corners = IntPoint::corner_neighbors();
    let mut count: u32 = 0;
    let mut first: usize = 8;
    let mut sx: i32 = 0;
    let mut sy: i32 = 0;
    let mut k: usize = 0;
    while k < 8
        invariant
            corners@ == corner_offsets(),
            m.wf(),
            m.width <= i32::MAX - 1,
            m.height <= i32::MAX - 1,
            x < m.width,
            y < m.height,
            p == (IntPoint { x: x as i32, y: y as i32 }),
            k <= 8,
            count == count_set_corners(*m, p, k as int),
            count <= k,
            -(k as int) <= sx <= k,
            -(k as int) <= sy <= k,
            (sx as int, sy as int) == offset_sum(*m, p, k as int),
            first_set_corner(*m, p, 0) == if first < 8 { first as int } else { first_set_corner(*m, p, k as int) },
            first <= 8,
            first < 8 ==> first < k,
        decreases 8 - k,
    {
        let q = p.plus(&corners[k]);
        if m.get_with_fallback(q.x(), q.y(), false) {
            count = count + 1;
            sx = sx + corners[k].x();
            sy = sy + corners[k].y();
            if first == 8 {
                first = k;
            }
        }
        k = k + 1;
    }
    (count, first, sx, sy)
}

/// The data of the minutia at a set pixel, if it is one.
fn minutia_at(m: &BooleanMatrix, x: usize, y: usize) -> (r: Option<PixelMinutia>)
    requires
        m.wf(),
        m.width <= i32::MAX - 1,
        m.height <= i32::MAX - 1,
        x < m.width,
        y < m.height,
    ensures
        r == pixel_minutia(*m, x as int, y as int),
        r matches Some(q) ==> q.position == (IntPoint { x: x as i32, y: y as i32 }),
{
    reveal(pixel_minutia);
    if !m.get(x, y) {
        return None;
    }
    let (count, first, sx, sy) = neighborhood(m, x, y);
    let position = IntPoint::new(x as i32, y as i32);
    if count <= 1 {
        let direction = if first < 8 { IntPoint::corner_neighbors()[first] } else { IntPoint::new(0, 0) };
        Some(PixelMinutia { position, typ: MinutiaType::Ending, direction, neighbors: count })
    } else if count >= 3 {
        Some(PixelMinutia { position, typ: MinutiaType::Bifurcation, direction: IntPoint::new(sx, sy), neighbors: count })
    } else {
        None
    }
}

/// Minutiae found on a binary skeleton.
pub struct MinutiaCollector {
    minutiae: Vec<PixelMinutia>,
    skeleton_pixel_count: usize,
}

impl MinutiaCollector {
    /// The minutiae found.
    pub closed spec fn minutiae_view(&self) -> Seq<PixelMinutia> {
        self.minutiae@
    }

    /// The recorded skeleton pixel count, always 0: the count is not taken.
    pub closed spec fn pixel_count_view(&self) -> usize {
        self.skeleton_pixel_count
    }

    /// Finds the endings and bifurcations of a skeleton and keeps the first
    /// `MAX_MINUTIAE` of them, ordered by `sort_key` of their positions and,
    /// among equal keys, in row-major order.
    #[verifier::rlimit(40)]
    pub fn from_skeleton(skeleton: &BooleanMatrix) -> (r: MinutiaCollector)
        requires
            skeleton.wf(),
            skeleton.width <= i32::MAX - 1,
            skeleton.height <= i32::MAX - 1,
        ensures
            all_minutiae(*skeleton, r.minutiae_view()),
            r.minutiae_view().len() <= Parameters::MAX_MINUTIAE,
            forall|i: int, j: int| 0 <= i < j < r.minutiae_view().len() ==>
                comes_before((#[trigger] r.minutiae_view()[i]).position, (#[trigger] r.minutiae_view()[j]).position, skeleton.width as int),
            forall|x: int, y: int| #![trigger pixel_minutia(*skeleton, x, y)]
                skeleton.in_bounds(x, y) && (pixel_minutia(*skeleton, x, y) is Some) ==>
                (exists|i: int| 0 <= i < r.minutiae_view().len() && (#[trigger] r.minutiae_view()[i]).position == IntPoint { x: x as i32, y: y as i32 })
                || (r.minutiae_view().len() == Parameters::MAX_MINUTIAE && comes_before(
                    r.minutiae_view()[Parameters::MAX_MINUTIAE - 1].position,
                    IntPoint { x: x as i32, y: y as i32 },
                    skeleton.width as int,
                )),
            r.pixel_count_view() == 0,
    {
        let w = skeleton.width();
        let h = skeleton.height();
        let ghost m = *skeleton;
        let ghost wi = w as int;
        // every minutia pixel, in row-major order
        let mut found: Vec<PixelMinutia> = Vec::new();
        let mut y: usize = 0;
        while y < h
            invariant
                m == *skeleton,
                wi == w as int,
                skeleton.wf(),
                w == skeleton.width,
                h == skeleton.height,
                w <= i32::MAX - 1,
                h <= i32::MAX - 1,
                y <= h,
                all_minutiae(m, found@),
                forall|i: int| 0 <= i < found@.len() ==> (#[trigger] found@[i]).position.y < y,
                forall|i: int, j: int| 0 <= i < j < found@.len() ==>
                    (#[trigger] found@[i]).position.y * wi + found@[i].position.x < (#[trigger] found@[j]).position.y * wi + found@[j].position.x,
                forall|a: int, b: int| #![trigger pixel_minutia(m, a, b)]
                    0 <= a < w && 0 <= b < y && (pixel_minutia(m, a, b) is Some) ==>
                    (exists|i: int| 0 <= i < found@.len() && (#[trigger] found@[i]).position == IntPoint { x: a as i32, y: b as i32 }),
            decreases h - y,
        {
            let mut x: usize = 0;
            while x < w
                invariant
                    m == *skeleton,
                    wi == w as int,
                    skeleton.wf(),
                    w == skeleton.width,
                    h == skeleton.height,
                    w <= i32::MAX - 1,
                    h <= i32::MAX - 1,
                    y < h,
                    x <= w,
                    all_minutiae(m, found@),
                    forall|i: int| 0 <= i < found@.len() ==> {
                        let p = (#[trigger] found@[i]).position;
                        p.y < y || (p.y == y && p.x < x)
                    },
                    forall|i: int, j: int| 0 <= i < j < found@.len() ==>
                        (#[trigger] found@[i]).position.y * wi + found@[i].position.x < (#[trigger] found@[j]).position.y * wi + found@[j].position.x,
                    forall|a: int, b: int| #![trigger pixel_minutia(m, a, b)]
                        0 <= a < w && 0 <= b < h && (b < y || (b == y && a < x)) && (pixel_minutia(m, a, b) is Some) ==>
                        (exists|i: int| 0 <= i < found@.len() && (#[trigger] found@[i]).position == IntPoint { x: a as i32, y: b as i32 }),
                decreases w - x,
            {
                let here = minutia_at(skeleton, x, y);
                if let Some(q) = here {
                    let ghost before = found@;
                    found.push(q);
                    proof {
                        assert forall|i: int, j: int| 0 <= i < j < found@.len() implies
                            (#[trigger] found@[i]).position.y * wi + found@[i].position.x < (#[trigger] found@[j]).position.y * wi + found@[j].position.x by {
                            if j == before.len() {
                                let p = found@[i].position;
                                assert(found@[i] == before[i]);
                                assert(m.in_bounds(p.x as int, p.y as int));
                                if p.y < y {
                                    assert(p.y * wi + p.x < y * wi + x) by (nonlinear_arith)
                                        requires p.y < y, 0 <= p.x < wi, 0 <= x;
                                }
                            } else {
                                assert(found@[i] == before[i] && found@[j] == before[j]);
                            }
                        }
                        assert forall|a: int, b: int| #![trigger pixel_minutia(m, a, b)]
                            0 <= a < w && 0 <= b < h && (b < y || (b == y && a < x + 1)) && (pixel_minutia(m, a, b) is Some) implies
                            exists|i: int| 0 <= i < found@.len() && (#[trigger] found@[i]).position == IntPoint { x: a as i32, y: b as i32 } by {
                            if b == y && a == x {
                                assert(found@[before.len() as int].position == IntPoint { x: a as i32, y: b as i32 });
                            } else {
                                let k = choose|k: int| 0 <= k < before.len() && (#[trigger] before[k]).position == IntPoint { x: a as i32, y: b as i32 };
                                assert(found@[k] == before[k]);
                            }
                        }
                        assert forall|i: int| 0 <= i < found@.len() implies {
                            let q2 = #[trigger] found@[i];
                            &&& m.in_bounds(q2.position.x as int, q2.position.y as int)
                            &&& pixel_minutia(m, q2.position.x as int, q2.position.y as int) == Some(q2)
                        } by {
                            if i < before.len() {
                                assert(found@[i] == before[i]);
                            }
                        }
                    }
                }
                x = x + 1;
            }
            y = y + 1;
        }
        // choose the first minutiae in sort order
        proof {
            assert forall|i: int, j: int| 0 <= i < j < found@.len() implies
                (#[trigger] found@[i]).position != (#[trigger] found@[j]).position by {
                assert(found@[i].position.y * wi + found@[i].position.x < found@[j].position.y * wi + found@[j].position.x);
            }
        }
        let mut chosen: Vec<PixelMinutia> = Vec::new();
        let mut rest = found;
        while chosen.len() < Parameters::MAX_MINUTIAE && rest.len() > 0
            invariant
                m == *skeleton,
                wi == w as int,
                w == skeleton.width,
                w <= i32::MAX - 1,
                h <= i32::MAX - 1,
                all_minutiae(m, chosen@),
                all_minutiae(m, rest@),
                chosen@.len() <= Parameters::MAX_MINUTIAE,
                forall|i: int, j: int| 0 <= i < j < chosen@.len() ==>
                    comes_before((#[trigger] chosen@[i]).position, (#[trigger] chosen@[j]).position, wi),
                forall|i: int, j: int| 0 <= i < chosen@.len() && 0 <= j < rest@.len() ==>
                    comes_before((#[trigger] chosen@[i]).position, (#[trigger] rest@[j]).position, wi),
                forall|i: int, j: int| 0 <= i < j < rest@.len() ==>
                    (#[trigger] rest@[i]).position != (#[trigger] rest@[j]).position,
                forall|a: int, b: int| #![trigger pixel_minutia(m, a, b)]
                    m.in_bounds(a, b) && (pixel_minutia(m, a, b) is Some) ==>
                    (exists|i: int| 0 <= i < chosen@.len() && (#[trigger] chosen@[i]).position == IntPoint { x: a as i32, y: b as i32 })
                    || (exists|i: int| 0 <= i < rest@.len() && (#[trigger] rest@[i]).position == IntPoint { x: a as i32, y: b as i32 }),
            decreases rest@.len(),
        {
            proof {
                assert forall|i: int| 0 <= i < rest@.len() implies 0 <= (#[trigger] rest@[i]).position.x < w by {
                    assert(m.in_bounds(rest@[i].position.x as int, rest@[i].position.y as int));
                }
            }
            let j = first_in_order(&rest, w);
            let q = rest[j];
            let ghost old_rest = rest@;
            let ghost old_chosen = chosen@;
            rest.remove(j);
            chosen.push(q);
            proof {
                lemma_select_step(m, wi, old_chosen, old_rest, j as int);
                assert(rest@ == old_rest.remove(j as int));
                assert(chosen@ == old_chosen.push(old_rest[j as int]));
            }
        }
        proof {
            assert forall|x: int, y: int| #![trigger pixel_minutia(m, x, y)]
                m.in_bounds(x, y) && (pixel_minutia(m, x, y) is Some) implies
                (exists|i: int| 0 <= i < chosen@.len() && (#[trigger] chosen@[i]).position == IntPoint { x: x as i32, y: y as i32 })
                || (chosen@.len() == Parameters::MAX_MINUTIAE && comes_before(
                    chosen@[Parameters::MAX_MINUTIAE - 1].position,
                    IntPoint { x: x as i32, y: y as i32 },
                    wi,
                )) by {
                let target = IntPoint { x: x as i32, y: y as i32 };
                if !(exists|i: int| 0 <= i < chosen@.len() && (#[trigger] chosen@[i]).position == target) {
                    let k = choose|k: int| 0 <= k < rest@.len() && (#[trigger] rest@[k]).position == target;
                    assert(comes_before(chosen@[Parameters::MAX_MINUTIAE - 1].position, rest@[k].position, wi));
                }
            }
        }
        MinutiaCollector { minutiae: chosen, skeleton_pixel_count: 0 }
    }

    /// The minutiae found, in order.
    pub fn minutiae(&self) -> (r: &Vec<PixelMinutia>)
        ensures
            r@ == self.minutiae_view(),
    {
        &self.minutiae
    }

    /// The recorded skeleton pixel count.
    pub fn skeleton_pixel_count(&self) -> (r: usize)
        ensures
            r == self.pixel_count_view(),
    {
        self.skeleton_pixel_count
    }
}

/// Sort key of a position, computed exactly.
fn key_of_position(p: &IntPoint) -> (k: i64)
    ensures
        k == sort_key(*p),
{
    p.y() as i64 * 10000 + p.x() as i64
}

/// Position of a point in row-major order, computed exactly.
fn scan_of_position(p: &IntPoint, width: usize) -> (k: i128)
    requires
        width <= i32::MAX,
    ensures
        k == p.y * width + p.x,
{
    proof {
        assert(-0x8000_0000 * 0x7fff_ffff <= p.y * width <= 0x8000_0000 * 0x7fff_ffff) by (nonlinear_arith)
            requires -0x8000_0000 <= p.y <= 0x7fff_ffff, 0 <= width <= 0x7fff_ffff;
    }
    p.y() as i128 * width as i128 + p.x() as i128
}

/// Moving the first remaining minutia to the chosen ones keeps the
/// selection's invariants.
proof fn lemma_select_step(m: BooleanMatrix, wi: int, chosen: Seq<PixelMinutia>, rest: Seq<PixelMinutia>, j: int)
    requires
        0 <= j < rest.len(),
        chosen.len() < Parameters::MAX_MINUTIAE,
        all_minutiae(m, chosen),
        all_minutiae(m, rest),
        forall|i: int, k: int| 0 <= i < k < chosen.len() ==>
            comes_before((#[trigger] chosen[i]).position, (#[trigger] chosen[k]).position, wi),
        forall|i: int, k: int| 0 <= i < chosen.len() && 0 <= k < rest.len() ==>
            comes_before((#[trigger] chosen[i]).position, (#[trigger] rest[k]).position, wi),
        forall|i: int, k: int| 0 <= i < k < rest.len() ==>
            (#[trigger] rest[i]).position != (#[trigger] rest[k]).position,
        forall|k: int| 0 <= k < rest.len() && k != j ==> comes_before(rest[j].position, (#[trigger] rest[k]).position, wi),
        forall|a: int, b: int| #![trigger pixel_minutia(m, a, b)]
            m.in_bounds(a, b) && (pixel_minutia(m, a, b) is Some) ==>
            (exists|i: int| 0 <= i < chosen.len() && (#[trigger] chosen[i]).position == IntPoint { x: a as i32, y: b as i32 })
            || (exists|i: int| 0 <= i < rest.len() && (#[trigger] rest[i]).position == IntPoint { x: a as i32, y: b as i32 }),
    ensures
        ({
            let c2 = chosen.push(rest[j]);
            let r2 = rest.remove(j);
            &&& all_minutiae(m, c2)
            &&& all_minutiae(m, r2)
            &&& c2.len() <= Parameters::MAX_MINUTIAE
            &&& forall|i: int, k: int| 0 <= i < k < c2.len() ==>
                comes_before((#[trigger] c2[i]).position, (#[trigger] c2[k]).position, wi)
            &&& forall|i: int, k: int| 0 <= i < c2.len() && 0 <= k < r2.len() ==>
                comes_before((#[trigger] c2[i]).position, (#[trigger] r2[k]).position, wi)
            &&& forall|i: int, k: int| 0 <= i < k < r2.len() ==>
                (#[trigger] r2[i]).position != (#[trigger] r2[k]).position
            &&& forall|a: int, b: int| #![trigger pixel_minutia(m, a, b)]
                m.in_bounds(a, b) && (pixel_minutia(m, a, b) is Some) ==>
                (exists|i: int| 0 <= i < c2.len() && (#[trigger] c2[i]).position == IntPoint { x: a as i32, y: b as i32 })
                || (exists|i: int| 0 <= i < r2.len() && (#[trigger] r2[i]).position == IntPoint { x: a as i32, y: b as i32 })
        }),
{
    let c2 = chosen.push(rest[j]);
    let r2 = rest.remove(j);
    assert forall|i: int| 0 <= i < r2.len() implies #[trigger] r2[i] == if i < j { rest[i] } else { rest[i + 1] } by {}
    assert forall|i: int, k: int| 0 <= i < k < c2.len() implies
        comes_before((#[trigger] c2[i]).position, (#[trigger] c2[k]).position, wi) by {
        if k == chosen.len() {
            assert(c2[i] == chosen[i]);
            assert(comes_before(chosen[i].position, rest[j].position, wi));
        } else {
            assert(c2[i] == chosen[i] && c2[k] == chosen[k]);
        }
    }
    assert forall|i: int, k: int| 0 <= i < c2.len() && 0 <= k < r2.len() implies
        comes_before((#[trigger] c2[i]).position, (#[trigger] r2[k]).position, wi) by {
        let r = if k < j { k } else { k + 1 };
        assert(r2[k] == rest[r]);
        if i == chosen.len() {
            assert(comes_before(rest[j].position, rest[r].position, wi));
        } else {
            assert(c2[i] == chosen[i]);
        }
    }
    assert forall|i: int, k: int| 0 <= i < k < r2.len() implies
        (#[trigger] r2[i]).position != (#[trigger] r2[k]).position by {
        let ri = if i < j { i } else { i + 1 };
        let rk = if k < j { k } else { k + 1 };
        assert(r2[i] == rest[ri] && r2[k] == rest[rk]);
    }
    assert forall|i: int| 0 <= i < c2.len() implies {
        let q2 = #[trigger] c2[i];
        &&& m.in_bounds(q2.position.x as int, q2.position.y as int)
        &&& pixel_minutia(m, q2.position.x as int, q2.position.y as int) == Some(q2)
    } by {
        if i < chosen.len() {
            assert(c2[i] == chosen[i]);
        } else {
            assert(c2[i] == rest[j]);
        }
    }
    assert forall|i: int| 0 <= i < r2.len() implies {
        let q2 = #[trigger] r2[i];
        &&& m.in_bounds(q2.position.x as int, q2.position.y as int)
        &&& pixel_minutia(m, q2.position.x as int, q2.position.y as int) == Some(q2)
    } by {
        let r = if i < j { i } else { i + 1 };
        assert(r2[i] == rest[r]);
    }
    assert forall|a: int, b: int| #![trigger pixel_minutia(m, a, b)]
        m.in_bounds(a, b) && (pixel_minutia(m, a, b) is Some) implies
        (exists|i: int| 0 <= i < c2.len() && (#[trigger] c2[i]).position == IntPoint { x: a as i32, y: b as i32 })
        || (exists|i: int| 0 <= i < r2.len() && (#[trigger] r2[i]).position == IntPoint { x: a as i32, y: b as i32 }) by {
        let target = IntPoint { x: a as i32, y: b as i32 };
        if exists|i: int| 0 <= i < chosen.len() && (#[trigger] chosen[i]).position == target {
            let i = choose|i: int| 0 <= i < chosen.len() && (#[trigger] chosen[i]).position == target;
            assert(c2[i] == chosen[i]);
        } else {
            let i = choose|i: int| 0 <= i < rest.len() && (#[trigger] rest[i]).position == target;
            if i == j {
                assert(c2[chosen.len() as int] == rest[i]);
            } else if i < j {
                assert(r2[i] == rest[i]);
            } else {
                assert(r2[i - 1] == rest[i]);
            }
        }
    }
}

/// Distinct positions inside the image have distinct row-major positions.
proof fn lemma_scan_injective(a: IntPoint, b: IntPoint, width: int)
    requires
        0 <= a.x < width,
        0 <= b.x < width,
        a.y * width + a.x == b.y * width + b.x,
    ensures
        a == b,
{
    if a.y > b.y {
        assert((a.y - b.y) * width >= width) by (nonlinear_arith) requires a.y - b.y >= 1, width >= 0;
        assert(a.y * width - b.y * width == (a.y - b.y) * width) by (nonlinear_arith);
    } else if a.y < b.y {
        assert((b.y - a.y) * width >= width) by (nonlinear_arith) requires b.y - a.y >= 1, width >= 0;
        assert(b.y * width - a.y * width == (b.y - a.y) * width) by (nonlinear_arith);
    }
}

/// Index of the entry whose position comes first.
fn first_in_order(v: &Vec<PixelMinutia>, width: usize) -> (j: usize)
    requires
        v@.len() >= 1,
        width <= i32::MAX,
        forall|i: int| 0 <= i < v@.len() ==> 0 <= (#[trigger] v@[i]).position.x < width,
        forall|i: int, k: int| 0 <= i < k < v@.len() ==> (#[trigger] v@[i]).position != (#[trigger] v@[k]).position,
    ensures
        j < v@.len(),
        forall|k: int| 0 <= k < v@.len() && k != j ==> comes_before(v@[j as int].position, (#[trigger] v@[k]).position, width as int),
{
    let mut j: usize = 0;
    let mut i: usize = 1;
    while i < v.len()
        invariant
            1 <= i <= v@.len(),
            j < i,
            width <= i32::MAX,
            forall|a: int| 0 <= a < v@.len() ==> 0 <= (#[trigger] v@[a]).position.x < width,
            forall|a: int, b: int| 0 <= a < b < v@.len() ==> (#[trigger] v@[a]).position != (#[trigger] v@[b]).position,
            forall|k: int| 0 <= k < i && k != j ==> comes_before(v@[j as int].position, (#[trigger] v@[k]).position, width as int),
        decreases v@.len() - i,
    {
        let kj = key_of_position(&v[j].position);
        let ki = key_of_position(&v[i].position);
        let sj = scan_of_position(&v[j].position, width);
        let si = scan_of_position(&v[i].position, width);
        if ki < kj || (ki == kj && si < sj) {
            proof {
                assert forall|k: int| 0 <= k < i + 1 && k != i implies comes_before(v@[i as int].position, (#[trigger] v@[k]).position, width as int) by {
                    if k != j {
                        assert(comes_before(v@[j as int].position, v@[k].position, width as int));
                    }
                }
            }
            j = i;
        } else {
            proof {
                let pj = v@[j as int].position;
                let pi = v@[i as int].position;
                assert(pj != pi);
                if ki == kj && si == sj {
                    assert(0 <= pj.x < width);
                    assert(0 <= pi.x < width);
                    lemma_scan_injective(pj, pi, width as int);
                }
            }
        }
        i = i + 1;
    }
    j
}

} // verus!
