use vstd::prelude::*;
use crate::extractor::binarized_image::set_count;
use crate::extractor::neighbors::{cells_of, count_neighbors, lemma_cells_of, neighbors_of};
use crate::features::skeleton::Skeleton;
use crate::features::skeleton_type::SkeletonType;
use crate::parameters::Parameters;
use crate::primitives::bool_matrix::BooleanMatrix;
use crate::primitives::grid::{cell_index, lemma_cell_index_bounds, lemma_cell_index_injective};
use crate::primitives::int_point::{corner_offsets, IntPoint};

verus! {

/// The smaller of two integers.
pub open spec fn min_int(a: int, b: int) -> int {
    if a <= b {
        a
    } else {
        b
    }
}

/// 1 when `f` is set at `(x, y)`.
pub open spec fn bit(f: spec_fn(int, int) -> bool, x: int, y: int) -> int {
    if f(x, y) {
        1
    } else {
        0
    }
}

/// Column offset of the `k`-th neighbour in the clockwise ring that starts
/// above the pixel: up, up-right, right, down-right, down, down-left, left,
/// up-left.
pub open spec fn ring_dx(k: int) -> int {
    if k == 1 || k == 2 || k == 3 {
        1
    } else if k == 5 || k == 6 || k == 7 {
        -1
    } else {
        0
    }
}

/// Row offset of the `k`-th neighbour in the clockwise ring (see `ring_dx`).
pub open spec fn ring_dy(k: int) -> int {
    if k == 0 || k == 1 || k == 7 {
        -1
    } else if k == 3 || k == 4 || k == 5 {
        1
    } else {
        0
    }
}

/// 1 when the `k`-th ring neighbour of `(x, y)` is set.
pub open spec fn ring_bit(f: spec_fn(int, int) -> bool, x: int, y: int, k: int) -> int {
    bit(f, x + ring_dx(k), y + ring_dy(k))
}

/// Rises from clear to set between consecutive neighbours among the first
/// `n` steps around the ring (the step from the eighth leads back to the first).
pub open spec fn ring_transitions_upto(f: spec_fn(int, int) -> bool, x: int, y: int, n: int) -> int
    decreases n,
{
    if n <= 0 {
        0
    } else {
        let k = n - 1;
        let next = if k == 7 { 0 } else { k + 1 };
        ring_transitions_upto(f, x, y, n - 1)
            + if ring_bit(f, x, y, k) == 0 && ring_bit(f, x, y, next) == 1 { 1int } else { 0int }
    }
}

/// Rises from clear to set around the clockwise ring of the eight neighbours.
pub open spec fn ring_transitions(f: spec_fn(int, int) -> bool, x: int, y: int) -> int {
    ring_transitions_upto(f, x, y, 8)
}

/// Whether the set pixel `(x, y)` is deleted: its 3×3 block holds between 2
/// and 6 set pixels (itself included) and its neighbours rise from clear to
/// set exactly once around the clockwise ring.
pub open spec fn deletable(f: spec_fn(int, int) -> bool, w: int, h: int, x: int, y: int) -> bool {
    let n = neighbors_of(f, w, h, x, y) + bit(f, x, y);
    2 <= n <= 6 && ring_transitions(f, x, y) == 1
}

/// One thinning pass: deletable pixels off the frame are cleared, all
/// decided on the image before the pass.
pub open spec fn thinning_pass(f: spec_fn(int, int) -> bool, w: int, h: int) -> spec_fn(int, int) -> bool {
    |x: int, y: int| f(x, y) && !(1 <= x < w - 1 && 1 <= y < h - 1 && deletable(f, w, h, x, y))
}

/// `k` thinning passes.
pub open spec fn thinning_rounds(f: spec_fn(int, int) -> bool, w: int, h: int, k: nat) -> spec_fn(int, int) -> bool
    decreases k,
{
    if k == 0 {
        f
    } else {
        thinning_pass(thinning_rounds(f, w, h, (k - 1) as nat), w, h)
    }
}

/// Whether a pass leaves the image unchanged inside it.
pub open spec fn thinning_fixpoint(f: spec_fn(int, int) -> bool, w: int, h: int) -> bool {
    forall|x: int, y: int| 0 <= x < w && 0 <= y < h ==> #[trigger] thinning_pass(f, w, h)(x, y) == f(x, y)
}

/// Traces skeleton curves from a binary image.
pub struct SkeletonTracing {
    skeleton: BooleanMatrix,
    traced: BooleanMatrix,
    pub skeleton_result: Option<Skeleton>,
}

/// `q` is a skeleton pixel not yet visited.
pub open spec fn open_pixel(skeleton: BooleanMatrix, visited: BooleanMatrix, q: (int, int)) -> bool {
    &&& skeleton.in_bounds(q.0, q.1)
    &&& skeleton.at(q.0, q.1)
    &&& !visited.at(q.0, q.1)
}

/// `p` moved by the `k`-th of the eight neighbour offsets.
pub open spec fn offset_point(p: IntPoint, k: int) -> (int, int) {
    (p.x + corner_offsets()[k].x, p.y + corner_offsets()[k].y)
}

/// `path` walks the skeleton from `start`: each further point is the next
/// one moved by one of the eight neighbour offsets, a skeleton pixel that
/// `before` had not visited and `after` has; `after` differs from `before`
/// only there, and the walk ends at a point with no open neighbour left.
pub open spec fn skeleton_walk(
    skeleton: BooleanMatrix,
    before: BooleanMatrix,
    after: BooleanMatrix,
    start: IntPoint,
    path: Seq<IntPoint>,
) -> bool {
    &&& path.len() >= 1
    &&& path[0] == start
    &&& forall|i: int| #![trigger path[i]] 1 <= i < path.len() ==> {
        &&& exists|k: int| 0 <= k < 8 && #[trigger] offset_point(path[i - 1], k) == (path[i].x as int, path[i].y as int)
        &&& open_pixel(skeleton, before, (path[i].x as int, path[i].y as int))
        &&& after.at(path[i].x as int, path[i].y as int)
    }
    &&& forall|x: int, y: int| #![trigger after.at(x, y)] after.in_bounds(x, y) && after.at(x, y) != before.at(x, y)
        ==> exists|i: int| 1 <= i < path.len() && path[i] == (IntPoint { x: x as i32, y: y as i32 })
    &&& forall|k: int| 0 <= k < 8 ==> !open_pixel(skeleton, after, #[trigger] offset_point(path.last(), k))
}

/// `p` lies one pixel or more inside every edge of `m`.
pub open spec fn interior(m: BooleanMatrix, p: IntPoint) -> bool {
    1 <= p.x < m.width - 1 && 1 <= p.y < m.height - 1
}

/// Number of set 8-neighbours of `p`.
pub open spec fn set_neighbors(m: BooleanMatrix, p: IntPoint) -> int {
    neighbors_of(cells_of(m), m.width as int, m.height as int, p.x as int, p.y as int)
}

/// An interior set pixel with exactly one set neighbour.
pub open spec fn ridge_end(m: BooleanMatrix, p: IntPoint) -> bool {
    interior(m, p) && m.at(p.x as int, p.y as int) && set_neighbors(m, p) == 1
}

/// An interior set pixel with three set neighbours or more.
pub open spec fn ridge_junction(m: BooleanMatrix, p: IntPoint) -> bool {
    interior(m, p) && m.at(p.x as int, p.y as int) && set_neighbors(m, p) >= 3
}

/// `p` comes before `(x, y)` in row-major order.
pub open spec fn scanned_before(p: IntPoint, x: int, y: int) -> bool {
    p.y < y || (p.y == y && p.x < x)
}

/// The points of `s` go up strictly in row-major order.
pub open spec fn row_major_sorted(s: Seq<IntPoint>) -> bool {
    forall|i: int, j: int| 0 <= i < j < s.len() ==> scanned_before(#[trigger] s[i], #[trigger] s[j].x as int, s[j].y as int)
}

/// Marking a clear cell set adds one to the count of set cells.
proof fn lemma_set_count_mark(s: Seq<bool>, i: int)
    requires
        0 <= i < s.len(),
        !s[i],
    ensures
        set_count(s.update(i, true)) == set_count(s) + 1,
    decreases s.len(),
{
    if i == s.len() - 1 {
        assert(s.update(i, true).drop_last() =~= s.drop_last());
    } else {
        lemma_set_count_mark(s.drop_last(), i);
        assert(s.update(i, true).drop_last() =~= s.drop_last().update(i, true));
    }
}

/// No more cells are set than there are cells.
proof fn lemma_set_count_bound(s: Seq<bool>)
    ensures
        set_count(s) <= s.len(),
    decreases s.len(),
{
    if s.len() > 0 {
        lemma_set_count_bound(s.drop_last());
    }
}

/// The pixel one step from `p` along the `k`-th neighbour offset, when it is
/// open.
fn open_step(skeleton: &BooleanMatrix, visited: &BooleanMatrix, p: IntPoint, offsets: &Vec<IntPoint>, k: usize) -> (r: Option<IntPoint>)
    requires
        skeleton.wf(),
        visited.wf(),
        visited.width == skeleton.width,
        visited.height == skeleton.height,
        skeleton.width <= i32::MAX,
        skeleton.height <= i32::MAX,
        offsets@ == corner_offsets(),
        k < 8,
    ensures
        match r {
            Some(q) => open_pixel(*skeleton, *visited, (q.x as int, q.y as int)) && offset_point(p, k as int) == (q.x as int, q.y as int),
            None => !open_pixel(*skeleton, *visited, offset_point(p, k as int)),
        },
{
    let nx = p.x as i64 + offsets[k].x as i64;
    let ny = p.y as i64 + offsets[k].y as i64;
    if nx < 0 || ny < 0 || nx >= skeleton.width as i64 || ny >= skeleton.height as i64 {
        return None;
    }
    if skeleton.get(nx as usize, ny as usize) && !visited.get(nx as usize, ny as usize) {
        Some(IntPoint::new(nx as i32, ny as i32))
    } else {
        None
    }
}

/// Whether `m` holds `f` inside the image.
pub open spec fn holds(m: BooleanMatrix, f: spec_fn(int, int) -> bool) -> bool {
    forall|x: int, y: int| #![trigger m.at(x, y)] m.in_bounds(x, y) ==> m.at(x, y) == f(x, y)
}

/// Whether `thinned` is what thinning `input` gives: `k` passes for some
/// `k` up to `THINNING_ITERATIONS`, and a pass that changes nothing when
/// fewer were run. As a pass that changes nothing will never change
/// anything, this determines the image.
pub open spec fn thinned_from(input: BooleanMatrix, thinned: BooleanMatrix) -> bool {
    let w = input.width as int;
    let h = input.height as int;
    &&& thinned.width == input.width
    &&& thinned.height == input.height
    &&& exists|k: nat| k <= Parameters::THINNING_ITERATIONS && {
        &&& holds(thinned, #[trigger] thinning_rounds(cells_of(input), w, h, k))
        &&& (k < Parameters::THINNING_ITERATIONS ==> thinning_fixpoint(thinning_rounds(cells_of(input), w, h, k), w, h))
    }
}

/// Passes over images that agree inside the image agree inside the image.
pub proof fn lemma_pass_agree(f: spec_fn(int, int) -> bool, g: spec_fn(int, int) -> bool, w: int, h: int)
    requires
        forall|a: int, b: int| 0 <= a < w && 0 <= b < h ==> #[trigger] f(a, b) == g(a, b),
    ensures
        forall|a: int, b: int| 0 <= a < w && 0 <= b < h ==> #[trigger] thinning_pass(f, w, h)(a, b) == thinning_pass(g, w, h)(a, b),
{
    assert forall|a: int, b: int| 0 <= a < w && 0 <= b < h implies #[trigger] thinning_pass(f, w, h)(a, b) == thinning_pass(g, w, h)(a, b) by {
        crate::extractor::neighbors::lemma_neighbors_agree(f, g, w, h, a, b);
        if 1 <= a < w - 1 && 1 <= b < h - 1 {
            assert forall|k: int| 0 <= k < 8 implies #[trigger] ring_bit(f, a, b, k) == ring_bit(g, a, b, k) by {
                assert(f(a + ring_dx(k), b + ring_dy(k)) == g(a + ring_dx(k), b + ring_dy(k)));
            }
            lemma_ring_agree(f, g, a, b, 8);
        }
    }
}

/// Images with the same ring neighbours have the same ring transitions.
proof fn lemma_ring_agree(f: spec_fn(int, int) -> bool, g: spec_fn(int, int) -> bool, x: int, y: int, n: int)
    requires
        0 <= n <= 8,
        forall|k: int| 0 <= k < 8 ==> #[trigger] ring_bit(f, x, y, k) == ring_bit(g, x, y, k),
    ensures
        ring_transitions_upto(f, x, y, n) == ring_transitions_upto(g, x, y, n),
    decreases n,
{
    if n > 0 {
        lemma_ring_agree(f, g, x, y, n - 1);
        let k = n - 1;
        assert(ring_bit(f, x, y, k) == ring_bit(g, x, y, k));
        let next = if k == 7 { 0 } else { k + 1 };
        assert(ring_bit(f, x, y, next) == ring_bit(g, x, y, next));
    }
}

impl SkeletonTracing {
    pub closed spec fn skeleton_view(&self) -> BooleanMatrix {
        self.skeleton
    }

    pub closed spec fn traced_view(&self) -> BooleanMatrix {
        self.traced
    }

    pub closed spec fn has_result(&self) -> bool {
        self.skeleton_result.is_some()
    }

    /// The `k`-th neighbour of the interior pixel `(x, y)` in the clockwise ring, as 0 or 1.
    fn ring_bit_at(skeleton: &BooleanMatrix, x: usize, y: usize, k: usize) -> (b: u32)
        requires
            skeleton.wf(),
            1 <= x < skeleton.width - 1,
            1 <= y < skeleton.height - 1,
            k < 8,
        ensures
            b == ring_bit(cells_of(*skeleton), x as int, y as int, k as int),
    {
        let nx = if k == 1 || k == 2 || k == 3 { x + 1 } else if k == 5 || k == 6 || k == 7 { x - 1 } else { x };
        let ny = if k == 0 || k == 1 || k == 7 { y - 1 } else if k == 3 || k == 4 || k == 5 { y + 1 } else { y };
        proof {
            lemma_cells_of(*skeleton, nx as int, ny as int);
        }
        if skeleton.get(nx, ny) { 1 } else { 0 }
    }

    /// Rises around the clockwise ring of `(x, y)` (see `ring_transitions`).
    fn transitions(skeleton: &BooleanMatrix, x: usize, y: usize) -> (t: u32)
        requires
            skeleton.wf(),
            skeleton.width <= i32::MAX,
            1 <= x < skeleton.width - 1,
            1 <= y < skeleton.height - 1,
        ensures
            t == ring_transitions(cells_of(*skeleton), x as int, y as int),
    {
        let mut transitions: u32 = 0;
        let mut k: usize = 0;
        while k < 8
            invariant
                skeleton.wf(),
                1 <= x < skeleton.width - 1,
                1 <= y < skeleton.height - 1,
                k <= 8,
                transitions <= k,
                transitions == ring_transitions_upto(cells_of(*skeleton), x as int, y as int, k as int),
            decreases 8 - k,
        {
            let here = Self::ring_bit_at(skeleton, x, y, k);
            let next = Self::ring_bit_at(skeleton, x, y, if k == 7 { 0 } else { k + 1 });
            if here == 0 && next == 1 {
                transitions = transitions + 1;
            }
            k = k + 1;
        }
        transitions
    }

    /// Whether the set pixel `(x, y)` is deleted (see `deletable`).
    fn should_delete(skeleton: &BooleanMatrix, x: usize, y: usize) -> (r: bool)
        requires
            skeleton.wf(),
            skeleton.width <= i32::MAX,
            skeleton.height <= i32::MAX,
            1 <= x < skeleton.width - 1,
            1 <= y < skeleton.height - 1,
        ensures
            r == deletable(cells_of(*skeleton), skeleton.width as int, skeleton.height as int, x as int, y as int),
    {
        let neighbors = count_neighbors(skeleton, x, y) + if skeleton.get(x, y) { 1 } else { 0 };
        proof {
            lemma_cells_of(*skeleton, x as int, y as int);
        }
        if neighbors < 2 || neighbors > 6 {
            return false;
        }
        Self::transitions(skeleton, x, y) == 1
    }

    /// One thinning pass in place; returns whether a pixel was cleared.
    fn thinning_step(skeleton: &mut BooleanMatrix) -> (changed: bool)
        requires
            old(skeleton).wf(),
            old(skeleton).width <= i32::MAX,
            old(skeleton).height <= i32::MAX,
        ensures
            final(skeleton).wf(),
            final(skeleton).width == old(skeleton).width,
            final(skeleton).height == old(skeleton).height,
            holds(*final(skeleton), thinning_pass(cells_of(*old(skeleton)), old(skeleton).width as int, old(skeleton).height as int)),
            !changed ==> thinning_fixpoint(cells_of(*old(skeleton)), old(skeleton).width as int, old(skeleton).height as int),
    {
        let snapshot = BooleanMatrix::from_clone(skeleton);
        let w = skeleton.width();
        let h = skeleton.height();
        let ghost f = cells_of(*old(skeleton));
        let mut changed = false;
        let mut y: usize = 1;
        while y + 1 < h
            invariant
                f == cells_of(*old(skeleton)),
                skeleton.wf(),
                snapshot.wf(),
                snapshot.cells@ == old(skeleton).cells@,
                snapshot.width == w,
                snapshot.height == h,
                skeleton.width == w,
                skeleton.height == h,
                w == old(skeleton).width,
                h == old(skeleton).height,
                w <= i32::MAX,
                h <= i32::MAX,
                1 <= y <= h + 1,
                forall|a: int, b: int| #![trigger skeleton.at(a, b)] skeleton.in_bounds(a, b) ==>
                    skeleton.at(a, b) == if b < y { thinning_pass(f, w as int, h as int)(a, b) } else { old(skeleton).at(a, b) },
                !changed ==> forall|a: int, b: int| 0 <= a < w && 0 <= b < y ==> #[trigger] thinning_pass(f, w as int, h as int)(a, b) == f(a, b),
            decreases h - y,
        {
            let mut x: usize = 1;
            proof {
                assert forall|a: int, b: int| #![trigger skeleton.at(a, b)] skeleton.in_bounds(a, b) implies
                    skeleton.at(a, b) == if b < y || (b == y && a < 1) { thinning_pass(f, w as int, h as int)(a, b) } else { old(skeleton).at(a, b) } by {
                    lemma_cells_of(*old(skeleton), a, b);
                }
            }
            while x + 1 < w
                invariant
                    f == cells_of(*old(skeleton)),
                    skeleton.wf(),
                    snapshot.wf(),
                    snapshot.cells@ == old(skeleton).cells@,
                    snapshot.width == w,
                    snapshot.height == h,
                    skeleton.width == w,
                    skeleton.height == h,
                    w == old(skeleton).width,
                    h == old(skeleton).height,
                    w <= i32::MAX,
                    h <= i32::MAX,
                    1 <= y,
                    y + 1 < h,
                    1 <= x <= w + 1,
                    forall|a: int, b: int| #![trigger skeleton.at(a, b)] skeleton.in_bounds(a, b) ==>
                        skeleton.at(a, b) == if b < y || (b == y && a < x) {
                            thinning_pass(f, w as int, h as int)(a, b)
                        } else {
                            old(skeleton).at(a, b)
                        },
                    !changed ==> forall|a: int, b: int| 0 <= a < w && 0 <= b < h && (b < y || (b == y && a < x)) ==>
                        #[trigger] thinning_pass(f, w as int, h as int)(a, b) == f(a, b),
                decreases w - x,
            {
                proof {
                    assert(cells_of(snapshot) =~= f);
                    lemma_cells_of(*old(skeleton), x as int, y as int);
                }
                if snapshot.get(x, y) && Self::should_delete(&snapshot, x, y) {
                    skeleton.set(x, y, false);
                    changed = true;
                }
                x = x + 1;
            }
            proof {
                assert forall|a: int, b: int| #![trigger skeleton.at(a, b)] skeleton.in_bounds(a, b) implies
                    skeleton.at(a, b) == if b < y + 1 { thinning_pass(f, w as int, h as int)(a, b) } else { old(skeleton).at(a, b) } by {
                    lemma_cells_of(*old(skeleton), a, b);
                }
                if !changed {
                    assert forall|a: int, b: int| 0 <= a < w && 0 <= b < y + 1 implies
                        #[trigger] thinning_pass(f, w as int, h as int)(a, b) == f(a, b) by {
                        if b == y && a >= x {
                            lemma_cells_of(*old(skeleton), a, b);
                        }
                    }
                }
            }
            y = y + 1;
        }
        proof {
            assert forall|a: int, b: int| #![trigger skeleton.at(a, b)] skeleton.in_bounds(a, b) implies
                skeleton.at(a, b) == thinning_pass(f, w as int, h as int)(a, b) by {
                lemma_cells_of(*old(skeleton), a, b);
            }
            if !changed {
                assert forall|a: int, b: int| 0 <= a < w && 0 <= b < h implies
                    #[trigger] thinning_pass(f, w as int, h as int)(a, b) == f(a, b) by {
                    if b >= y {
                        lemma_cells_of(*old(skeleton), a, b);
                    }
                }
            }
        }
        changed
    }

    /// Thins `skeleton` in place by up to `THINNING_ITERATIONS` passes,
    /// stopping after a pass that clears nothing, and returns a copy.
    fn thinning(skeleton: &mut BooleanMatrix) -> (result: BooleanMatrix)
        requires
            old(skeleton).wf(),
            old(skeleton).width <= i32::MAX,
            old(skeleton).height <= i32::MAX,
        ensures
            final(skeleton).wf(),
            result.wf(),
            result.cells@ == final(skeleton).cells@,
            result.width == final(skeleton).width,
            result.height == final(skeleton).height,
            thinned_from(*old(skeleton), *final(skeleton)),
    {
        let w = skeleton.width();
        let h = skeleton.height();
        let ghost f = cells_of(*old(skeleton));
        let mut changed = true;
        let mut i: usize = 0;
        while i < Parameters::THINNING_ITERATIONS && changed
            invariant
                f == cells_of(*old(skeleton)),
                skeleton.wf(),
                skeleton.width == w,
                skeleton.height == h,
                w == old(skeleton).width,
                h == old(skeleton).height,
                w <= i32::MAX,
                h <= i32::MAX,
                i <= Parameters::THINNING_ITERATIONS,
                holds(*skeleton, thinning_rounds(f, w as int, h as int, i as nat)),
                !changed ==> i > 0 && thinning_fixpoint(thinning_rounds(f, w as int, h as int, (i - 1) as nat), w as int, h as int),
            decreases Parameters::THINNING_ITERATIONS - i,
        {
            let ghost before = *skeleton;
            changed = Self::thinning_step(skeleton);
            proof {
                let prev = thinning_rounds(f, w as int, h as int, i as nat);
                assert forall|a: int, b: int| 0 <= a < w && 0 <= b < h implies #[trigger] cells_of(before)(a, b) == prev(a, b) by {
                    lemma_cells_of(before, a, b);
                    assert(before.at(a, b) == prev(a, b));
                }
                lemma_pass_agree(cells_of(before), prev, w as int, h as int);
                assert(thinning_rounds(f, w as int, h as int, (i + 1) as nat) == thinning_pass(prev, w as int, h as int));
                assert forall|a: int, b: int| #![trigger skeleton.at(a, b)] skeleton.in_bounds(a, b) implies
                    skeleton.at(a, b) == thinning_rounds(f, w as int, h as int, (i + 1) as nat)(a, b) by {
                    assert(skeleton.at(a, b) == thinning_pass(cells_of(before), w as int, h as int)(a, b));
                }
                if !changed {
                    assert forall|a: int, b: int| 0 <= a < w && 0 <= b < h implies
                        #[trigger] thinning_pass(prev, w as int, h as int)(a, b) == prev(a, b) by {
                        assert(thinning_pass(cells_of(before), w as int, h as int)(a, b) == cells_of(before)(a, b));
                    }
                }
            }
            i = i + 1;
        }
        proof {
            if changed {
                assert(i == Parameters::THINNING_ITERATIONS);
                assert(holds(*skeleton, thinning_rounds(f, w as int, h as int, i as nat)));
            } else {
                let k = (i - 1) as nat;
                let prev = thinning_rounds(f, w as int, h as int, k);
                assert(thinning_rounds(f, w as int, h as int, i as nat) == thinning_pass(prev, w as int, h as int));
                assert forall|a: int, b: int| #![trigger skeleton.at(a, b)] skeleton.in_bounds(a, b) implies skeleton.at(a, b) == prev(a, b) by {
                    assert(thinning_pass(prev, w as int, h as int)(a, b) == prev(a, b));
                }
                assert(holds(*skeleton, thinning_rounds(f, w as int, h as int, k)));
            }
        }
        let result = BooleanMatrix::from_clone(skeleton);
        result
    }

    /// Traces the skeleton of `binary`.
    pub fn new(binary: &BooleanMatrix) -> (r: SkeletonTracing)
        requires
            binary.wf(),
            binary.width <= i32::MAX,
            binary.height <= i32::MAX,
        ensures
            thinned_from(*binary, r.skeleton_view()),
            r.skeleton_view().wf(),
            r.traced_view().cells@ == r.skeleton_view().cells@,
            !r.has_result(),
    {
        let mut traced = BooleanMatrix::from_clone(binary);
        let ghost copy = traced;
        let skeleton = Self::thinning(&mut traced);
        proof {
            assert(cells_of(copy) =~= cells_of(*binary));
            let w = binary.width as int;
            let h = binary.height as int;
            let k = choose|k: nat| k <= Parameters::THINNING_ITERATIONS && {
                &&& holds(traced, #[trigger] thinning_rounds(cells_of(copy), w, h, k))
                &&& (k < Parameters::THINNING_ITERATIONS ==> thinning_fixpoint(thinning_rounds(cells_of(copy), w, h, k), w, h))
            };
            assert forall|x: int, y: int| #![trigger skeleton.at(x, y)] skeleton.in_bounds(x, y) implies
                skeleton.at(x, y) == thinning_rounds(cells_of(*binary), w, h, k)(x, y) by {
                assert(traced.at(x, y) == skeleton.at(x, y));
            }
            assert(holds(skeleton, thinning_rounds(cells_of(*binary), w, h, k)));
        }
        SkeletonTracing { skeleton, traced, skeleton_result: None }
    }

    /// The ends and the junctions of the skeleton's interior, each in
    /// row-major order.
    fn find_ends(skeleton: &BooleanMatrix) -> (r: (Vec<IntPoint>, Vec<IntPoint>))
        requires
            skeleton.wf(),
            1 <= skeleton.width <= i32::MAX,
            1 <= skeleton.height <= i32::MAX,
        ensures
            row_major_sorted(r.0@),
            row_major_sorted(r.1@),
            forall|p: IntPoint| #[trigger] r.0@.contains(p) <==> ridge_end(*skeleton, p),
            forall|p: IntPoint| #[trigger] r.1@.contains(p) <==> ridge_junction(*skeleton, p),
    {
        let m = skeleton;
        let mut ends: Vec<IntPoint> = Vec::new();
        let mut junctions: Vec<IntPoint> = Vec::new();
        let mut y: usize = 1;
        while y < m.height - 1
            invariant
                m.wf(),
                1 <= m.width <= i32::MAX,
                1 <= m.height <= i32::MAX,
                1 <= y <= m.height - 1 || (y == 1 && m.height < 2),
                row_major_sorted(ends@),
                row_major_sorted(junctions@),
                forall|i: int| 0 <= i < ends@.len() ==> (#[trigger] ends@[i]).y < y,
                forall|i: int| 0 <= i < junctions@.len() ==> (#[trigger] junctions@[i]).y < y,
                forall|p: IntPoint| #[trigger] ends@.contains(p) <==> (ridge_end(*m, p) && p.y < y),
                forall|p: IntPoint| #[trigger] junctions@.contains(p) <==> (ridge_junction(*m, p) && p.y < y),
            decreases m.height - y,
        {
            let mut x: usize = 1;
            while x < m.width - 1
                invariant
                    m.wf(),
                    1 <= m.width <= i32::MAX,
                    1 <= m.height <= i32::MAX,
                    1 <= y < m.height - 1,
                    1 <= x <= m.width - 1 || (x == 1 && m.width < 2),
                    row_major_sorted(ends@),
                    row_major_sorted(junctions@),
                    forall|i: int| 0 <= i < ends@.len() ==> scanned_before(#[trigger] ends@[i], x as int, y as int),
                    forall|i: int| 0 <= i < junctions@.len() ==> scanned_before(#[trigger] junctions@[i], x as int, y as int),
                    forall|p: IntPoint| #[trigger] ends@.contains(p) <==> (ridge_end(*m, p) && scanned_before(p, x as int, y as int)),
                    forall|p: IntPoint| #[trigger] junctions@.contains(p) <==> (ridge_junction(*m, p) && scanned_before(p, x as int, y as int)),
                decreases m.width - x,
            {
                let ghost p = IntPoint { x: x as i32, y: y as i32 };
                let ghost ends0 = ends@;
                let ghost junctions0 = junctions@;
                assert(interior(*m, p));
                if m.get(x, y) {
                    let count = count_neighbors(m, x, y);
                    assert(count == set_neighbors(*m, p));
                    if count == 1 {
                        ends.push(IntPoint::new(x as i32, y as i32));
                    } else if count >= 3 {
                        junctions.push(IntPoint::new(x as i32, y as i32));
                    }
                }
                proof {
                    assert(ends@ == if ridge_end(*m, p) { ends0.push(p) } else { ends0 });
                    assert(junctions@ == if ridge_junction(*m, p) { junctions0.push(p) } else { junctions0 });
                    assert forall|q: IntPoint| #[trigger] ends@.contains(q) <==> (ridge_end(*m, q) && scanned_before(q, x + 1, y as int)) by {
                        if q == p {
                            if ridge_end(*m, p) {
                                assert(ends@[ends0.len() as int] == p);
                            } else {
                                assert(!ends0.contains(p));
                            }
                        } else {
                            assert(scanned_before(q, x + 1, y as int) == scanned_before(q, x as int, y as int));
                            if ridge_end(*m, p) {
                                if ends@.contains(q) {
                                    let k = choose|k: int| 0 <= k < ends@.len() && ends@[k] == q;
                                    assert(k < ends0.len());
                                    assert(ends0[k] == q);
                                    assert(ends0.contains(q));
                                }
                                if ends0.contains(q) {
                                    let k = choose|k: int| 0 <= k < ends0.len() && ends0[k] == q;
                                    assert(ends@[k] == q);
                                }
                            }
                        }
                    }
                    assert forall|q: IntPoint| #[trigger] junctions@.contains(q) <==> (ridge_junction(*m, q) && scanned_before(q, x + 1, y as int)) by {
                        if q == p {
                            if ridge_junction(*m, p) {
                                assert(junctions@[junctions0.len() as int] == p);
                            } else {
                                assert(!junctions0.contains(p));
                            }
                        } else {
                            assert(scanned_before(q, x + 1, y as int) == scanned_before(q, x as int, y as int));
                            if ridge_junction(*m, p) {
                                if junctions@.contains(q) {
                                    let k = choose|k: int| 0 <= k < junctions@.len() && junctions@[k] == q;
                                    assert(k < junctions0.len());
                                    assert(junctions0[k] == q);
                                    assert(junctions0.contains(q));
                                }
                                if junctions0.contains(q) {
                                    let k = choose|k: int| 0 <= k < junctions0.len() && junctions0[k] == q;
                                    assert(junctions@[k] == q);
                                }
                            }
                        }
                    }
                }
                x = x + 1;
            }
            proof {
                assert forall|q: IntPoint| #[trigger] ends@.contains(q) <==> (ridge_end(*m, q) && q.y < y + 1) by {
                    if ridge_end(*m, q) && q.y == y {
                        assert(scanned_before(q, x as int, y as int));
                    }
                }
                assert forall|q: IntPoint| #[trigger] junctions@.contains(q) <==> (ridge_junction(*m, q) && q.y < y + 1) by {
                    if ridge_junction(*m, q) && q.y == y {
                        assert(scanned_before(q, x as int, y as int));
                    }
                }
            }
            y = y + 1;
        }
        proof {
            assert forall|q: IntPoint| #[trigger] ends@.contains(q) <==> ridge_end(*m, q) by {}
            assert forall|q: IntPoint| #[trigger] junctions@.contains(q) <==> ridge_junction(*m, q) by {}
        }
        (ends, junctions)
    }

    /// Walks the skeleton from `start`, taking at each step the first open
    /// neighbour in the order of the neighbour offsets and marking it
    /// visited, until none is left; a walk of two points or more is added
    /// to `ridges`. Returns `false`.
    fn trace_ridge(visited: &mut BooleanMatrix, skeleton: &BooleanMatrix, start: &IntPoint, ridges: &mut Vec<Vec<IntPoint>>) -> (r: bool)
        requires
            skeleton.wf(),
            old(visited).wf(),
            old(visited).width == skeleton.width,
            old(visited).height == skeleton.height,
            skeleton.width <= i32::MAX,
            skeleton.height <= i32::MAX,
        ensures
            !r,
            final(visited).wf(),
            final(visited).width == skeleton.width,
            final(visited).height == skeleton.height,
            exists|path: Seq<IntPoint>| {
                &&& skeleton_walk(*skeleton, *old(visited), *final(visited), *start, path)
                &&& if path.len() >= 2 {
                    &&& final(ridges)@.len() == old(ridges)@.len() + 1
                    &&& final(ridges)@.drop_last() == old(ridges)@
                    &&& final(ridges)@.last()@ == path
                } else {
                    final(ridges)@ == old(ridges)@
                }
            },
    {
        let offsets = IntPoint::corner_neighbors();
        let ghost before = *visited;
        let mut path: Vec<IntPoint> = Vec::new();
        path.push(*start);
        let mut current = *start;
        let n = visited.cells.len();
        proof {
            lemma_set_count_bound(visited.cells@);
        }
        loop
            invariant
                skeleton.wf(),
                visited.wf(),
                visited.width == skeleton.width,
                visited.height == skeleton.height,
                skeleton.width <= i32::MAX,
                skeleton.height <= i32::MAX,
                before.wf(),
                before.width == skeleton.width,
                before.height == skeleton.height,
                offsets@ == corner_offsets(),
                n == visited.cells@.len(),
                set_count(visited.cells@) <= n,
                path@.len() >= 1,
                path@[0] == *start,
                current == path@.last(),
                forall|i: int| #![trigger path@[i]] 1 <= i < path@.len() ==> {
                    &&& exists|k: int| 0 <= k < 8 && #[trigger] offset_point(path@[i - 1], k) == (path@[i].x as int, path@[i].y as int)
                    &&& open_pixel(*skeleton, before, (path@[i].x as int, path@[i].y as int))
                    &&& visited.at(path@[i].x as int, path@[i].y as int)
                },
                forall|x: int, y: int| #![trigger visited.at(x, y)] visited.in_bounds(x, y) && visited.at(x, y) != before.at(x, y)
                    ==> exists|i: int| 1 <= i < path@.len() && path@[i] == (IntPoint { x: x as i32, y: y as i32 }),
            ensures
                visited.wf(),
                visited.width == skeleton.width,
                visited.height == skeleton.height,
                skeleton_walk(*skeleton, before, *visited, *start, path@),
            decreases n - set_count(visited.cells@),
        {
            let mut next: Option<IntPoint> = None;
            let mut k: usize = 0;
            while k < 8 && next.is_none()
                invariant
                    skeleton.wf(),
                    visited.wf(),
                    visited.width == skeleton.width,
                    visited.height == skeleton.height,
                    skeleton.width <= i32::MAX,
                    skeleton.height <= i32::MAX,
                    offsets@ == corner_offsets(),
                    k <= 8,
                    next is None ==> forall|j: int| 0 <= j < k ==> !open_pixel(*skeleton, *visited, #[trigger] offset_point(current, j)),
                    next matches Some(q) ==> {
                        &&& open_pixel(*skeleton, *visited, (q.x as int, q.y as int))
                        &&& exists|j: int| 0 <= j < k && #[trigger] offset_point(current, j) == (q.x as int, q.y as int)
                    },
                decreases 8 - k,
            {
                next = open_step(skeleton, visited, current, &offsets, k);
                proof {
                    if let Some(q) = next {
                        assert(offset_point(current, k as int) == (q.x as int, q.y as int));
                    }
                }
                k = k + 1;
            }
            match next {
                Some(pt) => {
                    let ghost old_visited = *visited;
                    let ghost old_path = path@;
                    proof {
                        lemma_cell_index_bounds(pt.x as int, pt.y as int, visited.width as int, visited.height as int);
                        lemma_set_count_mark(visited.cells@, cell_index(pt.x as int, pt.y as int, visited.width as int));
                        lemma_set_count_bound(visited.cells@.update(cell_index(pt.x as int, pt.y as int, visited.width as int), true));
                    }
                    visited.set(pt.x as usize, pt.y as usize, true);
                    path.push(pt);
                    proof {
                        assert(path@[path@.len() - 1] == pt);
                        assert(!before.at(pt.x as int, pt.y as int)) by {
                            if before.at(pt.x as int, pt.y as int) {
                                let i = choose|i: int| 1 <= i < old_path.len() && old_path[i] == (IntPoint { x: pt.x as i32, y: pt.y as i32 });
                                assert(old_path[i] == pt);
                                assert(old_visited.at(old_path[i].x as int, old_path[i].y as int));
                            }
                        }
                        assert forall|i: int| #![trigger path@[i]] 1 <= i < path@.len() implies {
                            &&& exists|k: int| 0 <= k < 8 && #[trigger] offset_point(path@[i - 1], k) == (path@[i].x as int, path@[i].y as int)
                            &&& open_pixel(*skeleton, before, (path@[i].x as int, path@[i].y as int))
                            &&& visited.at(path@[i].x as int, path@[i].y as int)
                        } by {
                            if i < old_path.len() {
                                assert(path@[i] == old_path[i]);
                                assert(path@[i - 1] == old_path[i - 1]);
                                let q = old_path[i];
                                if q.x == pt.x && q.y == pt.y {
                                } else {
                                    assert(visited.at(q.x as int, q.y as int) == old_visited.at(q.x as int, q.y as int));
                                }
                            } else {
                                assert(path@[i - 1] == current);
                            }
                        }
                        assert forall|x: int, y: int| #![trigger visited.at(x, y)] visited.in_bounds(x, y) && visited.at(x, y) != before.at(x, y)
                            implies exists|i: int| 1 <= i < path@.len() && path@[i] == (IntPoint { x: x as i32, y: y as i32 }) by {
                            if x == pt.x && y == pt.y {
                                assert(path@[old_path.len() as int] == (IntPoint { x: x as i32, y: y as i32 }));
                            } else {
                                assert(old_visited.at(x, y) != before.at(x, y));
                                let i = choose|i: int| 1 <= i < old_path.len() && old_path[i] == (IntPoint { x: x as i32, y: y as i32 });
                                assert(path@[i] == old_path[i]);
                            }
                        }
                    }
                    current = pt;
                }
                None => {
                    break;
                }
            }
        }
        let ghost walked = path@;
        if path.len() >= 2 {
            ridges.push(path);
            proof {
                assert(ridges@.drop_last() =~= old(ridges)@);
            }
        }
        false
    }

    /// Finds the ends and junctions of the skeleton's interior and walks the
    /// skeleton from each end (see `trace_ridge`) over a copy of the skeleton
    /// taken as already visited; the walks found are not kept. The result
    /// is an empty ridge skeleton of the image's size.
    pub fn trace(&mut self) -> (r: &Skeleton)
        requires
            old(self).skeleton_view().wf(),
            1 <= old(self).skeleton_view().width <= i32::MAX,
            1 <= old(self).skeleton_view().height <= i32::MAX,
        ensures
            r.type_ == SkeletonType::Ridges,
            r.size.x == old(self).skeleton_view().width,
            r.size.y == old(self).skeleton_view().height,
            r.minutiae@.len() == 0,
    {
        let (ends, _junctions) = Self::find_ends(&self.skeleton);
        let mut ridges: Vec<Vec<IntPoint>> = Vec::new();
        let mut visited = BooleanMatrix::from_clone(&self.skeleton);
        let mut i: usize = 0;
        while i < ends.len()
            invariant
                self.skeleton.wf(),
                1 <= self.skeleton.width <= i32::MAX,
                1 <= self.skeleton.height <= i32::MAX,
                visited.wf(),
                visited.width == self.skeleton.width,
                visited.height == self.skeleton.height,
                i <= ends@.len(),
            decreases ends@.len() - i,
        {
            Self::trace_ridge(&mut visited, &self.skeleton, &ends[i], &mut ridges);
            i = i + 1;
        }
        let size = IntPoint::new(self.skeleton.width() as i32, self.skeleton.height() as i32);
        self.skeleton_result = Some(Skeleton::new(SkeletonType::Ridges, &size));
        self.skeleton_result.as_ref().unwrap()
    }

    /// The thinned skeleton.
    pub fn skeleton(&self) -> (r: &BooleanMatrix)
        ensures
            *r == self.skeleton_view(),
    {
        &self.skeleton
    }
}

} // verus!
