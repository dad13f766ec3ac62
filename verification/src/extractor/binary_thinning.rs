use vstd::prelude::*;
use crate::parameters::Parameters;
use crate::primitives::bool_matrix::BooleanMatrix;
use crate::primitives::grid::{cell_index, lemma_cell_index_bounds};
use crate::primitives::int_point::{corner_offsets, IntPoint};
use crate::primitives::integers::{popcount, Integers};

verus! {

/// How a set pixel relates to its eight neighbours during thinning.
#[derive(Clone, Copy, Debug, PartialEq, Eq, Structural)]
pub enum NeighborhoodType {
    Skeleton,
    Ending,
    Removable,
}

/// Classification of a neighbourhood given as an 8-bit mask with bits
/// top-left = 1, top = 2, top-right = 4, left = 8, right = 16,
/// bottom-left = 32, bottom = 64, bottom-right = 128.
///
/// A single neighbour makes an ending; a pixel that is not needed to keep a
/// diagonal, horizontal or vertical connection is removable; the rest is
/// skeleton.
pub open spec fn neighborhood_class(mask: int) -> NeighborhoodType {
    let tl = mask % 2 == 1;
    let tc = (mask / 2) % 2 == 1;
    let tr = (mask / 4) % 2 == 1;
    let cl = (mask / 8) % 2 == 1;
    let cr = (mask / 16) % 2 == 1;
    let bl = (mask / 32) % 2 == 1;
    let bc = (mask / 64) % 2 == 1;
    let br = (mask / 128) % 2 == 1;
    let diagonal = !tc && !cl && tl || !cl && !bc && bl || !bc && !cr && br || !cr && !tc && tr;
    let horizontal = !tc && !bc && (tr || cr || br) && (tl || cl || bl);
    let vertical = !cl && !cr && (tl || tc || tr) && (bl || bc || br);
    if popcount(mask as nat) == 1 {
        NeighborhoodType::Ending
    } else if !diagonal && !horizontal && !vertical {
        NeighborhoodType::Removable
    } else {
        NeighborhoodType::Skeleton
    }
}

/// The classification of all 256 neighbourhood masks.
pub fn neighborhood_types() -> (types: Vec<NeighborhoodType>)
    ensures
        types@.len() == 256,
        forall|mask: int| 0 <= mask < 256 ==> #[trigger] types@[mask] == neighborhood_class(mask),
{
    let mut types: Vec<NeighborhoodType> = Vec::new();
    let mut mask: u32 = 0;
    while mask < 256
        invariant
            mask <= 256,
            types@.len() == mask,
            forall|m: int| 0 <= m < mask ==> #[trigger] types@[m] == neighborhood_class(m),
        decreases 256 - mask,
    {
        let tl = mask % 2 == 1;
        let tc = (mask / 2) % 2 == 1;
        let tr = (mask / 4) % 2 == 1;
        let cl = (mask / 8) % 2 == 1;
        let cr = (mask / 16) % 2 == 1;
        let bl = (mask / 32) % 2 == 1;
        let bc = (mask / 64) % 2 == 1;
        let br = (mask / 128) % 2 == 1;
        let count = Integers::population_count(mask);
        let diagonal = !tc && !cl && tl || !cl && !bc && bl || !bc && !cr && br || !cr && !tc && tr;
        let horizontal = !tc && !bc && (tr || cr || br) && (tl || cl || bl);
        let vertical = !cl && !cr && (tl || tc || tr) && (bl || bc || br);
        let t = if count == 1 {
            NeighborhoodType::Ending
        } else if !diagonal && !horizontal && !vertical {
            NeighborhoodType::Removable
        } else {
            NeighborhoodType::Skeleton
        };
        types.push(t);
        mask = mask + 1;
    }
    types
}

/// Whether the pixel at offset `k` of the eight around `p` is set (false outside the matrix).
pub open spec fn corner_set(m: BooleanMatrix, p: IntPoint, k: int) -> bool {
    let q = corner_offsets()[k];
    let x = p.x + q.x;
    let y = p.y + q.y;
    m.in_bounds(x, y) && m.at(x, y)
}

/// Index of the first set pixel among the eight around `p`, from `k` on; 8 when none is set.
pub open spec fn first_set_corner(m: BooleanMatrix, p: IntPoint, k: int) -> int
    decreases 8 - k,
{
    if k >= 8 {
        8
    } else if corner_set(m, p, k) {
        k
    } else {
        first_set_corner(m, p, k + 1)
    }
}

/// Number of set pixels among the first `k` of the eight around `p`.
pub open spec fn count_set_corners(m: BooleanMatrix, p: IntPoint, k: int) -> int
    decreases k,
{
    if k <= 0 {
        0
    } else {
        count_set_corners(m, p, k - 1) + if corner_set(m, p, k - 1) { 1int } else { 0int }
    }
}

/// An ending is false when its first neighbour (in the order of
/// `corner_offsets`) has more than two set neighbours of its own.
pub open spec fn false_ending(m: BooleanMatrix, p: IntPoint) -> bool {
    let k = first_set_corner(m, p, 0);
    &&& k < 8
    &&& count_set_corners(
        m,
        IntPoint { x: (p.x + corner_offsets()[k].x) as i32, y: (p.y + corner_offsets()[k].y) as i32 },
        8,
    ) > 2
}

/// Cell `(x, y)` of a row-major grid of cells `w` wide.
pub open spec fn cell(c: Seq<bool>, w: int, x: int, y: int) -> bool {
    c[cell_index(x, y, w)]
}

/// Cell `(x, y)` of a `w × h` grid, false outside it.
pub open spec fn cell_or_clear(c: Seq<bool>, w: int, h: int, x: int, y: int) -> bool {
    0 <= x < w && 0 <= y < h && cell(c, w, x, y)
}

/// `corner_set` on a grid given by its cells.
pub open spec fn grid_corner_set(c: Seq<bool>, w: int, h: int, p: IntPoint, k: int) -> bool {
    let q = corner_offsets()[k];
    cell_or_clear(c, w, h, p.x + q.x, p.y + q.y)
}

/// `first_set_corner` on a grid given by its cells.
pub open spec fn grid_first_set_corner(c: Seq<bool>, w: int, h: int, p: IntPoint, k: int) -> int
    decreases 8 - k,
{
    if k >= 8 {
        8
    } else if grid_corner_set(c, w, h, p, k) {
        k
    } else {
        grid_first_set_corner(c, w, h, p, k + 1)
    }
}

/// `count_set_corners` on a grid given by its cells.
pub open spec fn grid_count_set_corners(c: Seq<bool>, w: int, h: int, p: IntPoint, k: int) -> int
    decreases k,
{
    if k <= 0 {
        0
    } else {
        grid_count_set_corners(c, w, h, p, k - 1) + if grid_corner_set(c, w, h, p, k - 1) { 1int } else { 0int }
    }
}

/// `false_ending` on a grid given by its cells.
pub open spec fn grid_false_ending(c: Seq<bool>, w: int, h: int, p: IntPoint) -> bool {
    let k = grid_first_set_corner(c, w, h, p, 0);
    &&& k < 8
    &&& grid_count_set_corners(
        c,
        w,
        h,
        IntPoint { x: (p.x + corner_offsets()[k].x) as i32, y: (p.y + corner_offsets()[k].y) as i32 },
        8,
    ) > 2
}

proof fn lemma_grid_first_set_corner(m: BooleanMatrix, p: IntPoint, k: int)
    ensures
        first_set_corner(m, p, k) == grid_first_set_corner(m.cells@, m.width as int, m.height as int, p, k),
    decreases 8 - k,
{
    if k < 8 {
        lemma_grid_first_set_corner(m, p, k + 1);
    }
}

proof fn lemma_grid_count_set_corners(m: BooleanMatrix, p: IntPoint, k: int)
    ensures
        count_set_corners(m, p, k) == grid_count_set_corners(m.cells@, m.width as int, m.height as int, p, k),
    decreases k,
{
    if k > 0 {
        lemma_grid_count_set_corners(m, p, k - 1);
    }
}

/// `false_ending` reads nothing of a matrix but its size and cells.
proof fn lemma_grid_false_ending(m: BooleanMatrix, p: IntPoint)
    ensures
        false_ending(m, p) == grid_false_ending(m.cells@, m.width as int, m.height as int, p),
{
    lemma_grid_first_set_corner(m, p, 0);
    let k = first_set_corner(m, p, 0);
    let q = IntPoint { x: (p.x + corner_offsets()[k].x) as i32, y: (p.y + corner_offsets()[k].y) as i32 };
    lemma_grid_count_set_corners(m, q, 8);
}

/// The 8-bit neighbourhood mask of cell `(x, y)` (see `neighborhood_class`).
pub open spec fn grid_mask(c: Seq<bool>, w: int, x: int, y: int) -> int {
    (if cell(c, w, x + 1, y + 1) { 128int } else { 0int })
        + (if cell(c, w, x, y + 1) { 64int } else { 0int })
        + (if cell(c, w, x - 1, y + 1) { 32int } else { 0int })
        + (if cell(c, w, x + 1, y) { 16int } else { 0int })
        + (if cell(c, w, x - 1, y) { 8int } else { 0int })
        + (if cell(c, w, x + 1, y - 1) { 4int } else { 0int })
        + (if cell(c, w, x, y - 1) { 2int } else { 0int })
        + (if cell(c, w, x - 1, y - 1) { 1int } else { 0int })
}

/// Whether the ending at `ending` is attached to a junction rather than
/// being the end of a line.
pub fn is_false_ending(binary: &BooleanMatrix, ending: &IntPoint) -> (r: bool)
    requires
        binary.wf(),
        i32::MIN + 2 <= ending.x <= i32::MAX - 2,
        i32::MIN + 2 <= ending.y <= i32::MAX - 2,
    ensures
        r == false_ending(*binary, *ending),
{
    let corners = IntPoint::corner_neighbors();
    let mut k: usize = 0;
    while k < 8
        invariant
            corners@ == corner_offsets(),
            binary.wf(),
            i32::MIN + 2 <= ending.x <= i32::MAX - 2,
            i32::MIN + 2 <= ending.y <= i32::MAX - 2,
            0 <= k <= 8,
            first_set_corner(*binary, *ending, 0) == first_set_corner(*binary, *ending, k as int),
        decreases 8 - k,
    {
        let neighbor = ending.plus(&corners[k]);
        if binary.get_with_fallback(neighbor.x(), neighbor.y(), false) {
            let mut count: i32 = 0;
            let mut j: usize = 0;
            while j < 8
                invariant
                    corners@ == corner_offsets(),
                    binary.wf(),
                    i32::MIN + 1 <= neighbor.x <= i32::MAX - 1,
                    i32::MIN + 1 <= neighbor.y <= i32::MAX - 1,
                    0 <= j <= 8,
                    count == count_set_corners(*binary, neighbor, j as int),
                    0 <= count <= j,
                decreases 8 - j,
            {
                let p = neighbor.plus(&corners[j]);
                if binary.get_with_fallback(p.x(), p.y(), false) {
                    count = count + 1;
                }
                j = j + 1;
            }
            return count > 2;
        }
        k = k + 1;
    }
    false
}

/// The 8-bit neighbourhood mask of the pixel `(x, y)` (see `neighborhood_class`).
fn neighborhood_mask(m: &BooleanMatrix, x: usize, y: usize) -> (mask: usize)
    requires
        m.wf(),
        1 <= x,
        x + 1 < m.width,
        1 <= y,
        y + 1 < m.height,
    ensures
        mask < 256,
        mask == grid_mask(m.cells@, m.width as int, x as int, y as int),
{
    (if m.get(x + 1, y + 1) { 128 } else { 0 })
        + (if m.get(x, y + 1) { 64 } else { 0 })
        + (if m.get(x - 1, y + 1) { 32 } else { 0 })
        + (if m.get(x + 1, y) { 16 } else { 0 })
        + (if m.get(x - 1, y) { 8 } else { 0 })
        + (if m.get(x + 1, y - 1) { 4 } else { 0 })
        + (if m.get(x, y - 1) { 2 } else { 0 })
        + (if m.get(x - 1, y - 1) { 1 } else { 0 })
}

/// Whether `(x, y)` lies inside the one-pixel frame of the matrix.
pub open spec fn interior(m: BooleanMatrix, x: int, y: int) -> bool {
    1 <= x < m.width - 1 && 1 <= y < m.height - 1
}

/// One visit of thinning at pixel `(x, y)` of a `w × h` image in state
/// `(still set, kept for good, removed anything)`: a set pixel not yet kept
/// and not enclosed by its four edge neighbours is removed when its
/// neighbourhood is removable or a false ending, and kept for good otherwise.
pub open spec fn thin_visit(s: (Seq<bool>, Seq<bool>, bool), w: int, h: int, x: int, y: int) -> (Seq<bool>, Seq<bool>, bool) {
    let m = s.0;
    let t = s.1;
    let here = cell_index(x, y, w);
    if cell(m, w, x, y) && !cell(t, w, x, y)
        && !(cell(m, w, x, y - 1) && cell(m, w, x, y + 1) && cell(m, w, x - 1, y) && cell(m, w, x + 1, y)) {
        let c = neighborhood_class(grid_mask(m, w, x, y));
        if c == NeighborhoodType::Removable
            || (c == NeighborhoodType::Ending && grid_false_ending(m, w, h, IntPoint { x: x as i32, y: y as i32 })) {
            (m.update(here, false), t, true)
        } else {
            (m, t.update(here, true), s.2)
        }
    } else {
        s
    }
}

/// The visits of row `y` from column `x` on, every other column, inside
/// the frame.
pub open spec fn thin_row(s: (Seq<bool>, Seq<bool>, bool), w: int, h: int, y: int, x: int) -> (Seq<bool>, Seq<bool>, bool)
    decreases w - x,
{
    if x + 1 < w {
        thin_row(thin_visit(s, w, h, x, y), w, h, y, x + 2)
    } else {
        s
    }
}

/// The rows of a pass from row `y` on, every other row, each visited from
/// column `1 + ex`.
pub open spec fn thin_pass(s: (Seq<bool>, Seq<bool>, bool), w: int, h: int, y: int, ex: int) -> (Seq<bool>, Seq<bool>, bool)
    decreases h - y,
{
    if y + 1 < h {
        thin_pass(thin_row(s, w, h, y, 1 + ex), w, h, y + 2, ex)
    } else {
        s
    }
}

/// The first `p` of the four passes of a round: even rows and even
/// columns, even rows and odd columns, then the same on odd rows.
pub open spec fn thin_passes(s: (Seq<bool>, Seq<bool>, bool), w: int, h: int, p: nat) -> (Seq<bool>, Seq<bool>, bool)
    decreases p,
{
    if p == 0 {
        s
    } else {
        let q = (p - 1) as nat;
        thin_pass(thin_passes(s, w, h, q), w, h, 1 + (q / 2) as int, (q % 2) as int)
    }
}

/// Rounds from round `i` on, as long as fewer than `THINNING_ITERATIONS`
/// have run and the last one removed something.
pub open spec fn thin_rounds(s: (Seq<bool>, Seq<bool>, bool), w: int, h: int, i: nat) -> (Seq<bool>, Seq<bool>, bool)
    decreases Parameters::THINNING_ITERATIONS - i,
{
    if i < Parameters::THINNING_ITERATIONS && s.2 {
        thin_rounds(thin_passes((s.0, s.1, false), w, h, 4), w, h, i + 1)
    } else {
        s
    }
}

/// One visit of thinning at interior pixel `(x, y)` (see `thin_visit`).
fn thin_step(
    mutable: &mut BooleanMatrix,
    thinned: &mut BooleanMatrix,
    removed: &mut bool,
    types: &Vec<NeighborhoodType>,
    x: usize,
    y: usize,
    Ghost(input): Ghost<BooleanMatrix>,
)
    requires
        old(mutable).wf(),
        old(thinned).wf(),
        input.wf(),
        old(mutable).width == input.width,
        old(mutable).height == input.height,
        old(thinned).width == input.width,
        old(thinned).height == input.height,
        input.width <= i32::MAX,
        input.height <= i32::MAX,
        types@.len() == 256,
        forall|mask: int| 0 <= mask < 256 ==> #[trigger] types@[mask] == neighborhood_class(mask),
        1 <= x,
        x + 1 < input.width,
        1 <= y,
        y + 1 < input.height,
        forall|a: int, b: int| #![trigger old(mutable).at(a, b)] old(mutable).in_bounds(a, b) && old(mutable).at(a, b) ==> interior(input, a, b) && input.at(a, b),
        forall|a: int, b: int| #![trigger old(thinned).at(a, b)] old(thinned).in_bounds(a, b) && old(thinned).at(a, b) ==> old(mutable).at(a, b),
    ensures
        final(mutable).wf(),
        final(thinned).wf(),
        final(mutable).width == input.width,
        final(mutable).height == input.height,
        final(thinned).width == input.width,
        final(thinned).height == input.height,
        (final(mutable).cells@, final(thinned).cells@, *final(removed))
            == thin_visit((old(mutable).cells@, old(thinned).cells@, *old(removed)), input.width as int, input.height as int, x as int, y as int),
        forall|a: int, b: int| #![trigger final(mutable).at(a, b)] final(mutable).in_bounds(a, b) && final(mutable).at(a, b) ==> interior(input, a, b) && input.at(a, b),
        forall|a: int, b: int| #![trigger final(thinned).at(a, b)] final(thinned).in_bounds(a, b) && final(thinned).at(a, b) ==> final(mutable).at(a, b),
{
    let ghost w = input.width as int;
    let ghost h = input.height as int;
    if mutable.get(x, y) && !thinned.get(x, y) && !(mutable.get(x, y - 1) && mutable.get(x, y + 1)
        && mutable.get(x - 1, y) && mutable.get(x + 1, y)) {
        let neighbors = neighborhood_mask(mutable, x, y);
        let t = types[neighbors];
        let remove = match t {
            NeighborhoodType::Removable => true,
            NeighborhoodType::Ending => is_false_ending(mutable, &IntPoint::new(x as i32, y as i32)),
            NeighborhoodType::Skeleton => false,
        };
        proof {
            lemma_grid_false_ending(*mutable, IntPoint { x: x as i32, y: y as i32 });
        }
        if remove {
            *removed = true;
            mutable.set(x, y, false);
        } else {
            thinned.set(x, y, true);
        }
    }
}

/// Thins the set regions of `input` to lines one pixel wide.
///
/// Works on the image without its one-pixel frame, in at most
/// `THINNING_ITERATIONS` rounds of four interleaved passes over the pixels
/// of even and odd rows and columns; a pixel is removed when its
/// neighbourhood is removable or a false ending, and kept for good
/// otherwise (see `thin_rounds`). The result only holds pixels of the
/// input's interior.
pub fn thin(input: &BooleanMatrix) -> (thinned: BooleanMatrix)
    requires
        input.wf(),
        input.width <= i32::MAX,
        input.height <= i32::MAX,
    ensures
        thinned.wf(),
        thinned.width == input.width,
        thinned.height == input.height,
        exists|start: Seq<bool>, none: Seq<bool>| {
            &&& start.len() == input.cells@.len()
            &&& none.len() == input.cells@.len()
            &&& forall|x: int, y: int| #![trigger cell(start, input.width as int, x, y)] input.in_bounds(x, y)
                ==> cell(start, input.width as int, x, y) == (interior(*input, x, y) && input.at(x, y))
            &&& forall|x: int, y: int| #![trigger cell(none, input.width as int, x, y)] input.in_bounds(x, y)
                ==> !cell(none, input.width as int, x, y)
            &&& thinned.cells@ == thin_rounds((start, none, true), input.width as int, input.height as int, 0).1
        },
        forall|x: int, y: int| #![trigger thinned.at(x, y)] thinned.in_bounds(x, y) && thinned.at(x, y) ==> interior(*input, x, y) && input.at(x, y),
{
    let types = neighborhood_types();
    let w = input.width();
    let h = input.height();
    let n = input.cells.len();
    assert(n == w * h);
    let ghost wi = w as int;
    let ghost hi = h as int;
    let mut mutable = BooleanMatrix::new(w, h);
    let mut y: usize = 1;
    while y + 1 < h
        invariant
            input.wf(),
            w == input.width,
            h == input.height,
            w * h <= usize::MAX,
            1 <= y,
            y + 1 <= h || y == 1,
            mutable.wf(),
            mutable.width == w,
            mutable.height == h,
            forall|a: int, b: int| #![trigger mutable.at(a, b)] mutable.in_bounds(a, b)
                ==> mutable.at(a, b) == (interior(*input, a, b) && input.at(a, b) && b < y),
        decreases h - y,
    {
        let mut x: usize = 1;
        while x + 1 < w
            invariant
                input.wf(),
                w == input.width,
                h == input.height,
                1 <= y,
                y + 1 < h,
                1 <= x,
                x + 1 <= w || x == 1,
                mutable.wf(),
                mutable.width == w,
                mutable.height == h,
                forall|a: int, b: int| #![trigger mutable.at(a, b)] mutable.in_bounds(a, b)
                    ==> mutable.at(a, b) == (interior(*input, a, b) && input.at(a, b) && (b < y || (b == y && a < x))),
            decreases w - x,
        {
            let v = input.get(x, y);
            mutable.set(x, y, v);
            x = x + 1;
        }
        y = y + 1;
    }
    let ghost start = mutable.cells@;
    proof {
        assert forall|x: int, y: int| #![trigger cell(start, wi, x, y)] input.in_bounds(x, y)
            implies cell(start, wi, x, y) == (interior(*input, x, y) && input.at(x, y)) by {
            assert(mutable.in_bounds(x, y));
            assert(mutable.at(x, y) == cell(start, wi, x, y));
        }
    }
    let mut thinned = BooleanMatrix::new(w, h);
    let ghost none = thinned.cells@;
    proof {
        assert forall|x: int, y: int| #![trigger cell(none, wi, x, y)] input.in_bounds(x, y)
            implies !cell(none, wi, x, y) by {
            assert(thinned.in_bounds(x, y));
            assert(!thinned.at(x, y));
        }
    }
    let mut removed_anything = true;
    let ghost goal = thin_rounds((start, none, true), wi, hi, 0);
    let mut i: usize = 0;
    while i < Parameters::THINNING_ITERATIONS && removed_anything
        invariant
            input.wf(),
            w == input.width,
            h == input.height,
            wi == w,
            hi == h,
            w <= i32::MAX,
            h <= i32::MAX,
            types@.len() == 256,
            forall|mask: int| 0 <= mask < 256 ==> #[trigger] types@[mask] == neighborhood_class(mask),
            mutable.wf(),
            mutable.width == w,
            mutable.height == h,
            thinned.wf(),
            thinned.width == w,
            thinned.height == h,
            forall|a: int, b: int| #![trigger mutable.at(a, b)] mutable.in_bounds(a, b) && mutable.at(a, b) ==> interior(*input, a, b) && input.at(a, b),
            forall|a: int, b: int| #![trigger thinned.at(a, b)] thinned.in_bounds(a, b) && thinned.at(a, b) ==> mutable.at(a, b),
            thin_rounds((mutable.cells@, thinned.cells@, removed_anything), wi, hi, i as nat) == goal,
        decreases Parameters::THINNING_ITERATIONS - i,
    {
        removed_anything = false;
        let ghost round_start = (mutable.cells@, thinned.cells@, false);
        let mut pass: usize = 0;
        while pass < 4
            invariant
                input.wf(),
                w == input.width,
                h == input.height,
                wi == w,
                hi == h,
                w <= i32::MAX,
                h <= i32::MAX,
                types@.len() == 256,
                forall|mask: int| 0 <= mask < 256 ==> #[trigger] types@[mask] == neighborhood_class(mask),
                mutable.wf(),
                mutable.width == w,
                mutable.height == h,
                thinned.wf(),
                thinned.width == w,
                thinned.height == h,
                forall|a: int, b: int| #![trigger mutable.at(a, b)] mutable.in_bounds(a, b) && mutable.at(a, b) ==> interior(*input, a, b) && input.at(a, b),
                forall|a: int, b: int| #![trigger thinned.at(a, b)] thinned.in_bounds(a, b) && thinned.at(a, b) ==> mutable.at(a, b),
                pass <= 4,
                (mutable.cells@, thinned.cells@, removed_anything) == thin_passes(round_start, wi, hi, pass as nat),
            decreases 4 - pass,
        {
            let even_y = pass / 2;
            let even_x = pass % 2;
            let ghost pass_start = (mutable.cells@, thinned.cells@, removed_anything);
            let mut y: usize = 1 + even_y;
            while y + 1 < h
                invariant
                    input.wf(),
                    w == input.width,
                    h == input.height,
                    wi == w,
                    hi == h,
                    w <= i32::MAX,
                    h <= i32::MAX,
                    types@.len() == 256,
                    forall|mask: int| 0 <= mask < 256 ==> #[trigger] types@[mask] == neighborhood_class(mask),
                    even_x <= 1,
                    even_y <= 1,
                    1 <= y <= h + 2,
                    mutable.wf(),
                    mutable.width == w,
                    mutable.height == h,
                    thinned.wf(),
                    thinned.width == w,
                    thinned.height == h,
                    forall|a: int, b: int| #![trigger mutable.at(a, b)] mutable.in_bounds(a, b) && mutable.at(a, b) ==> interior(*input, a, b) && input.at(a, b),
                    forall|a: int, b: int| #![trigger thinned.at(a, b)] thinned.in_bounds(a, b) && thinned.at(a, b) ==> mutable.at(a, b),
                    thin_pass((mutable.cells@, thinned.cells@, removed_anything), wi, hi, y as int, even_x as int)
                        == thin_pass(pass_start, wi, hi, 1 + even_y as int, even_x as int),
                decreases h - y,
            {
                let ghost row_start = (mutable.cells@, thinned.cells@, removed_anything);
                let mut x: usize = 1 + even_x;
                while x + 1 < w
                    invariant
                        input.wf(),
                        w == input.width,
                        h == input.height,
                        wi == w,
                        hi == h,
                        w <= i32::MAX,
                        h <= i32::MAX,
                        types@.len() == 256,
                        forall|mask: int| 0 <= mask < 256 ==> #[trigger] types@[mask] == neighborhood_class(mask),
                        1 <= x <= w + 2,
                        1 <= y,
                        y + 1 < h,
                        mutable.wf(),
                        mutable.width == w,
                        mutable.height == h,
                        thinned.wf(),
                        thinned.width == w,
                        thinned.height == h,
                        forall|a: int, b: int| #![trigger mutable.at(a, b)] mutable.in_bounds(a, b) && mutable.at(a, b) ==> interior(*input, a, b) && input.at(a, b),
                        forall|a: int, b: int| #![trigger thinned.at(a, b)] thinned.in_bounds(a, b) && thinned.at(a, b) ==> mutable.at(a, b),
                        thin_row((mutable.cells@, thinned.cells@, removed_anything), wi, hi, y as int, x as int)
                            == thin_row(row_start, wi, hi, y as int, 1 + even_x as int),
                    decreases w - x,
                {
                    thin_step(&mut mutable, &mut thinned, &mut removed_anything, &types, x, y, Ghost(*input));
                    x = x + 2;
                }
                y = y + 2;
            }
            pass = pass + 1;
        }
        i = i + 1;
    }
    proof {
        let cur = (mutable.cells@, thinned.cells@, removed_anything);
        assert(thin_rounds(cur, wi, hi, i as nat) == cur);
        assert(thinned.cells@ == goal.1);
    }
    thinned
}

} // verus!
