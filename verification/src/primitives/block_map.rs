use vstd::prelude::*;
use crate::primitives::block_grid::BlockGrid;
use crate::primitives::int_point::IntPoint;
use crate::primitives::int_rect::IntRect;
use crate::primitives::integers::{Integers, div_toward_zero};

verus! {

/// A pixel area divided into a primary grid of blocks and a secondary grid
/// whose corners lie at the centers of the primary blocks.
#[derive(Clone, Debug, PartialEq, Eq)]
pub struct BlockMap {
    pub pixels: IntPoint,
    pub primary: BlockGrid,
    pub secondary: BlockGrid,
}

/// Number of blocks of at most `max` pixels needed to cover `len` pixels.
pub open spec fn block_count(len: int, max: int) -> int {
    div_toward_zero(len + max - 1, max)
}

/// Coordinates of the corner lines of `blocks` equal blocks spanning `len` pixels.
pub open spec fn primary_line(i: int, len: int, blocks: int) -> int {
    (i * len) / blocks
}

/// Coordinates of the secondary corner lines built from the primary ones: the
/// first line at zero, then the centers of the primary blocks, then the full
/// length.
pub open spec fn secondary_line(i: int, len: int, blocks: int) -> int {
    if i == 0 {
        0
    } else if i == blocks + 1 {
        len
    } else {
        (primary_line(i - 1, len, blocks) + primary_line(i, len, blocks)) / 2
    }
}

/// What the map guarantees about one axis of length `len`.
pub open spec fn axis_ok(primary: Seq<i32>, secondary: Seq<i32>, len: int, blocks: int) -> bool {
    &&& primary.len() == blocks + 1
    &&& secondary.len() == blocks + 2
    &&& forall|i: int| 0 <= i <= blocks ==> #[trigger] primary[i] == primary_line(i, len, blocks)
    &&& forall|i: int| 0 <= i < blocks + 2 ==> #[trigger] secondary[i] == secondary_line(i, len, blocks)
    &&& forall|i: int| 0 <= i < blocks ==> #[trigger] primary[i] <= primary[i + 1]
    &&& forall|i: int| 0 <= i < blocks + 1 ==> #[trigger] secondary[i] <= secondary[i + 1]
    &&& primary[0] == 0 && primary[blocks] == len
    &&& secondary[0] == 0 && secondary[blocks + 1] == len
}

/// Both kinds of lines rise from zero to the length.
proof fn lemma_axis_order(len: int, blocks: int)
    requires
        len > 0,
        blocks > 0,
    ensures
        forall|i: int| 0 <= i < blocks ==> #[trigger] primary_line(i, len, blocks) <= primary_line(i + 1, len, blocks),
        forall|i: int| 0 <= i < blocks + 1 ==> #[trigger] secondary_line(i, len, blocks) <= secondary_line(i + 1, len, blocks),
        primary_line(0, len, blocks) == 0,
        primary_line(blocks, len, blocks) == len,
{
    assert forall|i: int| 0 <= i < blocks implies #[trigger] primary_line(i, len, blocks) <= primary_line(i + 1, len, blocks) by {
        lemma_primary_line(i, len, blocks);
    }
    assert forall|i: int| 0 <= i < blocks + 1 implies #[trigger] secondary_line(i, len, blocks) <= secondary_line(i + 1, len, blocks) by {
        lemma_secondary_line(i, len, blocks);
    }
    assert(0 * len == 0);
    assert((blocks * len) / blocks == len) by (nonlinear_arith) requires blocks > 0;
}

/// The secondary lines rise from zero to the length.
proof fn lemma_secondary_line(i: int, len: int, blocks: int)
    requires
        0 <= i < blocks + 1,
        len > 0,
        blocks > 0,
    ensures
        0 <= secondary_line(i, len, blocks) <= secondary_line(i + 1, len, blocks) <= len,
{
    if i >= 1 {
        lemma_primary_line(i - 1, len, blocks);
    }
    if i + 1 <= blocks {
        lemma_primary_line(i, len, blocks);
    }
    if i >= 1 && i + 1 <= blocks {
        let a = primary_line(i - 1, len, blocks);
        let b = primary_line(i, len, blocks);
        let c = primary_line(i + 1, len, blocks);
        assert((a + b) / 2 <= (b + c) / 2) by (nonlinear_arith) requires 0 <= a <= b <= c;
        assert(0 <= (a + b) / 2) by (nonlinear_arith) requires 0 <= a <= b;
        assert((b + c) / 2 <= len) by (nonlinear_arith) requires 0 <= b <= c <= len;
    } else if i == 0 {
        let b = primary_line(0, len, blocks);
        let c = primary_line(1, len, blocks);
        assert(0 <= (b + c) / 2 <= len) by (nonlinear_arith) requires 0 <= b <= c <= len;
    } else {
        let a = primary_line(i - 1, len, blocks);
        let b = primary_line(i, len, blocks);
        assert(0 <= (a + b) / 2 <= len) by (nonlinear_arith) requires 0 <= a <= b <= len;
    }
}

/// Lines of equal blocks are nondecreasing and bounded by the length.
proof fn lemma_primary_line(i: int, len: int, blocks: int)
    requires
        0 <= i < blocks,
        len > 0,
        blocks > 0,
    ensures
        0 <= primary_line(i, len, blocks) <= primary_line(i + 1, len, blocks) <= len,
        blocks == 1 ==> primary_line(i, len, blocks) == 0,
{
    assert(0 <= (i * len) / blocks) by (nonlinear_arith) requires i >= 0, len > 0, blocks > 0;
    assert((i * len) / blocks <= ((i + 1) * len) / blocks) by (nonlinear_arith)
        requires i >= 0, len > 0, blocks > 0;
    assert(((i + 1) * len) / blocks <= len) by (nonlinear_arith)
        requires i + 1 <= blocks, len > 0, blocks > 0, i >= 0;
    if blocks == 1 {
        assert(i == 0);
        assert(i * len == 0);
    }
}

/// Fills `v[i] = i * len / blocks` for `i` in `0..=blocks`.
fn fill_primary(v: &mut Vec<i32>, len: i32, blocks: i32)
    requires
        old(v)@.len() == blocks + 1,
        0 < blocks < i32::MAX,
        len > 0,
        blocks * len <= i32::MAX,
    ensures
        final(v)@.len() == blocks + 1,
        forall|i: int| 0 <= i <= blocks ==> #[trigger] final(v)@[i] == primary_line(i, len as int, blocks as int),
{
    let mut i: i32 = 0;
    while i <= blocks
        invariant
            0 <= i <= blocks + 1,
            v@.len() == blocks + 1,
            0 < blocks < i32::MAX,
            len > 0,
            blocks * len <= i32::MAX,
            forall|k: int| 0 <= k < i ==> #[trigger] v@[k] == primary_line(k, len as int, blocks as int),
        decreases blocks + 1 - i,
    {
        proof {
            assert(0 <= i * len <= blocks * len) by (nonlinear_arith) requires 0 <= i <= blocks, len > 0;
            assert((i * len) / (blocks as int) >= 0) by (nonlinear_arith) requires i * len >= 0, blocks > 0;
            assert((i * len) / (blocks as int) <= i * len) by (nonlinear_arith) requires i * len >= 0, blocks > 0;
        }
        v.set(i as usize, i * len / blocks);
        i = i + 1;
    }
}

/// Fills the secondary lines from the primary ones.
fn fill_secondary(grid: &mut BlockGrid, primary: &BlockGrid, len: i32, blocks: i32, vertical: bool)
    requires
        old(grid).wf(),
        primary.wf(),
        blocks > 0,
        len > 0,
        blocks * len <= i32::MAX,
        vertical ==> old(grid).y@.len() == blocks + 2 && primary.y@.len() == blocks + 1,
        !vertical ==> old(grid).x@.len() == blocks + 2 && primary.x@.len() == blocks + 1,
        vertical ==> forall|i: int| 0 <= i <= blocks ==> #[trigger] primary.y@[i] == primary_line(i, len as int, blocks as int),
        !vertical ==> forall|i: int| 0 <= i <= blocks ==> #[trigger] primary.x@[i] == primary_line(i, len as int, blocks as int),
        primary.x@.len() >= 2,
        primary.y@.len() >= 2,
        vertical ==> primary.x@[0] == 0 && 0 <= primary.x@[1] <= i32::MAX,
        !vertical ==> primary.y@[0] == 0 && 0 <= primary.y@[1] <= i32::MAX,
    ensures
        final(grid).wf(),
        final(grid).blocks == old(grid).blocks,
        final(grid).corners == old(grid).corners,
        vertical ==> final(grid).x@ == old(grid).x@,
        !vertical ==> final(grid).y@ == old(grid).y@,
        vertical ==> forall|i: int| 0 <= i < blocks + 2 ==> #[trigger] final(grid).y@[i] == secondary_line(i, len as int, blocks as int),
        !vertical ==> forall|i: int| 0 <= i < blocks + 2 ==> #[trigger] final(grid).x@[i] == secondary_line(i, len as int, blocks as int),
{
    if vertical {
        grid.y.set(0, 0);
    } else {
        grid.x.set(0, 0);
    }
    let mut k: i32 = 0;
    while k < blocks
        invariant
            0 <= k <= blocks,
            grid.wf(),
            grid.blocks == old(grid).blocks,
            grid.corners == old(grid).corners,
            primary.wf(),
            blocks > 0,
            len > 0,
            blocks * len <= i32::MAX,
            vertical ==> grid.y@.len() == blocks + 2 && primary.y@.len() == blocks + 1,
            !vertical ==> grid.x@.len() == blocks + 2 && primary.x@.len() == blocks + 1,
            vertical ==> forall|i: int| 0 <= i <= blocks ==> #[trigger] primary.y@[i] == primary_line(i, len as int, blocks as int),
            !vertical ==> forall|i: int| 0 <= i <= blocks ==> #[trigger] primary.x@[i] == primary_line(i, len as int, blocks as int),
            primary.x@.len() >= 2,
            primary.y@.len() >= 2,
            vertical ==> primary.x@[0] == 0 && 0 <= primary.x@[1] <= i32::MAX,
            !vertical ==> primary.y@[0] == 0 && 0 <= primary.y@[1] <= i32::MAX,
            vertical ==> grid.x@ == old(grid).x@,
            !vertical ==> grid.y@ == old(grid).y@,
            vertical ==> grid.y@[0] == 0,
            !vertical ==> grid.x@[0] == 0,
            vertical ==> forall|i: int| 1 <= i <= k ==> #[trigger] grid.y@[i] == secondary_line(i, len as int, blocks as int),
            !vertical ==> forall|i: int| 1 <= i <= k ==> #[trigger] grid.x@[i] == secondary_line(i, len as int, blocks as int),
        decreases blocks - k,
    {
        proof {
            lemma_primary_line(k as int, len as int, blocks as int);
            if blocks >= 2 {
                assert(2 * len <= blocks * len) by (nonlinear_arith) requires blocks >= 2, len > 0;
            }
        }
        if vertical {
            let block = primary.block(0, k);
            let c = block.center();
            grid.y.set((k + 1) as usize, c.y());
        } else {
            let block = primary.block(k, 0);
            let c = block.center();
            grid.x.set((k + 1) as usize, c.x());
        }
        k = k + 1;
    }
    if vertical {
        grid.y.set((blocks + 1) as usize, len);
    } else {
        grid.x.set((blocks + 1) as usize, len);
    }
}

impl BlockMap {
    /// Well-formed grids on both levels.
    pub open spec fn wf(&self) -> bool {
        &&& self.primary.wf()
        &&& self.secondary.wf()
    }

    /// Divides a `width × height` area into blocks of at most `max_block_size`
    /// pixels per side.
    pub fn new(width: i32, height: i32, max_block_size: i32) -> (r: BlockMap)
        requires
            width > 0,
            height > 0,
            max_block_size > 0,
            width + max_block_size <= i32::MAX,
            height + max_block_size <= i32::MAX,
            block_count(width as int, max_block_size as int) * width <= i32::MAX,
            block_count(height as int, max_block_size as int) * height <= i32::MAX,
        ensures
            r.wf(),
            r.pixels.x == width,
            r.pixels.y == height,
            r.primary.blocks.x == block_count(width as int, max_block_size as int),
            r.primary.blocks.y == block_count(height as int, max_block_size as int),
            r.secondary.blocks.x == r.primary.blocks.x + 1,
            r.secondary.blocks.y == r.primary.blocks.y + 1,
            axis_ok(r.primary.x@, r.secondary.x@, width as int, r.primary.blocks.x as int),
            axis_ok(r.primary.y@, r.secondary.y@, height as int, r.primary.blocks.y as int),
    {
        let pixels = IntPoint::new(width, height);
        let bx = Integers::round_up_div(width, max_block_size);
        let by = Integers::round_up_div(height, max_block_size);
        proof {
            let nx = width + max_block_size - 1;
            let ny = height + max_block_size - 1;
            assert(nx / (max_block_size as int) >= 1) by (nonlinear_arith)
                requires nx >= max_block_size as int, max_block_size > 0;
            assert(ny / (max_block_size as int) >= 1) by (nonlinear_arith)
                requires ny >= max_block_size as int, max_block_size > 0;
            assert(bx <= bx * width) by (nonlinear_arith) requires bx >= 1, width >= 1;
            assert(by <= by * height) by (nonlinear_arith) requires by >= 1, height >= 1;
            assert(nx / (max_block_size as int) <= width) by (nonlinear_arith)
                requires nx == width + max_block_size - 1, max_block_size >= 1, width >= 1;
            assert(ny / (max_block_size as int) <= height) by (nonlinear_arith)
                requires ny == height + max_block_size - 1, max_block_size >= 1, height >= 1;
        }
        proof {
            assert(bx < 50000) by (nonlinear_arith)
                requires 1 <= bx <= width, bx * width <= i32::MAX;
            assert(by < 50000) by (nonlinear_arith)
                requires 1 <= by <= height, by * height <= i32::MAX;
        }
        let mut primary = BlockGrid::new(&IntPoint::new(bx, by));
        fill_primary(&mut primary.y, height, by);
        fill_primary(&mut primary.x, width, bx);
        let mut secondary = BlockGrid::from_width_height(primary.corners.x(), primary.corners.y());
        proof {
            lemma_primary_line(0, width as int, bx as int);
            lemma_primary_line(0, height as int, by as int);
            assert(primary.x@[1] == primary_line(1, width as int, bx as int));
            assert(primary.y@[1] == primary_line(1, height as int, by as int));
        }
        fill_secondary(&mut secondary, &primary, height, by, true);
        fill_secondary(&mut secondary, &primary, width, bx, false);
        proof {
            lemma_axis_order(width as int, bx as int);
            lemma_axis_order(height as int, by as int);
        }
        BlockMap { pixels, primary, secondary }
    }

    /// Block counts of the primary grid.
    pub fn primary_blocks(&self) -> (r: IntPoint)
        ensures
            r == self.primary.blocks,
    {
        self.primary.blocks
    }

    /// Corner counts of the secondary grid.
    pub fn secondary_corners(&self) -> (r: IntPoint)
        ensures
            r == self.secondary.corners,
    {
        self.secondary.corners
    }

    pub fn pixels(&self) -> (r: IntPoint)
        ensures
            r == self.pixels,
    {
        self.pixels
    }

    pub fn width(&self) -> (r: i32)
        ensures
            r == self.pixels.x,
    {
        self.pixels.x()
    }

    pub fn height(&self) -> (r: i32)
        ensures
            r == self.pixels.y,
    {
        self.pixels.y()
    }

    /// The primary block at `(at_x, at_y)`.
    pub fn primary_block(&self, at_x: i32, at_y: i32) -> (r: IntRect)
        requires
            0 <= at_x < i32::MAX && at_x + 1 < self.primary.x@.len(),
            0 <= at_y < i32::MAX && at_y + 1 < self.primary.y@.len(),
            i32::MIN <= self.primary.x@[at_x + 1] - self.primary.x@[at_x as int] <= i32::MAX,
            i32::MIN <= self.primary.y@[at_y + 1] - self.primary.y@[at_y as int] <= i32::MAX,
        ensures
            r.x == self.primary.x@[at_x as int],
            r.y == self.primary.y@[at_y as int],
            r.width == self.primary.x@[at_x + 1] - self.primary.x@[at_x as int],
            r.height == self.primary.y@[at_y + 1] - self.primary.y@[at_y as int],
    {
        self.primary.block(at_x, at_y)
    }

    /// The secondary block at `(at_x, at_y)`.
    pub fn secondary_block(&self, at_x: i32, at_y: i32) -> (r: IntRect)
        requires
            0 <= at_x < i32::MAX && at_x + 1 < self.secondary.x@.len(),
            0 <= at_y < i32::MAX && at_y + 1 < self.secondary.y@.len(),
            i32::MIN <= self.secondary.x@[at_x + 1] - self.secondary.x@[at_x as int] <= i32::MAX,
            i32::MIN <= self.secondary.y@[at_y + 1] - self.secondary.y@[at_y as int] <= i32::MAX,
        ensures
            r.x == self.secondary.x@[at_x as int],
            r.y == self.secondary.y@[at_y as int],
            r.width == self.secondary.x@[at_x + 1] - self.secondary.x@[at_x as int],
            r.height == self.secondary.y@[at_y + 1] - self.secondary.y@[at_y as int],
    {
        self.secondary.block(at_x, at_y)
    }
}


/// Primary lines are nondecreasing over any span of indices.
proof fn lemma_primary_lines_ordered(i: int, j: int, len: int, blocks: int)
    requires
        0 <= i <= j <= blocks,
        len > 0,
        blocks > 0,
    ensures
        primary_line(i, len, blocks) <= primary_line(j, len, blocks),
    decreases j - i,
{
    if i < j {
        lemma_primary_line(j - 1, len, blocks);
        lemma_primary_lines_ordered(i, j - 1, len, blocks);
    }
}

/// Some block among the first `n` starts at or before `p` and ends after it,
/// when block `n` starts after `p`.
proof fn lemma_block_found(p: int, n: int, len: int, blocks: int)
    requires
        0 < n <= blocks,
        len > 0,
        blocks > 0,
        0 <= p,
        primary_line(n, len, blocks) > p,
    ensures
        exists|i: int| 0 <= i < n && #[trigger] primary_line(i, len, blocks) <= p < primary_line(i + 1, len, blocks),
    decreases n,
{
    assert(primary_line(0, len, blocks) == 0) by (nonlinear_arith) requires blocks > 0;
    if primary_line(n - 1, len, blocks) <= p {
        assert(primary_line(n - 1, len, blocks) <= p < primary_line(n, len, blocks));
    } else {
        lemma_block_found(p, n - 1, len, blocks);
        let i = choose|i: int| 0 <= i < n - 1 && #[trigger] primary_line(i, len, blocks) <= p < primary_line(i + 1, len, blocks);
        assert(primary_line(i, len, blocks) <= p < primary_line(i + 1, len, blocks));
    }
}

/// The primary blocks along an axis of `len` pixels split it without gaps or
/// overlaps: every pixel lies in exactly one block.
pub proof fn law_primary_blocks_partition(p: int, len: int, blocks: int)
    requires
        0 <= p < len,
        blocks > 0,
    ensures
        exists|i: int| 0 <= i < blocks && #[trigger] primary_line(i, len, blocks) <= p < primary_line(i + 1, len, blocks),
        forall|i: int, j: int|
            0 <= i < blocks && 0 <= j < blocks
                && #[trigger] primary_line(i, len, blocks) <= p < primary_line(i + 1, len, blocks)
                && #[trigger] primary_line(j, len, blocks) <= p < primary_line(j + 1, len, blocks)
                ==> i == j,
{
    assert(primary_line(blocks, len, blocks) == len) by (nonlinear_arith) requires blocks > 0;
    lemma_block_found(p, blocks, len, blocks);
    assert forall|i: int, j: int|
        0 <= i < blocks && 0 <= j < blocks
            && #[trigger] primary_line(i, len, blocks) <= p < primary_line(i + 1, len, blocks)
            && #[trigger] primary_line(j, len, blocks) <= p < primary_line(j + 1, len, blocks)
            implies i == j by {
        if i < j {
            lemma_primary_lines_ordered(i + 1, j, len, blocks);
        } else if j < i {
            lemma_primary_lines_ordered(j + 1, i, len, blocks);
        }
    }
}
} // verus!
