use vstd::prelude::*;
use crate::features::edge_shape::EdgeShape;
use crate::features::indexed_edge::IndexedEdge;
use crate::extractor::FeatureExtractor;
use crate::features::neighbor_edge::NeighborEdge;
use crate::primitives::bool_matrix::BooleanMatrix;
use crate::primitives::short_point::ShortPoint;
use crate::primitives::grid::{cell_index, lemma_cell_index_bounds, lemma_cell_index_injective};

verus! {

/// `p` is a set pixel of `m`.
pub open spec fn lit(m: &BooleanMatrix, p: (int, int)) -> bool {
    m.in_bounds(p.0, p.1) && m.at(p.0, p.1)
}

/// `p` and `q` are distinct 8-neighbours.
pub open spec fn touching(p: (int, int), q: (int, int)) -> bool {
    p != q && -1 <= p.0 - q.0 <= 1 && -1 <= p.1 - q.1 <= 1
}

/// `t` holds set pixels only and, with each of them, all its set 8-neighbours.
pub open spec fn closed_in(m: &BooleanMatrix, t: Set<(int, int)>) -> bool {
    &&& forall|p: (int, int)| #[trigger] t.contains(p) ==> lit(m, p)
    &&& forall|p: (int, int), q: (int, int)|
        #![trigger t.contains(p), t.contains(q)]
        t.contains(p) && touching(p, q) && lit(m, q) ==> t.contains(q)
}

/// The points of `c` form the 8-connected component of set pixels that
/// holds `seed`: they are set, closed under set neighbours, and lie in every
/// closed set that holds `seed`.
pub open spec fn is_component(m: &BooleanMatrix, seed: (int, int), c: Seq<(int, int)>) -> bool {
    &&& c.contains(seed)
    &&& forall|p: (int, int)| #[trigger] c.contains(p) ==> lit(m, p)
    &&& forall|p: (int, int), q: (int, int)|
        #![trigger c.contains(p), c.contains(q)]
        c.contains(p) && touching(p, q) && lit(m, q) ==> c.contains(q)
    &&& forall|t: Set<(int, int)>, p: (int, int)|
        #![trigger closed_in(m, t), c.contains(p)]
        closed_in(m, t) && t.contains(seed) && c.contains(p) ==> t.contains(p)
}

/// `p` comes before `q` when points are ordered by `x` first and `y` second.
pub open spec fn col_before(p: (int, int), q: (int, int)) -> bool {
    p.0 < q.0 || (p.0 == q.0 && p.1 < q.1)
}

/// The points of `c` are strictly increasing in `(x, y)` order.
pub open spec fn sorted_points(c: Seq<(int, int)>) -> bool {
    forall|i: int, j: int| 0 <= i < j < c.len() ==> col_before(#[trigger] c[i], #[trigger] c[j])
}

/// A point as a `ShortPoint`, each coordinate truncated as `as i16` does.
pub open spec fn short_of(p: (int, int)) -> ShortPoint {
    ShortPoint { x: p.0 as i16, y: p.1 as i16 }
}

/// `es` links each point of `c` to the next one by a two-point edge of
/// index 0 with no neighbour.
pub open spec fn edges_along(es: Seq<NeighborEdge>, c: Seq<(int, int)>) -> bool {
    &&& es.len() + 1 == c.len()
    &&& forall|j: int| 0 <= j < es.len() ==> {
        &&& (#[trigger] es[j]).indexed.index == 0
        &&& es[j].neighbor is None
        &&& es[j].indexed.shape.points@ == seq![short_of(c[j]), short_of(c[j + 1])]
    }
}

/// `p` comes before `q` in row-major order.
pub open spec fn row_before(p: (int, int), q: (int, int)) -> bool {
    p.1 < q.1 || (p.1 == q.1 && p.0 < q.0)
}

/// `comps` lists 8-connected components of set pixels of `m`, each of at
/// least two pixels in `(x, y)` order and found from `seeds` at the same
/// position, which is its first pixel in row-major order; the seeds go up in
/// row-major order, and every set pixel with a set neighbour lies in one of
/// the components.
pub open spec fn component_listing(m: &BooleanMatrix, seeds: Seq<(int, int)>, comps: Seq<Seq<(int, int)>>) -> bool {
    &&& seeds.len() == comps.len()
    &&& forall|k: int| 0 <= k < comps.len() ==> {
        &&& is_component(m, seeds[k], #[trigger] comps[k])
        &&& sorted_points(comps[k])
        &&& comps[k].len() >= 2
        &&& forall|p: (int, int)| #[trigger] comps[k].contains(p) ==> !row_before(p, seeds[k])
    }
    &&& forall|k1: int, k2: int| 0 <= k1 < k2 < seeds.len() ==> row_before(#[trigger] seeds[k1], #[trigger] seeds[k2])
    &&& forall|p: (int, int), q: (int, int)| #[trigger] lit(m, p) && touching(p, q) && #[trigger] lit(m, q)
        ==> exists|k: int| 0 <= k < comps.len() && #[trigger] comps[k].contains(p)
}

/// Label of pixel `p` in a row-major label grid `width` cells wide.
pub open spec fn lab(labels: Seq<usize>, width: int, p: (int, int)) -> usize {
    labels[cell_index(p.0, p.1, width)]
}

/// The pairs of `s` as integer points.
pub open spec fn pts(s: Seq<(usize, usize)>) -> Seq<(int, int)> {
    Seq::new(s.len(), |i: int| (s[i].0 as int, s[i].1 as int))
}

/// Number of zero labels.
pub open spec fn unlabelled(s: Seq<usize>) -> nat
    decreases s.len(),
{
    if s.len() == 0 {
        0
    } else {
        unlabelled(s.drop_last()) + if s.last() == 0 { 1nat } else { 0nat }
    }
}

proof fn lemma_unlabelled_update(s: Seq<usize>, j: int, v: usize)
    requires
        0 <= j < s.len(),
        s[j] == 0,
        v != 0,
    ensures
        unlabelled(s.update(j, v)) + 1 == unlabelled(s),
    decreases s.len(),
{
    if j == s.len() - 1 {
        assert(s.update(j, v).drop_last() =~= s.drop_last());
    } else {
        lemma_unlabelled_update(s.drop_last(), j, v);
        assert(s.update(j, v).drop_last() =~= s.drop_last().update(j, v));
    }
}

/// Writing label `v` at the cell of `q` changes the label of `q` alone.
proof fn lemma_lab_update(m: &BooleanMatrix, labels: Seq<usize>, q: (int, int), v: usize)
    requires
        m.wf(),
        labels.len() == m.cells@.len(),
        m.in_bounds(q.0, q.1),
    ensures
        forall|p: (int, int)| #[trigger] m.in_bounds(p.0, p.1) ==> lab(labels.update(cell_index(q.0, q.1, m.width as int), v), m.width as int, p)
            == if p == q { v } else { lab(labels, m.width as int, p) },
{
    let w = m.width as int;
    assert forall|p: (int, int)| #[trigger] m.in_bounds(p.0, p.1) implies lab(labels.update(cell_index(q.0, q.1, w), v), w, p)
        == if p == q { v } else { lab(labels, w, p) } by {
        lemma_cell_index_bounds(p.0, p.1, w, m.height as int);
        lemma_cell_index_bounds(q.0, q.1, w, m.height as int);
        if cell_index(p.0, p.1, w) == cell_index(q.0, q.1, w) {
            lemma_cell_index_injective(p.0, p.1, q.0, q.1, w);
        }
    }
}

/// `labels` is `base` with the 8-connected component of set pixels that
/// holds `seed` labelled `cur`: labels only went from 0 to `cur`, every
/// labelled pixel is set, `seed` is labelled `cur`, the set neighbours of a
/// pixel labelled `cur` are labelled, and each pixel labelled `cur` lies in
/// every closed set that holds `seed`.
pub open spec fn grown(m: &BooleanMatrix, base: Seq<usize>, labels: Seq<usize>, cur: usize, seed: (int, int)) -> bool {
    let w = m.width as int;
    &&& labels.len() == base.len()
    &&& forall|p: (int, int)| m.in_bounds(p.0, p.1) && #[trigger] lab(labels, w, p) != 0 ==> m.at(p.0, p.1)
    &&& forall|p: (int, int)| m.in_bounds(p.0, p.1) && #[trigger] lab(base, w, p) != 0 ==> lab(labels, w, p) == lab(base, w, p)
    &&& forall|p: (int, int)| m.in_bounds(p.0, p.1) && #[trigger] lab(labels, w, p) != lab(base, w, p) ==> lab(labels, w, p) == cur
    &&& lab(labels, w, seed) == cur
    &&& forall|p: (int, int), q: (int, int)|
        #![trigger lab(labels, w, p), lab(labels, w, q)]
        m.in_bounds(p.0, p.1) && lab(labels, w, p) == cur && touching(p, q) && lit(m, q) ==> lab(labels, w, q) != 0
    &&& forall|t: Set<(int, int)>, p: (int, int)|
        #![trigger closed_in(m, t), lab(labels, w, p)]
        m.in_bounds(p.0, p.1) && lab(labels, w, p) == cur && closed_in(m, t) && t.contains(seed) ==> t.contains(p)
}

/// What holds while the component of `seed` is being labelled `cur`:
/// labels only go from 0 to `cur`, every pixel labelled `cur` is set, lies
/// in the box and in every closed set holding `seed`, and each one that is
/// neither on the stack nor `pending` has all its set neighbours labelled.
pub open spec fn fill_inv(
    m: &BooleanMatrix,
    base: Seq<usize>,
    labels: Seq<usize>,
    stack: Seq<(usize, usize)>,
    cur: usize,
    seed: (int, int),
    bbox: (usize, usize, usize, usize),
    pending: (int, int),
) -> bool {
    let w = m.width as int;
    &&& labels.len() == m.cells@.len()
    &&& base.len() == m.cells@.len()
    &&& forall|p: (int, int)| m.in_bounds(p.0, p.1) && #[trigger] lab(labels, w, p) != 0 ==> m.at(p.0, p.1)
    &&& forall|p: (int, int)| m.in_bounds(p.0, p.1) && #[trigger] lab(base, w, p) != 0 ==> lab(labels, w, p) == lab(base, w, p)
    &&& forall|p: (int, int)| m.in_bounds(p.0, p.1) ==> #[trigger] lab(base, w, p) != cur
    &&& forall|p: (int, int)| m.in_bounds(p.0, p.1) && #[trigger] lab(labels, w, p) != lab(base, w, p) ==> lab(labels, w, p) == cur
    &&& forall|i: int| 0 <= i < stack.len() ==> m.in_bounds(#[trigger] pts(stack)[i].0, pts(stack)[i].1) && lab(labels, w, pts(stack)[i]) == cur
    &&& forall|p: (int, int), q: (int, int)|
        #![trigger lab(labels, w, p), lab(labels, w, q)]
        m.in_bounds(p.0, p.1) && lab(labels, w, p) == cur && !pts(stack).contains(p) && p != pending
            && touching(p, q) && lit(m, q) ==> lab(labels, w, q) != 0
    &&& forall|t: Set<(int, int)>, p: (int, int)|
        #![trigger closed_in(m, t), lab(labels, w, p)]
        m.in_bounds(p.0, p.1) && lab(labels, w, p) == cur && closed_in(m, t) && t.contains(seed) ==> t.contains(p)
    &&& forall|p: (int, int)| m.in_bounds(p.0, p.1) && #[trigger] lab(labels, w, p) == cur
        ==> bbox.0 <= p.0 <= bbox.1 && bbox.2 <= p.1 <= bbox.3
    &&& bbox.1 < m.width
    &&& bbox.3 < m.height
    &&& m.in_bounds(seed.0, seed.1)
    &&& lab(labels, w, seed) == cur
}

/// Labels `cur` the set, unlabelled 8-neighbour of `(px, py)` at offset
/// `(dx, dy)`, if there is one, pushes it on the stack and widens the box.
fn mark(
    m: &BooleanMatrix,
    labels: &mut Vec<usize>,
    stack: &mut Vec<(usize, usize)>,
    bbox: &mut (usize, usize, usize, usize),
    cur: usize,
    px: usize,
    py: usize,
    dx: i8,
    dy: i8,
    Ghost(base): Ghost<Seq<usize>>,
    Ghost(seed): Ghost<(int, int)>,
)
    requires
        m.wf(),
        fill_inv(m, base, old(labels)@, old(stack)@, cur, seed, *old(bbox), (px as int, py as int)),
        m.in_bounds(px as int, py as int),
        lab(old(labels)@, m.width as int, (px as int, py as int)) == cur,
        cur != 0,
        -1 <= dx <= 1,
        -1 <= dy <= 1,
        !(dx == 0 && dy == 0),
    ensures
        fill_inv(m, base, final(labels)@, final(stack)@, cur, seed, *final(bbox), (px as int, py as int)),
        lit(m, (px + dx, py + dy)) ==> lab(final(labels)@, m.width as int, (px + dx, py + dy)) != 0,
        forall|p: (int, int)| m.in_bounds(p.0, p.1) && #[trigger] lab(old(labels)@, m.width as int, p) != 0
            ==> lab(final(labels)@, m.width as int, p) == lab(old(labels)@, m.width as int, p),
        9 * unlabelled(final(labels)@) + final(stack)@.len() <= 9 * unlabelled(old(labels)@) + old(stack)@.len(),
{
    let ghost w = m.width as int;
    let ghost q = (px + dx, py + dy);
    let nx: usize;
    if dx < 0 {
        if px == 0 {
            return;
        }
        nx = px - 1;
    } else if dx == 0 {
        nx = px;
    } else {
        if px + 1 >= m.width {
            return;
        }
        nx = px + 1;
    }
    let ny: usize;
    if dy < 0 {
        if py == 0 {
            return;
        }
        ny = py - 1;
    } else if dy == 0 {
        ny = py;
    } else {
        if py + 1 >= m.height {
            return;
        }
        ny = py + 1;
    }
    assert(q == (nx as int, ny as int));
    if !m.get(nx, ny) {
        return;
    }
    let n = m.cells.len();
    proof {
        lemma_cell_index_bounds(nx as int, ny as int, w, m.height as int);
    }
    let j = ny * m.width + nx;
    if labels[j] != 0 {
        return;
    }
    let ghost old_labels = labels@;
    let ghost old_stack = stack@;
    let ghost old_bbox = *bbox;
    labels.set(j, cur);
    stack.push((nx, ny));
    if nx < bbox.0 {
        bbox.0 = nx;
    }
    if nx > bbox.1 {
        bbox.1 = nx;
    }
    if ny < bbox.2 {
        bbox.2 = ny;
    }
    if ny > bbox.3 {
        bbox.3 = ny;
    }
    proof {
        lemma_lab_update(m, old_labels, q, cur);
        lemma_unlabelled_update(old_labels, j as int, cur);
        let pending = (px as int, py as int);
        assert(pts(stack@) =~= pts(old_stack).push(q));
        assert(lab(base, w, q) == 0);
        assert(seed != q);
        assert forall|i: int| 0 <= i < stack@.len() implies m.in_bounds(#[trigger] pts(stack@)[i].0, pts(stack@)[i].1)
            && lab(labels@, w, pts(stack@)[i]) == cur by {
            if i < old_stack.len() {
                assert(pts(stack@)[i] == pts(old_stack)[i]);
            }
        }
        assert forall|p: (int, int), r: (int, int)|
            #![trigger lab(labels@, w, p), lab(labels@, w, r)]
            m.in_bounds(p.0, p.1) && lab(labels@, w, p) == cur && !pts(stack@).contains(p) && p != pending
                && touching(p, r) && lit(m, r) implies lab(labels@, w, r) != 0 by {
            assert(pts(stack@)[old_stack.len() as int] == q);
            assert(p != q);
            assert(!pts(old_stack).contains(p)) by {
                if pts(old_stack).contains(p) {
                    let k = choose|k: int| 0 <= k < pts(old_stack).len() && pts(old_stack)[k] == p;
                    assert(pts(stack@)[k] == p);
                }
            }
            assert(lab(old_labels, w, p) == cur);
            assert(lab(old_labels, w, r) != 0);
        }
        assert forall|t: Set<(int, int)>, p: (int, int)|
            #![trigger closed_in(m, t), lab(labels@, w, p)]
            m.in_bounds(p.0, p.1) && lab(labels@, w, p) == cur && closed_in(m, t) && t.contains(seed) implies t.contains(p) by {
            if p == q {
                assert(lab(old_labels, w, pending) == cur);
                assert(t.contains(pending));
                assert(touching(pending, q));
            } else {
                assert(lab(old_labels, w, p) == cur);
            }
        }
    }
}

/// Labels `cur` the 8-connected component of set pixels that holds
/// `(x, y)`, and returns a box `(min x, max x, min y, max y)` around it.
fn label_component(m: &BooleanMatrix, labels: &mut Vec<usize>, cur: usize, x: usize, y: usize) -> (bbox: (
    usize,
    usize,
    usize,
    usize,
))
    requires
        m.wf(),
        old(labels)@.len() == m.cells@.len(),
        cur != 0,
        lit(m, (x as int, y as int)),
        lab(old(labels)@, m.width as int, (x as int, y as int)) == 0,
        forall|p: (int, int)| m.in_bounds(p.0, p.1) ==> #[trigger] lab(old(labels)@, m.width as int, p) != cur,
        forall|p: (int, int)| m.in_bounds(p.0, p.1) && #[trigger] lab(old(labels)@, m.width as int, p) != 0 ==> m.at(p.0, p.1),
    ensures
        grown(m, old(labels)@, final(labels)@, cur, (x as int, y as int)),
        forall|p: (int, int)| m.in_bounds(p.0, p.1) && #[trigger] lab(final(labels)@, m.width as int, p) == cur
            ==> bbox.0 <= p.0 <= bbox.1 && bbox.2 <= p.1 <= bbox.3,
        bbox.1 < m.width,
        bbox.3 < m.height,
{
    let ghost base = labels@;
    let ghost seed = (x as int, y as int);
    let ghost w = m.width as int;
    let ghost none = (-1int, -1int);
    let n = m.cells.len();
    proof {
        lemma_cell_index_bounds(x as int, y as int, w, m.height as int);
    }
    let j = y * m.width + x;
    labels.set(j, cur);
    let mut stack: Vec<(usize, usize)> = Vec::new();
    stack.push((x, y));
    let mut bbox = (x, x, y, y);
    proof {
        lemma_lab_update(m, base, seed, cur);
        assert(pts(stack@)[0] == seed);
        assert forall|p: (int, int)| m.in_bounds(p.0, p.1) && #[trigger] lab(labels@, w, p) == cur
            implies p == seed by {}
        assert(fill_inv(m, base, labels@, stack@, cur, seed, bbox, none));
    }
    while stack.len() > 0
        invariant
            m.wf(),
            cur != 0,
            fill_inv(m, base, labels@, stack@, cur, seed, bbox, none),
            base.len() == old(labels)@.len(),
            base == old(labels)@,
            w == m.width,
            none == (-1int, -1int),
            seed == (x as int, y as int),
        decreases 9 * unlabelled(labels@) + stack@.len(),
    {
        let ghost before = stack@;
        let top = stack.pop();
        let (px, py) = match top {
            Some(t) => t,
            None => (x, y),
        };
        let ghost pending = (px as int, py as int);
        proof {
            assert(stack@ == before.drop_last());
            assert(pts(before)[before.len() - 1] == pending);
            assert forall|p: (int, int), q: (int, int)|
                #![trigger lab(labels@, w, p), lab(labels@, w, q)]
                m.in_bounds(p.0, p.1) && lab(labels@, w, p) == cur && !pts(stack@).contains(p) && p != pending
                    && touching(p, q) && lit(m, q) implies lab(labels@, w, q) != 0 by {
                if pts(before).contains(p) {
                    let k = choose|k: int| 0 <= k < pts(before).len() && pts(before)[k] == p;
                    if k < before.len() - 1 {
                        assert(pts(stack@)[k] == p);
                        assert(pts(stack@).contains(p));
                    }
                } else {
                    assert(p != none);
                }
            }
            assert forall|i: int| 0 <= i < stack@.len() implies m.in_bounds(#[trigger] pts(stack@)[i].0, pts(stack@)[i].1)
                && lab(labels@, w, pts(stack@)[i]) == cur by {
                assert(pts(stack@)[i] == pts(before)[i]);
            }
            assert(fill_inv(m, base, labels@, stack@, cur, seed, bbox, pending));
        }
        mark(m, labels, &mut stack, &mut bbox, cur, px, py, -1, -1, Ghost(base), Ghost(seed));
        mark(m, labels, &mut stack, &mut bbox, cur, px, py, 0, -1, Ghost(base), Ghost(seed));
        mark(m, labels, &mut stack, &mut bbox, cur, px, py, 1, -1, Ghost(base), Ghost(seed));
        mark(m, labels, &mut stack, &mut bbox, cur, px, py, -1, 0, Ghost(base), Ghost(seed));
        mark(m, labels, &mut stack, &mut bbox, cur, px, py, 1, 0, Ghost(base), Ghost(seed));
        mark(m, labels, &mut stack, &mut bbox, cur, px, py, -1, 1, Ghost(base), Ghost(seed));
        mark(m, labels, &mut stack, &mut bbox, cur, px, py, 0, 1, Ghost(base), Ghost(seed));
        mark(m, labels, &mut stack, &mut bbox, cur, px, py, 1, 1, Ghost(base), Ghost(seed));
        proof {
            assert forall|p: (int, int), q: (int, int)|
                #![trigger lab(labels@, w, p), lab(labels@, w, q)]
                m.in_bounds(p.0, p.1) && lab(labels@, w, p) == cur && !pts(stack@).contains(p) && p != none
                    && touching(p, q) && lit(m, q) implies lab(labels@, w, q) != 0 by {
                if p == pending {
                    assert(touching(pending, q));
                }
            }
        }
    }
    proof {
        assert forall|p: (int, int), q: (int, int)|
            #![trigger lab(labels@, w, p), lab(labels@, w, q)]
            m.in_bounds(p.0, p.1) && lab(labels@, w, p) == cur && touching(p, q) && lit(m, q)
                implies lab(labels@, w, q) != 0 by {
            assert(!pts(stack@).contains(p));
        }
    }
    bbox
}

/// The pixels labelled `cur`, in `(x, y)` order, found by scanning the box.
fn collect_label(m: &BooleanMatrix, labels: &Vec<usize>, cur: usize, bbox: (usize, usize, usize, usize)) -> (out: Vec<(usize, usize)>)
    requires
        m.wf(),
        labels@.len() == m.cells@.len(),
        bbox.1 < m.width,
        bbox.3 < m.height,
        forall|p: (int, int)| m.in_bounds(p.0, p.1) && #[trigger] lab(labels@, m.width as int, p) == cur
            ==> bbox.0 <= p.0 <= bbox.1 && bbox.2 <= p.1 <= bbox.3,
    ensures
        sorted_points(pts(out@)),
        forall|p: (int, int)| #[trigger] pts(out@).contains(p) <==> (m.in_bounds(p.0, p.1) && lab(labels@, m.width as int, p) == cur),
{
    let ghost w = m.width as int;
    let n = labels.len();
    let mut out: Vec<(usize, usize)> = Vec::new();
    let mut x = bbox.0;
    while x <= bbox.1
        invariant
            m.wf(),
            n == labels@.len(),
            labels@.len() == m.cells@.len(),
            w == m.width,
            bbox.1 < m.width,
            bbox.3 < m.height,
            bbox.0 <= x <= bbox.1 + 1 || (x == bbox.0 && bbox.0 > bbox.1),
            forall|p: (int, int)| m.in_bounds(p.0, p.1) && #[trigger] lab(labels@, w, p) == cur
                ==> bbox.0 <= p.0 <= bbox.1 && bbox.2 <= p.1 <= bbox.3,
            sorted_points(pts(out@)),
            forall|i: int| 0 <= i < out@.len() ==> (#[trigger] pts(out@)[i]).0 < x,
            forall|p: (int, int)| #[trigger] pts(out@).contains(p) <==> (m.in_bounds(p.0, p.1) && lab(labels@, w, p) == cur && p.0 < x),
        decreases bbox.1 + 1 - x,
    {
        let mut y = bbox.2;
        while y <= bbox.3
            invariant
                m.wf(),
                n == labels@.len(),
                labels@.len() == m.cells@.len(),
                w == m.width,
                bbox.0 <= x <= bbox.1,
                bbox.1 < m.width,
                bbox.3 < m.height,
                bbox.2 <= y <= bbox.3 + 1 || (y == bbox.2 && bbox.2 > bbox.3),
                forall|p: (int, int)| m.in_bounds(p.0, p.1) && #[trigger] lab(labels@, w, p) == cur
                    ==> bbox.0 <= p.0 <= bbox.1 && bbox.2 <= p.1 <= bbox.3,
                sorted_points(pts(out@)),
                forall|i: int| 0 <= i < out@.len() ==> col_before(#[trigger] pts(out@)[i], (x as int, y as int)),
                forall|p: (int, int)| #[trigger] pts(out@).contains(p) <==> (m.in_bounds(p.0, p.1) && lab(labels@, w, p) == cur
                    && col_before(p, (x as int, y as int))),
            decreases bbox.3 + 1 - y,
        {
            proof {
                lemma_cell_index_bounds(x as int, y as int, w, m.height as int);
            }
            let ghost before = out@;
            if labels[y * m.width + x] == cur {
                out.push((x, y));
                proof {
                    let q = (x as int, y as int);
                    assert(lab(labels@, w, q) == cur);
                    assert(pts(out@) =~= pts(before).push(q));
                    assert forall|p: (int, int)| #[trigger] pts(out@).contains(p) <==> (m.in_bounds(p.0, p.1)
                        && lab(labels@, w, p) == cur && col_before(p, (x as int, y + 1))) by {
                        if p == q {
                            assert(pts(out@)[before.len() as int] == q);
                        } else if pts(out@).contains(p) {
                            let k = choose|k: int| 0 <= k < pts(out@).len() && pts(out@)[k] == p;
                            assert(k < before.len());
                            assert(pts(before)[k] == p);
                            assert(pts(before).contains(p));
                        } else if m.in_bounds(p.0, p.1) && lab(labels@, w, p) == cur && col_before(p, q) {
                            assert(pts(before).contains(p));
                            let k = choose|k: int| 0 <= k < pts(before).len() && pts(before)[k] == p;
                            assert(pts(out@)[k] == p);
                        }
                    }
                }
            } else {
                proof {
                    let q = (x as int, y as int);
                    assert(lab(labels@, w, q) != cur);
                    assert forall|p: (int, int)| #[trigger] pts(out@).contains(p) <==> (m.in_bounds(p.0, p.1)
                        && lab(labels@, w, p) == cur && col_before(p, (x as int, y + 1))) by {
                        if p == q {
                            assert(!col_before(p, q));
                        } else {
                            assert(col_before(p, (x as int, y + 1)) == col_before(p, q));
                        }
                    }
                }
            }
            y = y + 1;
        }
        proof {
            assert forall|p: (int, int)| #[trigger] pts(out@).contains(p) <==> (m.in_bounds(p.0, p.1)
                && lab(labels@, w, p) == cur && p.0 < x + 1) by {
                if m.in_bounds(p.0, p.1) && lab(labels@, w, p) == cur && p.0 == x {
                    assert(col_before(p, (x as int, y as int)));
                }
            }
        }
        x = x + 1;
    }
    out
}

/// Two-point edges from each point of `c` to the next.
fn chain_edges(c: &Vec<(usize, usize)>) -> (es: Vec<NeighborEdge>)
    requires
        c@.len() >= 1,
    ensures
        edges_along(es@, pts(c@)),
{
    let mut es: Vec<NeighborEdge> = Vec::new();
    let mut i: usize = 0;
    let n = c.len();
    while i + 1 < n
        invariant
            n == c@.len(),
            c@.len() >= 1,
            i + 1 <= c@.len(),
            es@.len() == i,
            forall|j: int| 0 <= j < es@.len() ==> {
                &&& (#[trigger] es@[j]).indexed.index == 0
                &&& es@[j].neighbor is None
                &&& es@[j].indexed.shape.points@ == seq![short_of(pts(c@)[j]), short_of(pts(c@)[j + 1])]
            },
        decreases c@.len() - i,
    {
        let (x1, y1) = c[i];
        let (x2, y2) = c[i + 1];
        let mut points: Vec<ShortPoint> = Vec::new();
        points.push(ShortPoint::new(#[verifier::truncate] (x1 as i16), #[verifier::truncate] (y1 as i16)));
        points.push(ShortPoint::new(#[verifier::truncate] (x2 as i16), #[verifier::truncate] (y2 as i16)));
        proof {
            assert(points@ =~= seq![short_of(pts(c@)[i as int]), short_of(pts(c@)[i + 1])]);
        }
        let edge = NeighborEdge::new(IndexedEdge::new(0, EdgeShape::new(points)));
        es.push(edge);
        i = i + 1;
    }
    es
}

/// What holds once the pixels before `at` in row-major order are scanned:
/// the labelled pixels are set and closed under set neighbours, every set
/// pixel scanned is labelled, and the components listed so far, with their
/// edges, cover every labelled pixel that has a set neighbour.
pub open spec fn scan_inv(
    m: &BooleanMatrix,
    labels: Seq<usize>,
    cnt: usize,
    seeds: Seq<(int, int)>,
    comps: Seq<Seq<(int, int)>>,
    result: Seq<Vec<NeighborEdge>>,
    at: (int, int),
) -> bool {
    let w = m.width as int;
    &&& labels.len() == m.cells@.len()
    &&& forall|p: (int, int)| m.in_bounds(p.0, p.1) && #[trigger] lab(labels, w, p) != 0 ==> m.at(p.0, p.1)
    &&& forall|p: (int, int)| m.in_bounds(p.0, p.1) ==> #[trigger] lab(labels, w, p) <= cnt
    &&& forall|p: (int, int), q: (int, int)|
        #![trigger lab(labels, w, p), lab(labels, w, q)]
        m.in_bounds(p.0, p.1) && lab(labels, w, p) != 0 && touching(p, q) && lit(m, q) ==> lab(labels, w, q) != 0
    &&& forall|p: (int, int)| lit(m, p) && row_before(p, at) ==> #[trigger] lab(labels, w, p) != 0
    &&& seeds.len() == comps.len()
    &&& result.len() == comps.len()
    &&& forall|k: int| 0 <= k < comps.len() ==> {
        &&& is_component(m, seeds[k], #[trigger] comps[k])
        &&& sorted_points(comps[k])
        &&& comps[k].len() >= 2
        &&& forall|p: (int, int)| #[trigger] comps[k].contains(p) ==> !row_before(p, seeds[k])
        &&& row_before(seeds[k], at)
        &&& edges_along(result[k]@, comps[k])
    }
    &&& forall|k1: int, k2: int| 0 <= k1 < k2 < seeds.len() ==> row_before(#[trigger] seeds[k1], #[trigger] seeds[k2])
    &&& forall|p: (int, int), q: (int, int)|
        #![trigger lab(labels, w, p), lit(m, q)]
        m.in_bounds(p.0, p.1) && lab(labels, w, p) != 0 && touching(p, q) && lit(m, q)
            ==> exists|k: int| 0 <= k < comps.len() && #[trigger] comps[k].contains(p)
}

/// Scanning a pixel that is not set, or already labelled, changes nothing.
proof fn lemma_skip_step(
    m: &BooleanMatrix,
    labels: Seq<usize>,
    cnt: usize,
    seeds: Seq<(int, int)>,
    comps: Seq<Seq<(int, int)>>,
    result: Seq<Vec<NeighborEdge>>,
    at: (int, int),
)
    requires
        m.wf(),
        scan_inv(m, labels, cnt, seeds, comps, result, at),
        m.in_bounds(at.0, at.1),
        !m.at(at.0, at.1) || lab(labels, m.width as int, at) != 0,
    ensures
        scan_inv(m, labels, cnt, seeds, comps, result, (at.0 + 1, at.1)),
{
    let w = m.width as int;
    assert forall|p: (int, int)| lit(m, p) && row_before(p, (at.0 + 1, at.1)) implies #[trigger] lab(labels, w, p) != 0 by {
        if p != at {
            assert(row_before(p, at));
        }
    }
}

/// The end of a row is the start of the next one.
proof fn lemma_row_step(
    m: &BooleanMatrix,
    labels: Seq<usize>,
    cnt: usize,
    seeds: Seq<(int, int)>,
    comps: Seq<Seq<(int, int)>>,
    result: Seq<Vec<NeighborEdge>>,
    y: int,
)
    requires
        m.wf(),
        scan_inv(m, labels, cnt, seeds, comps, result, (m.width as int, y)),
    ensures
        scan_inv(m, labels, cnt, seeds, comps, result, (0, y + 1)),
{
    let w = m.width as int;
    assert forall|p: (int, int)| lit(m, p) && row_before(p, (0, y + 1)) implies #[trigger] lab(labels, w, p) != 0 by {
        assert(row_before(p, (w, y)));
    }
    assert forall|k: int| 0 <= k < comps.len() implies row_before(#[trigger] seeds[k], (0, y + 1)) by {
        assert(sorted_points(comps[k]));
        assert(row_before(seeds[k], (w, y)));
    }
}

/// Labelling the component of a set, unlabelled pixel `s` and listing it
/// (when it has at least two pixels) moves the scan past `s`.
proof fn lemma_seed_step(
    m: &BooleanMatrix,
    l0: Seq<usize>,
    l1: Seq<usize>,
    cnt: usize,
    s: (int, int),
    c: Seq<(int, int)>,
    seeds: Seq<(int, int)>,
    comps: Seq<Seq<(int, int)>>,
    result: Seq<Vec<NeighborEdge>>,
    seeds2: Seq<(int, int)>,
    comps2: Seq<Seq<(int, int)>>,
    result2: Seq<Vec<NeighborEdge>>,
)
    requires
        m.wf(),
        cnt < usize::MAX,
        scan_inv(m, l0, cnt, seeds, comps, result, s),
        lit(m, s),
        lab(l0, m.width as int, s) == 0,
        grown(m, l0, l1, (cnt + 1) as usize, s),
        sorted_points(c),
        forall|p: (int, int)| #[trigger] c.contains(p) <==> (m.in_bounds(p.0, p.1) && lab(l1, m.width as int, p) == cnt + 1),
        c.len() >= 2 ==> {
            &&& seeds2 == seeds.push(s)
            &&& comps2 == comps.push(c)
            &&& result2.len() == result.len() + 1
            &&& result2.drop_last() == result
            &&& edges_along(result2.last()@, c)
        },
        c.len() < 2 ==> seeds2 == seeds && comps2 == comps && result2 == result,
    ensures
        scan_inv(m, l1, (cnt + 1) as usize, seeds2, comps2, result2, (s.0 + 1, s.1)),
{
    let w = m.width as int;
    let cur = (cnt + 1) as usize;
    let next = (s.0 + 1, s.1);
    assert forall|p: (int, int)| m.in_bounds(p.0, p.1) && #[trigger] lab(l1, w, p) == cur implies lab(l0, w, p) == 0 by {
        if lab(l0, w, p) != 0 {
            assert(lab(l0, w, p) <= cnt);
        }
    }
    assert(c.contains(s));
    assert forall|p: (int, int), q: (int, int)|
        #![trigger c.contains(p), c.contains(q)]
        c.contains(p) && touching(p, q) && lit(m, q) implies c.contains(q) by {
        assert(lab(l1, w, p) == cur);
        assert(lab(l1, w, q) != 0);
        if lab(l1, w, q) != cur {
            assert(lab(l0, w, q) != 0);
            assert(touching(q, p));
            assert(lab(l0, w, p) != 0);
        }
    }
    assert(is_component(m, s, c));
    assert forall|p: (int, int)| #[trigger] c.contains(p) implies !row_before(p, s) by {
        assert(lab(l1, w, p) == cur);
        if row_before(p, s) {
            assert(lab(l0, w, p) != 0);
        }
    }
    // labels
    assert forall|p: (int, int)| m.in_bounds(p.0, p.1) implies #[trigger] lab(l1, w, p) <= cur by {
        if lab(l1, w, p) != lab(l0, w, p) {
        } else {
            assert(lab(l0, w, p) <= cnt);
        }
    }
    assert forall|p: (int, int), q: (int, int)|
        #![trigger lab(l1, w, p), lab(l1, w, q)]
        m.in_bounds(p.0, p.1) && lab(l1, w, p) != 0 && touching(p, q) && lit(m, q) implies lab(l1, w, q) != 0 by {
        if lab(l1, w, p) != cur {
            assert(lab(l1, w, p) == lab(l0, w, p));
            assert(lab(l0, w, q) != 0);
        }
    }
    assert forall|p: (int, int)| lit(m, p) && row_before(p, next) implies #[trigger] lab(l1, w, p) != 0 by {
        if p != s {
            assert(row_before(p, s));
            assert(lab(l0, w, p) != 0);
        }
    }
    // listed components
    assert forall|k: int| 0 <= k < comps2.len() implies {
        &&& is_component(m, seeds2[k], #[trigger] comps2[k])
        &&& sorted_points(comps2[k])
        &&& comps2[k].len() >= 2
        &&& forall|p: (int, int)| #[trigger] comps2[k].contains(p) ==> !row_before(p, seeds2[k])
        &&& row_before(seeds2[k], next)
        &&& edges_along(result2[k]@, comps2[k])
    } by {
        if k < comps.len() {
            assert(comps2[k] == comps[k]);
            assert(seeds2[k] == seeds[k]);
            assert(result2[k] == result[k]) by {
                if c.len() >= 2 {
                    assert(result2.drop_last()[k] == result2[k]);
                }
            }
            assert(sorted_points(comps[k]));
        }
    }
    assert forall|k1: int, k2: int| 0 <= k1 < k2 < seeds2.len() implies row_before(#[trigger] seeds2[k1], #[trigger] seeds2[k2]) by {
        if k2 == seeds.len() {
            assert(sorted_points(comps[k1]));
        }
    }
    assert forall|p: (int, int), q: (int, int)|
        #![trigger lab(l1, w, p), lit(m, q)]
        m.in_bounds(p.0, p.1) && lab(l1, w, p) != 0 && touching(p, q) && lit(m, q)
            implies exists|k: int| 0 <= k < comps2.len() && #[trigger] comps2[k].contains(p) by {
        if lab(l0, w, p) != 0 {
            let k = choose|k: int| 0 <= k < comps.len() && #[trigger] comps[k].contains(p);
            assert(comps2[k] == comps[k]);
        } else {
            assert(lab(l1, w, p) == cur);
            assert(c.contains(p));
            assert(c.contains(q));
            if c.len() < 2 {
                let i1 = choose|i: int| 0 <= i < c.len() && c[i] == p;
                let i2 = choose|i: int| 0 <= i < c.len() && c[i] == q;
                assert(i1 != i2);
            } else {
                assert(comps2[comps.len() as int] == c);
            }
        }
    }
}

impl FeatureExtractor {
    /// Edges along the 8-connected components of set pixels that hold at
    /// least two pixels, one list per component in the row-major order of
    /// their first pixels: each links the component's pixels, sorted by `x`
    /// and then `y`, each to the next.
    pub fn build_edges(skeleton: &BooleanMatrix) -> (edges: Vec<Vec<NeighborEdge>>)
        requires
            skeleton.wf(),
        ensures
            exists|seeds: Seq<(int, int)>, comps: Seq<Seq<(int, int)>>| {
                &&& component_listing(skeleton, seeds, comps)
                &&& edges@.len() == comps.len()
                &&& forall|k: int| 0 <= k < comps.len() ==> edges_along(#[trigger] edges@[k]@, comps[k])
            },
    {
        let m = skeleton;
        let w = m.width;
        let h = m.height;
        let n = m.cells.len();
        let ghost wi = w as int;
        let mut labels: Vec<usize> = Vec::new();
        let mut i: usize = 0;
        while i < n
            invariant
                i <= n,
                labels@.len() == i,
                forall|j: int| 0 <= j < i ==> labels@[j] == 0,
            decreases n - i,
        {
            labels.push(0);
            i = i + 1;
        }
        let mut edges: Vec<Vec<NeighborEdge>> = Vec::new();
        let mut cnt: usize = 0;
        let ghost mut seeds: Seq<(int, int)> = Seq::empty();
        let ghost mut comps: Seq<Seq<(int, int)>> = Seq::empty();
        proof {
            assert forall|p: (int, int)| m.in_bounds(p.0, p.1) implies #[trigger] lab(labels@, wi, p) == 0 by {
                lemma_cell_index_bounds(p.0, p.1, wi, h as int);
            }
            assert(scan_inv(m, labels@, cnt, seeds, comps, edges@, (0, 0)));
            assert(cell_index(0, 0, wi) == 0);
        }
        let mut y: usize = 0;
        while y < h
            invariant
                m.wf(),
                w == m.width,
                h == m.height,
                wi == w,
                n == m.cells@.len(),
                y <= h,
                scan_inv(m, labels@, cnt, seeds, comps, edges@, (0, y as int)),
                cnt <= cell_index(0, y as int, wi),
            decreases h - y,
        {
            let mut x: usize = 0;
            while x < w
                invariant
                    m.wf(),
                    w == m.width,
                    h == m.height,
                    wi == w,
                    n == m.cells@.len(),
                    y < h,
                    x <= w,
                    scan_inv(m, labels@, cnt, seeds, comps, edges@, (x as int, y as int)),
                    cnt <= cell_index(x as int, y as int, wi),
                decreases w - x,
            {
                let ghost at = (x as int, y as int);
                proof {
                    lemma_cell_index_bounds(x as int, y as int, wi, h as int);
                }
                let j = y * w + x;
                if m.get(x, y) && labels[j] == 0 {
                    let cur = cnt + 1;
                    let ghost l0 = labels@;
                    let bbox = label_component(m, &mut labels, cur, x, y);
                    let c = collect_label(m, &labels, cur, bbox);
                    let ghost seeds0 = seeds;
                    let ghost comps0 = comps;
                    let ghost edges0 = edges@;
                    if c.len() >= 2 {
                        let es = chain_edges(&c);
                        edges.push(es);
                        proof {
                            seeds = seeds.push(at);
                            comps = comps.push(pts(c@));
                            assert(edges@.drop_last() =~= edges0);
                        }
                    }
                    proof {
                        lemma_seed_step(m, l0, labels@, cnt, at, pts(c@), seeds0, comps0, edges0, seeds, comps, edges@);
                    }
                    cnt = cur;
                } else {
                    proof {
                        lemma_skip_step(m, labels@, cnt, seeds, comps, edges@, at);
                    }
                }
                x = x + 1;
            }
            proof {
                lemma_row_step(m, labels@, cnt, seeds, comps, edges@, y as int);
                assert(cell_index(0, y + 1, wi) == cell_index(wi, y as int, wi)) by (nonlinear_arith);
            }
            y = y + 1;
        }
        proof {
            let l = labels@;
            assert forall|p: (int, int), q: (int, int)| #[trigger] lit(m, p) && touching(p, q) && #[trigger] lit(m, q)
                implies exists|k: int| 0 <= k < comps.len() && #[trigger] comps[k].contains(p) by {
                assert(row_before(p, (0, h as int)));
                assert(lab(l, wi, p) != 0);
            }
            assert(component_listing(m, seeds, comps));
        }
        edges
    }
}

} // verus!
