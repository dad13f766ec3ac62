use vstd::prelude::*;
use vstd::multiset::Multiset;
use std::collections::HashSet;
use crate::extractor::skeleton_graph::{lemma_same_positions_in_range, compacted, detached_where, joined, kept_list, lemma_compacted_source, lemma_detach_step, lemma_filter_keeps_all, lemma_kept_len, rank, ridge_detached, SkeletonGraph};
use crate::parameters::Parameters;
use crate::primitives::int_point::{line_len, line_point, IntPoint};
use crate::primitives::integers::Integers;
use crate::primitives::priority_queue::{HeapOrder, PriorityQueue};

verus! {

broadcast use {
    vstd::std_specs::hash::group_hash_axioms,
    vstd::multiset::group_multiset_axioms,
};

/// Whether the graph still has room for one more ridge pair.
fn has_room(graph: &SkeletonGraph) -> (r: bool)
    ensures
        r == (graph.ridges@.len() + 2 <= usize::MAX),
{
    graph.ridges.len() <= usize::MAX - 2
}

/// Removes minutiae without attached ridges (dots) along with detached
/// ridges. In a consistent graph a minutia lists exactly the attached ridges
/// that start at it, so the dots are the minutiae with empty lists and
/// dropping them is a compaction.
pub fn dot_filter(graph: &mut SkeletonGraph)
    requires
        old(graph).wf(),
    ensures
        compacted(*old(graph), *final(graph)),
        final(graph).wf(),
        final(graph).clean(),
        final(graph).minutiae@.len() <= old(graph).minutiae@.len(),
        old(graph).positions_in_range() ==> final(graph).positions_in_range(),
{
    let _ = graph.compact();
    proof {
        crate::extractor::skeleton_graph::lemma_rank_bounds(
            old(graph).minutiae_alive(),
            old(graph).minutiae@.len() as int,
            old(graph).minutiae@.len() as int,
        );
    }
}

/// The two ridges a pass-through minutia `m` of `g` merges: the twin of
/// its first ridge, which the merged ridge extends, and its second ridge,
/// which it absorbs — the other way round (twin of the second, twin of the
/// twin of the first) when the first one's twin has fewer points.
pub open spec fn knot_pair(g: SkeletonGraph, m: int) -> (usize, usize) {
    let r0 = g.listed(m)[0];
    let r1 = g.listed(m)[1];
    let extended = g.ridges@[r0 as int].reversed;
    if g.ridges@[extended as int].points@.len() < g.ridges@[r1 as int].points@.len() {
        (g.ridges@[r1 as int].reversed, g.ridges@[extended as int].reversed)
    } else {
        (extended, r1)
    }
}

/// `s` without its last point.
pub open spec fn all_but_last(s: Seq<IntPoint>) -> Seq<IntPoint> {
    if s.len() == 0 { s } else { s.subrange(0, s.len() - 1) }
}

/// What merging at minutia `m` does to `before`: when `m` has exactly two
/// ridges that are not the two directions of one loop, both merged ridges
/// (see `knot_pair`) are detached and, when both outer ends exist and the
/// graph has room, a ridge joins them through the points of the extended
/// ridge but its last and then all points of the absorbed one; otherwise
/// nothing changes.
pub open spec fn knot_step(before: SkeletonGraph, after: SkeletonGraph, m: int) -> bool {
    let l = before.listed(m);
    if l.len() == 2 && before.ridges@[l[0] as int].reversed != l[1] {
        let (extended, removed) = knot_pair(before, m);
        let points = all_but_last(before.ridges@[extended as int].points@) + before.ridges@[removed as int].points@;
        let s = before.ridges@[extended as int].start;
        let e = before.ridges@[removed as int].end;
        exists|mid1: SkeletonGraph, mid2: SkeletonGraph| {
            &&& ridge_detached(before, mid1, extended)
            &&& ridge_detached(mid1, mid2, removed)
            &&& if s is Some && e is Some && mid2.ridges@.len() + 2 <= usize::MAX {
                joined(mid2, after, s.unwrap(), e.unwrap(), points, mid2.ridges@.len() as usize)
            } else {
                after == mid2
            }
        }
    } else {
        after == before
    }
}

/// `after` is `before` with every pass-through minutia merged in turn, from
/// the first minutia to the last (see `knot_step`), and then compacted.
pub open spec fn knotted(before: SkeletonGraph, after: SkeletonGraph) -> bool {
    exists|chain: Seq<SkeletonGraph>| {
        &&& chain.len() == before.minutiae@.len() + 1
        &&& chain[0] == before
        &&& forall|k: int| 0 <= k < before.minutiae@.len() ==> knot_step(#[trigger] chain[k], chain[k + 1], k)
        &&& compacted(chain.last(), after)
    }
}

/// Merges pass-through minutiae: a minutia with exactly two ridges (other
/// than the two directions of one loop) is replaced by one ridge joining
/// the far ends of both, through the points of both. The longer ridge keeps
/// its direction. Dots are dropped afterwards.
pub fn knot_filter(graph: &mut SkeletonGraph)
    requires
        old(graph).wf(),
    ensures
        knotted(*old(graph), *final(graph)),
        final(graph).wf(),
        final(graph).clean(),
        old(graph).positions_in_range() ==> final(graph).positions_in_range(),
{
    let ghost start_graph = *graph;
    let ghost mut chain: Seq<SkeletonGraph> = seq![*graph];
    let nm = graph.minutiae.len();
    let mut m: usize = 0;
    while m < nm
        invariant
            graph.wf(),
            graph.same_positions(&start_graph),
            nm == graph.minutiae@.len(),
            m <= nm,
            chain.len() == m + 1,
            chain[0] == start_graph,
            chain[m as int] == *graph,
            forall|k: int| 0 <= k < m ==> knot_step(#[trigger] chain[k], chain[k + 1], k),
        decreases nm - m,
    {
        let ghost g0 = *graph;
        if graph.minutiae[m].ridges.len() == 2 {
            let r0 = graph.minutiae[m].ridges[0];
            let r1 = graph.minutiae[m].ridges[1];
            proof {
                graph.lemma_listed_attached(m as int, 0);
                graph.lemma_listed_attached(m as int, 1);
                assert(graph.ridge_ok(r0 as int));
                assert(graph.ridge_ok(r1 as int));
            }
            if graph.ridges[r0].reversed != r1 {
                let mut extended = graph.ridges[r0].reversed;
                let mut removed = r1;
                if graph.ridges[extended].points.len() < graph.ridges[removed].points.len() {
                    let previous = extended;
                    proof {
                        assert(graph.ridge_ok(removed as int));
                        assert(graph.ridge_ok(previous as int));
                    }
                    extended = graph.ridges[removed].reversed;
                    removed = graph.ridges[previous].reversed;
                }
                proof {
                    assert(graph.ridge_ok(extended as int));
                    assert(graph.ridge_ok(removed as int));
                    assert(graph.ridge_ok(graph.ridges@[extended as int].reversed as int));
                    assert(graph.ridge_ok(graph.ridges@[removed as int].reversed as int));
                }
                let mut points: Vec<IntPoint> = Vec::new();
                let ext_len = graph.ridges[extended].points.len();
                let mut k: usize = 0;
                while k + 1 < ext_len
                    invariant
                        extended < graph.ridges@.len(),
                        ext_len == graph.ridges@[extended as int].points@.len(),
                        k < ext_len || k == 0,
                        points@ == graph.ridges@[extended as int].points@.subrange(0, k as int),
                    decreases ext_len - k,
                {
                    points.push(graph.ridges[extended].points[k]);
                    k = k + 1;
                }
                proof {
                    assert(points@ =~= all_but_last(graph.ridges@[extended as int].points@));
                }
                let ghost prefix = points@;
                let rem_len = graph.ridges[removed].points.len();
                let mut k: usize = 0;
                while k < rem_len
                    invariant
                        removed < graph.ridges@.len(),
                        rem_len == graph.ridges@[removed as int].points@.len(),
                        k <= rem_len,
                        points@ == prefix + graph.ridges@[removed as int].points@.subrange(0, k as int),
                    decreases rem_len - k,
                {
                    points.push(graph.ridges[removed].points[k]);
                    proof {
                        assert(prefix + graph.ridges@[removed as int].points@.subrange(0, k + 1)
                            =~= (prefix + graph.ridges@[removed as int].points@.subrange(0, k as int)).push(graph.ridges@[removed as int].points@[k as int]));
                    }
                    k = k + 1;
                }
                proof {
                    assert(graph.ridges@[removed as int].points@.subrange(0, rem_len as int) =~= graph.ridges@[removed as int].points@);
                }
                let s = graph.ridges[extended].start;
                let e = graph.ridges[removed].end;
                let ghost merged = points@;
                proof {
                    assert((extended, removed) == knot_pair(g0, m as int));
                    assert(merged =~= all_but_last(g0.ridges@[extended as int].points@) + g0.ridges@[removed as int].points@);
                }
                graph.detach_ridge(extended);
                let ghost mid1 = *graph;
                graph.detach_ridge(removed);
                let ghost mid2 = *graph;
                proof {
                    assert(mid1.ridges@[removed as int].points@ == g0.ridges@[removed as int].points@) by {
                        assert(g0.ridge_ok(extended as int));
                    }
                }
                if let (Some(s), Some(e)) = (s, e) {
                    if has_room(graph) {
                        graph.connect(s, e, points);
                    }
                }
                proof {
                    assert(knot_step(g0, *graph, m as int));
                }
            }
        }
        proof {
            assert(knot_step(g0, *graph, m as int));
            chain = chain.push(*graph);
        }
        m = m + 1;
    }
    let ghost knotted_graph = *graph;
    dot_filter(graph);
    proof {
        assert(chain.last() == knotted_graph);
    }
}

/// For the `k`-th choice of exit at a minutia listing `l`: the exit ridge
/// and the two arms, in the order the minutia lists them from the exit on.
pub open spec fn pore_roles(l: Seq<usize>, k: int) -> (usize, usize, usize) {
    if k == 0 {
        (l[0], l[1], l[2])
    } else if k == 1 {
        (l[1], l[2], l[0])
    } else {
        (l[2], l[0], l[1])
    }
}

/// The `k`-th choice of exit at minutia `m` has the shape of a pore: both
/// arms end at the same minutia, the exit ends elsewhere, and neither
/// comes back to `m`.
pub open spec fn pore_shape(g: SkeletonGraph, m: int, k: int) -> bool {
    let (x, a1, a2) = pore_roles(g.listed(m), k);
    let e1 = g.ridges@[a1 as int].end;
    let e2 = g.ridges@[a2 as int].end;
    let ex = g.ridges@[x as int].end;
    e1 == e2 && ex != e1 && e1 != Some(m as usize) && ex != Some(m as usize)
}

/// The first choice of exit at `m` that has the shape of a pore; 3 when
/// none has.
pub open spec fn pore_exit(g: SkeletonGraph, m: int) -> int {
    if pore_shape(g, m, 0) {
        0
    } else if pore_shape(g, m, 1) {
        1
    } else if pore_shape(g, m, 2) {
        2
    } else {
        3
    }
}

/// What merging a pore at minutia `m` does to `before`: when `m` has three
/// ridges, the first exit with the shape of a pore ends its arms at a
/// minutia with three ridges, and both arms have at most `MAX_PORE_ARM`
/// points, both arms are detached and, when the graph has room, a ridge
/// along the straight line joins `m` to that minutia; otherwise nothing
/// changes.
pub open spec fn pore_step(before: SkeletonGraph, after: SkeletonGraph, m: int) -> bool {
    let l = before.listed(m);
    let k = pore_exit(before, m);
    let (x, a1, a2) = pore_roles(l, k);
    let e = before.ridges@[a1 as int].end;
    if l.len() == 3 && k < 3 && e is Some && before.listed(e.unwrap() as int).len() == 3
        && before.ridges@[a1 as int].points@.len() <= Parameters::MAX_PORE_ARM
        && before.ridges@[a2 as int].points@.len() <= Parameters::MAX_PORE_ARM {
        exists|mid1: SkeletonGraph, mid2: SkeletonGraph| {
            &&& ridge_detached(before, mid1, a1)
            &&& ridge_detached(mid1, mid2, a2)
            &&& if mid2.ridges@.len() + 2 <= usize::MAX {
                joined(mid2, after, m as usize, e.unwrap(), gap_line(before, m, e.unwrap() as int), mid2.ridges@.len() as usize)
            } else {
                after == mid2
            }
        }
    } else {
        after == before
    }
}

/// `after` is `before` with the pores at each minutia merged in turn, from
/// the first minutia to the last (see `pore_step`).
pub open spec fn pores_merged(before: SkeletonGraph, after: SkeletonGraph) -> bool {
    exists|chain: Seq<SkeletonGraph>| {
        &&& chain.len() == before.minutiae@.len() + 1
        &&& chain[0] == before
        &&& forall|k: int| 0 <= k < before.minutiae@.len() ==> pore_step(#[trigger] chain[k], chain[k + 1], k)
        &&& chain.last() == after
    }
}

/// Merges pores: a minutia with three ridges where two of them (the arms,
/// at most `MAX_PORE_ARM` points each) end at the same other three-ridge
/// minutia, and the third does not. Both arms are replaced by one straight
/// ridge. Pass-through minutiae are merged afterwards.
pub fn pore_filter(graph: &mut SkeletonGraph)
    requires
        old(graph).wf(),
        old(graph).positions_in_range(),
    ensures
        pores_filtered(*old(graph), *final(graph)),
        final(graph).wf(),
        final(graph).clean(),
        final(graph).positions_in_range(),
{
    let ghost start_graph = *graph;
    let ghost mut chain: Seq<SkeletonGraph> = seq![*graph];
    let nm = graph.minutiae.len();
    let mut m: usize = 0;
    while m < nm
        invariant
            graph.wf(),
            graph.same_positions(&start_graph),
            start_graph.positions_in_range(),
            nm == graph.minutiae@.len(),
            m <= nm,
            chain.len() == m + 1,
            chain[0] == start_graph,
            chain[m as int] == *graph,
            forall|k: int| 0 <= k < m ==> pore_step(#[trigger] chain[k], chain[k + 1], k),
        decreases nm - m,
    {
        let ghost g0 = *graph;
        if graph.minutiae[m].ridges.len() == 3 {
            let live0 = graph.minutiae[m].ridges[0];
            let live1 = graph.minutiae[m].ridges[1];
            let live2 = graph.minutiae[m].ridges[2];
            proof {
                graph.lemma_listed_attached(m as int, 0);
                graph.lemma_listed_attached(m as int, 1);
                graph.lemma_listed_attached(m as int, 2);
                assert(g0.listed(m as int) =~= seq![live0, live1, live2]);
            }
            let mut exit: usize = 0;
            while exit < 3
                invariant_except_break
                    *graph == g0,
                    exit <= 3,
                    forall|j: int| 0 <= j < exit ==> !pore_shape(g0, m as int, j),
                invariant
                    graph.wf(),
                    graph.same_positions(&start_graph),
                    start_graph.positions_in_range(),
                    nm == graph.minutiae@.len(),
                    m < nm,
                    g0.wf(),
                    g0.listed(m as int) == seq![live0, live1, live2],
                    live0 < g0.ridges@.len(),
                    live1 < g0.ridges@.len(),
                    live2 < g0.ridges@.len(),
                ensures
                    pore_step(g0, *graph, m as int),
                decreases 3 - exit,
            {
                let exit_ridge = if exit == 0 { live0 } else if exit == 1 { live1 } else { live2 };
                let arm1 = if exit == 0 { live1 } else if exit == 1 { live2 } else { live0 };
                let arm2 = if exit == 0 { live2 } else if exit == 1 { live0 } else { live1 };
                proof {
                    assert(pore_roles(g0.listed(m as int), exit as int) == (exit_ridge, arm1, arm2));
                }
                let arm1_end = graph.ridges[arm1].end;
                let arm2_end = graph.ridges[arm2].end;
                let exit_end = graph.ridges[exit_ridge].end;
                if arm1_end == arm2_end && exit_end != arm1_end && arm1_end != Some(m) && exit_end != Some(m) {
                    proof {
                        assert(pore_shape(g0, m as int, exit as int));
                        assert(pore_exit(g0, m as int) == exit as int);
                    }
                    if let Some(end) = arm1_end {
                        proof {
                            assert(graph.ridge_ok(arm1 as int));
                        }
                        let arm1_len = graph.ridges[arm1].points.len();
                        let arm2_len = graph.ridges[arm2].points.len();
                        let end_ridge_count = graph.minutiae[end].ridges.len();
                        if end_ridge_count == 3 && arm1_len <= Parameters::MAX_PORE_ARM
                            && arm2_len <= Parameters::MAX_PORE_ARM {
                            graph.detach_ridge(arm1);
                            let ghost mid1 = *graph;
                            graph.detach_ridge(arm2);
                            let ghost mid2 = *graph;
                            proof {
                                assert(start_graph.minutiae@[m as int].position == graph.minutiae@[m as int].position);
                                assert(start_graph.minutiae@[end as int].position == graph.minutiae@[end as int].position);
                            }
                            let line = graph.minutiae[m].position.line_to(&graph.minutiae[end].position);
                            proof {
                                assert(line@ =~= gap_line(g0, m as int, end as int));
                            }
                            if has_room(graph) {
                                graph.connect(m, end, line);
                            }
                            proof {
                                assert(pore_step(g0, *graph, m as int));
                            }
                        }
                    }
                    break;
                }
                exit = exit + 1;
            }
        }
        proof {
            assert(pore_step(g0, *graph, m as int));
            chain = chain.push(*graph);
        }
        m = m + 1;
    }
    let ghost merged = *graph;
    proof {
        assert(chain.last() == merged);
        lemma_same_positions_in_range(start_graph, *graph);
    }
    knot_filter(graph);
}

/// A candidate join of two endings, ordered by squared distance.
#[derive(Clone, Copy, Debug, Default, PartialEq, Eq, Structural)]
pub struct SkeletonGap {
    pub distance: i64,
    pub end1: usize,
    pub end2: usize,
}

impl HeapOrder for SkeletonGap {
    /// Closer endings come first.
    open spec fn rank(&self) -> int {
        self.distance as int
    }

    fn precedes(&self, other: &Self) -> (r: bool) {
        self.distance < other.distance
    }
}

/// Whether the angle between the vectors `u` and `v` is wider than 45°.
/// A zero vector points along the x axis.
pub open spec fn wider_than_eighth_turn(ux: int, uy: int, vx: int, vy: int) -> bool {
    let ax = if ux == 0 && uy == 0 { 1 } else { ux };
    let ay = if ux == 0 && uy == 0 { 0 } else { uy };
    let bx = if vx == 0 && vy == 0 { 1 } else { vx };
    let by = if vx == 0 && vy == 0 { 0 } else { vy };
    let dot = ax * bx + ay * by;
    dot < 0 || 2 * (dot * dot) < (ax * ax + ay * ay) * (bx * bx + by * by)
}

/// Exact test of `wider_than_eighth_turn` for `|u| < 2^33` and `|v| < 2^16` per axis.
fn is_wider_than_eighth_turn(ux: i64, uy: i64, vx: i64, vy: i64) -> (r: bool)
    requires
        -0x2_0000_0000 <= ux <= 0x2_0000_0000,
        -0x2_0000_0000 <= uy <= 0x2_0000_0000,
        -0x1_0000 <= vx <= 0x1_0000,
        -0x1_0000 <= vy <= 0x1_0000,
    ensures
        r == wider_than_eighth_turn(ux as int, uy as int, vx as int, vy as int),
{
    let ax: i128 = if ux == 0 && uy == 0 { 1 } else { ux as i128 };
    let ay: i128 = if ux == 0 && uy == 0 { 0 } else { uy as i128 };
    let bx: i128 = if vx == 0 && vy == 0 { 1 } else { vx as i128 };
    let by: i128 = if vx == 0 && vy == 0 { 0 } else { vy as i128 };
    assert(-0x2_0000_0000_0000 <= ax * bx <= 0x2_0000_0000_0000) by (nonlinear_arith)
        requires -0x2_0000_0000 <= ax <= 0x2_0000_0000, -0x1_0000 <= bx <= 0x1_0000;
    assert(-0x2_0000_0000_0000 <= ay * by <= 0x2_0000_0000_0000) by (nonlinear_arith)
        requires -0x2_0000_0000 <= ay <= 0x2_0000_0000, -0x1_0000 <= by <= 0x1_0000;
    let dot = ax * bx + ay * by;
    assert(0 <= dot * dot <= 0x10_0000_0000_0000_0000_0000_0000) by (nonlinear_arith)
        requires -0x4_0000_0000_0000 <= dot <= 0x4_0000_0000_0000;
    assert(0 <= ax * ax <= 0x4_0000_0000_0000_0000) by (nonlinear_arith)
        requires -0x2_0000_0000 <= ax <= 0x2_0000_0000;
    assert(0 <= ay * ay <= 0x4_0000_0000_0000_0000) by (nonlinear_arith)
        requires -0x2_0000_0000 <= ay <= 0x2_0000_0000;
    assert(0 <= bx * bx <= 0x1_0000_0000) by (nonlinear_arith)
        requires -0x1_0000 <= bx <= 0x1_0000;
    assert(0 <= by * by <= 0x1_0000_0000) by (nonlinear_arith)
        requires -0x1_0000 <= by <= 0x1_0000;
    let nu = ax * ax + ay * ay;
    let nv = bx * bx + by * by;
    assert(0 <= nu * nv <= 0x8_0000_0000_0000_0000 * 0x2_0000_0000) by (nonlinear_arith)
        requires 0 <= nu <= 0x8_0000_0000_0000_0000, 0 <= nv <= 0x2_0000_0000;
    dot < 0 || 2 * (dot * dot) < nu * nv
}

/// The point that gives the direction of the ridge leaving an ending: the
/// point `GAP_ANGLE_OFFSET` along its only ridge, or the far end when the
/// ridge is shorter.
pub open spec fn gap_angle_sample(g: SkeletonGraph, m: int) -> IntPoint {
    let r = g.ridges@[g.listed(m)[0] as int];
    if Parameters::GAP_ANGLE_OFFSET < r.points@.len() {
        r.points@[Parameters::GAP_ANGLE_OFFSET as int]
    } else {
        g.minutiae@[r.end.unwrap() as int].position
    }
}

fn angle_sample_for_gap_removal(graph: &SkeletonGraph, minutia: usize) -> (p: IntPoint)
    requires
        graph.wf(),
        minutia < graph.minutiae@.len(),
        graph.listed(minutia as int).len() > 0,
    ensures
        p == gap_angle_sample(*graph, minutia as int),
{
    let ridge = graph.minutiae[minutia].ridges[0];
    proof {
        graph.lemma_listed_attached(minutia as int, 0);
    }
    if Parameters::GAP_ANGLE_OFFSET < graph.ridges[ridge].points.len() {
        graph.ridges[ridge].points[Parameters::GAP_ANGLE_OFFSET]
    } else {
        let end = graph.ridges[ridge].end.unwrap();
        graph.minutiae[end].position
    }
}

/// Squared distance between two points.
pub open spec fn distance_sq(p: IntPoint, q: IntPoint) -> int {
    (p.x - q.x) * (p.x - q.x) + (p.y - q.y) * (p.y - q.y)
}

/// Whether the endings `end1` and `end2` may be joined: they are at most
/// `MAX_RUPTURE_SIZE` apart, or at most `MAX_GAP_SIZE` apart with both ridges
/// pointing into the gap, each within 45° of the line joining them.
pub open spec fn within_gap_limits(g: SkeletonGraph, end1: int, end2: int) -> bool {
    let p1 = g.minutiae@[end1].position;
    let p2 = g.minutiae@[end2].position;
    let d = distance_sq(p1, p2);
    let s1 = gap_angle_sample(g, end1);
    let s2 = gap_angle_sample(g, end2);
    if d <= 25 {
        true
    } else if d > 400 {
        false
    } else {
        !wider_than_eighth_turn(s1.x - p1.x, s1.y - p1.y, p1.x - p2.x, p1.y - p2.y)
            && !wider_than_eighth_turn(s2.x - p2.x, s2.y - p2.y, p2.x - p1.x, p2.y - p1.y)
    }
}

/// Endings `a` and `b` of `g` may be joined across a gap: distinct
/// minutiae with a single ridge each, of at least `SHORTEST_ENDED_MINUTIA`
/// points, not the two ends of one ridge, and within the gap limits.
pub open spec fn gap_candidate(g: SkeletonGraph, a: int, b: int) -> bool {
    &&& 0 <= a < g.minutiae@.len()
    &&& 0 <= b < g.minutiae@.len()
    &&& a != b
    &&& g.listed(a).len() == 1
    &&& g.listed(b).len() == 1
    &&& g.ridges@[g.listed(a)[0] as int].points@.len() >= Parameters::SHORTEST_ENDED_MINUTIA
    &&& g.ridges@[g.listed(b)[0] as int].points@.len() >= Parameters::SHORTEST_ENDED_MINUTIA
    &&& g.ridges@[g.listed(a)[0] as int].end != Some(b as usize)
    &&& within_gap_limits(g, a, b)
}

/// The points of the straight line from minutia `a` to minutia `b`.
pub open spec fn gap_line(g: SkeletonGraph, a: int, b: int) -> Seq<IntPoint> {
    let pa = g.minutiae@[a].position;
    let pb = g.minutiae@[b].position;
    Seq::new(line_len(pa, pb) as nat, |k: int| line_point(pa, pb, k))
}

/// `after` is `before` with ridges added in pairs across gaps: the same
/// minutiae at the same positions, the old ridges unchanged, and each new
/// ridge running along the straight line between two gap candidates `a`
/// and `b` of `before`, from `a` to `b` or back.
pub open spec fn gaps_joined(before: SkeletonGraph, after: SkeletonGraph) -> bool {
    &&& after.wf()
    &&& after.same_positions(&before)
    &&& after.ridges@.len() >= before.ridges@.len()
    &&& forall|i: int| 0 <= i < before.ridges@.len() ==> #[trigger] after.ridges@[i] == before.ridges@[i]
    &&& forall|i: int| #![trigger after.ridges@[i]] before.ridges@.len() <= i < after.ridges@.len() ==> exists|a: int, b: int| {
        &&& #[trigger] gap_candidate(before, a, b)
        &&& {
            ||| after.ridges@[i].start == Some(a as usize) && after.ridges@[i].end == Some(b as usize)
                && after.ridges@[i].points@ == gap_line(before, a, b)
            ||| after.ridges@[i].start == Some(b as usize) && after.ridges@[i].end == Some(a as usize)
                && after.ridges@[i].points@ == gap_line(before, a, b).reverse()
        }
    }
}

/// Squared distance of two minutiae whose coordinates differ by less than
/// `2^31` on each axis.
fn position_distance_sq(p1: &IntPoint, p2: &IntPoint) -> (d: i64)
    requires
        -0x7fff_ffff <= p1.x - p2.x <= 0x7fff_ffff,
        -0x7fff_ffff <= p1.y - p2.y <= 0x7fff_ffff,
    ensures
        d == distance_sq(*p1, *p2),
        d >= 0,
{
    let dx = p1.x as i64 - p2.x as i64;
    let dy = p1.y as i64 - p2.y as i64;
    assert(0 <= dx * dx <= 0x7fff_ffff * 0x7fff_ffff) by (nonlinear_arith) requires -0x7fff_ffff <= dx <= 0x7fff_ffff;
    assert(0 <= dy * dy <= 0x7fff_ffff * 0x7fff_ffff) by (nonlinear_arith) requires -0x7fff_ffff <= dy <= 0x7fff_ffff;
    dx * dx + dy * dy
}

/// Endings farther apart than `MAX_RUPTURE_SIZE` are only within the gap
/// limits when each one's ridge points into the gap: the vector from the
/// ending back along its ridge (to its angle sample) makes an angle of at
/// most 45° with the vector from the other ending to it, that is their dot
/// product `d` is not negative and `2·d² ≥ |u|²·|v|²`. So endings whose
/// ridges run across the gap direction, or away from it, are never joined,
/// and endings more than `MAX_GAP_SIZE` apart never are.
pub proof fn law_gap_limits_direction(g: SkeletonGraph, e1: int, e2: int)
    requires
        within_gap_limits(g, e1, e2),
        distance_sq(g.minutiae@[e1].position, g.minutiae@[e2].position) > 25,
    ensures
        distance_sq(g.minutiae@[e1].position, g.minutiae@[e2].position) <= 400,
        ({
            let p1 = g.minutiae@[e1].position;
            let p2 = g.minutiae@[e2].position;
            let s1 = gap_angle_sample(g, e1);
            let (ux, uy) = (s1.x - p1.x, s1.y - p1.y);
            let (vx, vy) = (p1.x - p2.x, p1.y - p2.y);
            let d = ux * vx + uy * vy;
            (ux != 0 || uy != 0) ==> d >= 0 && 2 * (d * d) >= (ux * ux + uy * uy) * (vx * vx + vy * vy)
        }),
        ({
            let p1 = g.minutiae@[e1].position;
            let p2 = g.minutiae@[e2].position;
            let s2 = gap_angle_sample(g, e2);
            let (ux, uy) = (s2.x - p2.x, s2.y - p2.y);
            let (vx, vy) = (p2.x - p1.x, p2.y - p1.y);
            let d = ux * vx + uy * vy;
            (ux != 0 || uy != 0) ==> d >= 0 && 2 * (d * d) >= (ux * ux + uy * uy) * (vx * vx + vy * vy)
        }),
{
    let p1 = g.minutiae@[e1].position;
    let p2 = g.minutiae@[e2].position;
    assert(p1.x - p2.x != 0 || p1.y - p2.y != 0);
}

/// Endings at most `MAX_RUPTURE_SIZE` apart are always within the gap limits,
/// whatever their ridges' directions; endings farther apart than
/// `MAX_GAP_SIZE` never are.
pub proof fn law_gap_limits_distance(g: SkeletonGraph, e1: int, e2: int)
    ensures
        distance_sq(g.minutiae@[e1].position, g.minutiae@[e2].position)
            <= (Parameters::MAX_RUPTURE_SIZE as int) * (Parameters::MAX_RUPTURE_SIZE as int) ==> within_gap_limits(g, e1, e2),
        distance_sq(g.minutiae@[e1].position, g.minutiae@[e2].position)
            > (Parameters::MAX_GAP_SIZE as int) * (Parameters::MAX_GAP_SIZE as int) ==> !within_gap_limits(g, e1, e2),
{
}

/// Whether two endings may be joined across a gap (see `within_gap_limits`).
pub fn is_within_gap_limits(graph: &SkeletonGraph, end1: usize, end2: usize) -> (r: bool)
    requires
        graph.wf(),
        graph.positions_in_range(),
        end1 < graph.minutiae@.len(),
        end2 < graph.minutiae@.len(),
        graph.listed(end1 as int).len() > 0,
        graph.listed(end2 as int).len() > 0,
    ensures
        r == within_gap_limits(*graph, end1 as int, end2 as int),
{
    let p1 = graph.minutiae[end1].position;
    let p2 = graph.minutiae[end2].position;
    proof {
        assert(graph.minutiae@[end1 as int].position == p1);
        assert(graph.minutiae@[end2 as int].position == p2);
    }
    proof {
        assert(graph.minutiae@[end1 as int].position == p1 && graph.minutiae@[end2 as int].position == p2);
    }
    let distance_sq = position_distance_sq(&p1, &p2);
    if distance_sq <= Integers::sq(Parameters::MAX_RUPTURE_SIZE as i32) as i64 {
        return true;
    }
    if distance_sq > Integers::sq(Parameters::MAX_GAP_SIZE as i32) as i64 {
        return false;
    }
    proof {
        let dx = p1.x - p2.x;
        let dy = p1.y - p2.y;
        assert(-20 <= dx <= 20 && -20 <= dy <= 20) by (nonlinear_arith)
            requires dx * dx + dy * dy <= 400;
    }
    let sample1 = angle_sample_for_gap_removal(graph, end1);
    if is_wider_than_eighth_turn(
        sample1.x as i64 - p1.x as i64,
        sample1.y as i64 - p1.y as i64,
        p1.x as i64 - p2.x as i64,
        p1.y as i64 - p2.y as i64,
    ) {
        return false;
    }
    let sample2 = angle_sample_for_gap_removal(graph, end2);
    if is_wider_than_eighth_turn(
        sample2.x as i64 - p2.x as i64,
        sample2.y as i64 - p2.y as i64,
        p2.x as i64 - p1.x as i64,
        p2.y as i64 - p1.y as i64,
    ) {
        return false;
    }
    true
}

/// Key of a point in the shadow set (distinct points have distinct keys).
pub open spec fn point_key(p: IntPoint) -> int {
    p.x * 0x1_0000_0000 + (p.y + 0x8000_0000)
}

pub fn key_of(p: &IntPoint) -> (k: i64)
    ensures
        k == point_key(*p),
{
    p.x as i64 * 0x1_0000_0000 + (p.y as i64 + 0x8000_0000)
}

/// The gap record of the endings `a` and `b` of `g`: their squared distance
/// and the two minutiae.
pub open spec fn gap_of(g: SkeletonGraph, a: int, b: int) -> SkeletonGap {
    SkeletonGap {
        distance: distance_sq(g.minutiae@[a].position, g.minutiae@[b].position) as i64,
        end1: a as usize,
        end2: b as usize,
    }
}

/// The gap records of the candidates `(a, b)` with `b < n`, in order of `b`.
pub open spec fn candidate_row(g: SkeletonGraph, a: int, n: int) -> Seq<SkeletonGap>
    decreases n,
{
    if n <= 0 {
        Seq::empty()
    } else {
        let prev = candidate_row(g, a, n - 1);
        if gap_candidate(g, a, n - 1) {
            prev.push(gap_of(g, a, n - 1))
        } else {
            prev
        }
    }
}

/// The gap records of the candidates `(a, b)` with `a < n`, in order of
/// `a`, then `b`.
pub open spec fn candidate_seq(g: SkeletonGraph, n: int) -> Seq<SkeletonGap>
    decreases n,
{
    if n <= 0 {
        Seq::empty()
    } else {
        candidate_seq(g, n - 1) + candidate_row(g, n - 1, g.minutiae@.len() as int)
    }
}

/// How many gap records the queue takes at most.
pub open spec fn gap_queue_limit() -> int {
    usize::MAX / 2 - 1
}

/// The first `gap_queue_limit()` records of `s` (all of them when fewer).
pub open spec fn capped(s: Seq<SkeletonGap>) -> Seq<SkeletonGap> {
    if s.len() <= gap_queue_limit() {
        s
    } else {
        s.subrange(0, gap_queue_limit())
    }
}

/// `order` holds the records of `cands`, closest first (ties in any order).
pub open spec fn gap_order(cands: Seq<SkeletonGap>, order: Seq<SkeletonGap>) -> bool {
    &&& order.to_multiset() == cands.to_multiset()
    &&& forall|i: int, j: int| 0 <= i < j < order.len() ==> (#[trigger] order[i]).distance <= (#[trigger] order[j]).distance
}

/// Keys of the points of the attached ridges of `g`.
pub open spec fn ridge_shadow(g: SkeletonGraph) -> Set<i64> {
    Set::new(|key: i64| exists|r: int, t: int| #![trigger g.ridges@[r].points@[t]]
        0 <= r < g.ridges@.len() && g.attached(r) && 0 <= t < g.ridges@[r].points@.len()
            && key == point_key(g.ridges@[r].points@[t]) as i64)
}

/// Keys of the first `n` points of `line`.
pub open spec fn line_keys(line: Seq<IntPoint>, n: int) -> Set<i64> {
    Set::new(|key: i64| exists|k: int| #![trigger line[k]] 0 <= k < n && key == point_key(line[k]) as i64)
}

/// How many points at each end of a gap line may touch what is there.
pub open spec fn gap_skip(line: Seq<IntPoint>) -> int {
    if (Parameters::TOLERATED_GAP_OVERLAP as int) < (line.len() as int) / 2 {
        Parameters::TOLERATED_GAP_OVERLAP as int
    } else {
        (line.len() as int) / 2
    }
}

/// Whether a point of `line` among those from `from` up to `to` (excluded)
/// has its key in `shadow`.
pub open spec fn line_hits(line: Seq<IntPoint>, shadow: Set<i64>, from: int, to: int) -> bool {
    exists|k: int| #![trigger line[k]] from <= k < to && shadow.contains(point_key(line[k]) as i64)
}

/// The joins accepted among the first `n` records of `order`, and the keys
/// of the points that are taken: a record is accepted when its line, without
/// `gap_skip` points at each end, meets no taken point; its line's points
/// are then taken.
pub open spec fn accept_state(g: SkeletonGraph, order: Seq<SkeletonGap>, n: int) -> (Seq<(usize, usize)>, Set<i64>)
    decreases n,
{
    if n <= 0 {
        (Seq::empty(), ridge_shadow(g))
    } else {
        let prev = accept_state(g, order, n - 1);
        let gap = order[n - 1];
        let line = gap_line(g, gap.end1 as int, gap.end2 as int);
        if line_hits(line, prev.1, gap_skip(line), line.len() - gap_skip(line)) {
            prev
        } else {
            (prev.0.push((gap.end1, gap.end2)), prev.1.union(line_keys(line, line.len() as int)))
        }
    }
}

/// One join of the accepted pair `(a, b)`: when both still have a single
/// ridge (and the graph has room), `after` is `before` with them joined
/// along the straight line between them; otherwise nothing changes.
pub open spec fn join_step(before: SkeletonGraph, after: SkeletonGraph, a: usize, b: usize) -> bool {
    if before.listed(a as int).len() == 1 && before.listed(b as int).len() == 1 && before.ridges@.len() + 2 <= usize::MAX {
        joined(before, after, a, b, gap_line(before, a as int, b as int), before.ridges@.len() as usize)
    } else {
        after == before
    }
}

/// `graphs` runs from `start` through one `join_step` per pair of `pairs`.
pub open spec fn joins_applied(start: SkeletonGraph, pairs: Seq<(usize, usize)>, graphs: Seq<SkeletonGraph>) -> bool {
    &&& graphs.len() == pairs.len() + 1
    &&& graphs[0] == start
    &&& forall|i: int| 0 <= i < pairs.len() ==> #[trigger] join_step(graphs[i], graphs[i + 1], pairs[i].0, pairs[i].1)
}

/// Endings without a single ridge of `SHORTEST_ENDED_MINUTIA` points or
/// more are in no candidate.
proof fn lemma_row_empty(g: SkeletonGraph, a: int, n: int)
    requires
        !(g.listed(a).len() == 1 && g.ridges@[g.listed(a)[0] as int].points@.len() >= Parameters::SHORTEST_ENDED_MINUTIA),
    ensures
        candidate_row(g, a, n) == Seq::<SkeletonGap>::empty(),
    decreases n,
{
    if n > 0 {
        lemma_row_empty(g, a, n - 1);
    }
}

/// Keys of the points of the attached ridges of `g` before ridge `r`, and
/// of the first `k` points of ridge `r` when it is attached.
pub open spec fn shadow_upto(g: SkeletonGraph, r: int, k: int) -> Set<i64> {
    Set::new(|key: i64| exists|r2: int, t: int| #![trigger g.ridges@[r2].points@[t]]
        0 <= r2 < g.ridges@.len() && g.attached(r2) && 0 <= t < g.ridges@[r2].points@.len()
            && (r2 < r || (r2 == r && t < k)) && key == point_key(g.ridges@[r2].points@[t]) as i64)
}

/// One more point of an attached ridge adds its key.
proof fn lemma_shadow_step(g: SkeletonGraph, r: int, k: int)
    requires
        0 <= r < g.ridges@.len(),
        g.attached(r),
        0 <= k < g.ridges@[r].points@.len(),
    ensures
        shadow_upto(g, r, k + 1) == shadow_upto(g, r, k).insert(point_key(g.ridges@[r].points@[k]) as i64),
{
    let key = point_key(g.ridges@[r].points@[k]) as i64;
    assert forall|x: i64| #[trigger] shadow_upto(g, r, k + 1).contains(x) implies shadow_upto(g, r, k).insert(key).contains(x) by {
        let (r2, t) = choose|r2: int, t: int| #![trigger g.ridges@[r2].points@[t]]
            0 <= r2 < g.ridges@.len() && g.attached(r2) && 0 <= t < g.ridges@[r2].points@.len()
                && (r2 < r || (r2 == r && t < k + 1)) && x == point_key(g.ridges@[r2].points@[t]) as i64;
        if !(r2 == r && t == k) {
            assert(shadow_upto(g, r, k).contains(x));
        }
    }
    assert forall|x: i64| #[trigger] shadow_upto(g, r, k).insert(key).contains(x) implies shadow_upto(g, r, k + 1).contains(x) by {
        if x == key {
            assert(g.ridges@[r].points@[k] == g.ridges@[r].points@[k]);
        } else {
            let (r2, t) = choose|r2: int, t: int| #![trigger g.ridges@[r2].points@[t]]
                0 <= r2 < g.ridges@.len() && g.attached(r2) && 0 <= t < g.ridges@[r2].points@.len()
                    && (r2 < r || (r2 == r && t < k)) && x == point_key(g.ridges@[r2].points@[t]) as i64;
            assert(g.ridges@[r2].points@[t] == g.ridges@[r2].points@[t]);
        }
    }
    assert(shadow_upto(g, r, k + 1) =~= shadow_upto(g, r, k).insert(key));
}

/// Past the points of ridge `r` (all of them when it is attached) the keys
/// are those before ridge `r + 1`.
proof fn lemma_shadow_next(g: SkeletonGraph, r: int)
    requires
        0 <= r < g.ridges@.len(),
    ensures
        g.attached(r) ==> shadow_upto(g, r, g.ridges@[r].points@.len() as int) == shadow_upto(g, r + 1, 0),
        !g.attached(r) ==> shadow_upto(g, r, 0) == shadow_upto(g, r + 1, 0),
{
    let n = g.ridges@[r].points@.len() as int;
    if g.attached(r) {
        assert(shadow_upto(g, r, n) =~= shadow_upto(g, r + 1, 0));
    } else {
        assert(shadow_upto(g, r, 0) =~= shadow_upto(g, r + 1, 0));
    }
}

/// What is accepted among the first `n` records depends on those records only.
proof fn lemma_accept_prefix(g: SkeletonGraph, s: Seq<SkeletonGap>, t: Seq<SkeletonGap>, n: int)
    requires
        0 <= n <= s.len(),
        n <= t.len(),
        forall|i: int| 0 <= i < n ==> s[i] == t[i],
    ensures
        accept_state(g, s, n) == accept_state(g, t, n),
    decreases n,
{
    if n > 0 {
        lemma_accept_prefix(g, s, t, n - 1);
    }
}

/// Joins endings across gaps. Every pair of distinct endings whose ridges
/// have at least `SHORTEST_ENDED_MINUTIA` points, that are not the two ends
/// of one ridge and that are within the gap limits becomes a candidate.
/// Candidates are taken closest first; one is accepted when the straight
/// line between its endings, without `TOLERATED_GAP_OVERLAP` points (at most
/// half the line) at each end, crosses no ridge point or accepted line. Accepted joins are then connected in order while both
/// ends still have a single ridge. Pass-through minutiae are merged
/// afterwards. The queue takes at most `gap_queue_limit()` candidates.
pub fn gap_filter(graph: &mut SkeletonGraph)
    requires
        old(graph).wf(),
        old(graph).positions_in_range(),
    ensures
        gaps_filtered(*old(graph), *final(graph)),
        final(graph).wf(),
        final(graph).clean(),
        final(graph).positions_in_range(),
{
    let ghost start_graph = *graph;
    let count = graph.minutiae.len();
    let mut queue: PriorityQueue<SkeletonGap> = PriorityQueue::new();
    let ghost mut enumerated: Seq<SkeletonGap> = Seq::empty();
    proof {
        broadcast use vstd::seq_lib::group_to_multiset_ensures;
        assert(capped(enumerated).to_multiset() =~= Multiset::<SkeletonGap>::empty());
    }
    let mut end1: usize = 0;
    while end1 < count
        invariant
            *graph == start_graph,
            graph.wf(),
            graph.positions_in_range(),
            count == graph.minutiae@.len(),
            end1 <= count,
            queue.wf(),
            forall|x: SkeletonGap| queue.contents().contains(x) ==> x.end1 < count && x.end2 < count,
            forall|x: SkeletonGap| queue.contents().contains(x) ==> gap_candidate(start_graph, x.end1 as int, x.end2 as int),
            enumerated == candidate_seq(start_graph, end1 as int),
            queue.contents() == capped(enumerated).to_multiset(),
        decreases count - end1,
    {
        let ghost row_start = enumerated;
        if graph.minutiae[end1].ridges.len() == 1 {
            let r1 = graph.minutiae[end1].ridges[0];
            proof {
                graph.lemma_listed_attached(end1 as int, 0);
            }
            if graph.ridges[r1].points.len() >= Parameters::SHORTEST_ENDED_MINUTIA {
                let mut end2: usize = 0;
                while end2 < count
                    invariant
                        *graph == start_graph,
                        graph.wf(),
                        graph.positions_in_range(),
                        count == graph.minutiae@.len(),
                        end1 < count,
                        end2 <= count,
                        r1 < graph.ridges@.len(),
                        graph.listed(end1 as int).len() == 1,
                        queue.wf(),
                        forall|x: SkeletonGap| queue.contents().contains(x) ==> x.end1 < count && x.end2 < count,
                        forall|x: SkeletonGap| queue.contents().contains(x) ==> gap_candidate(start_graph, x.end1 as int, x.end2 as int),
                        r1 == graph.listed(end1 as int)[0],
                        graph.ridges@[r1 as int].points@.len() >= Parameters::SHORTEST_ENDED_MINUTIA,
                        row_start == candidate_seq(start_graph, end1 as int),
                        enumerated == row_start + candidate_row(start_graph, end1 as int, end2 as int),
                        queue.contents() == capped(enumerated).to_multiset(),
                    decreases count - end2,
                {
                    let ghost enum_before = enumerated;
                    proof {
                        assert(row_start + candidate_row(start_graph, end1 as int, end2 + 1) =~=
                            if gap_candidate(start_graph, end1 as int, end2 as int) {
                                enum_before.push(gap_of(start_graph, end1 as int, end2 as int))
                            } else {
                                enum_before
                            });
                    }
                    if end2 != end1 && graph.minutiae[end2].ridges.len() == 1 {
                        let r2 = graph.minutiae[end2].ridges[0];
                        proof {
                            graph.lemma_listed_attached(end2 as int, 0);
                        }
                        if graph.ridges[r1].end != Some(end2)
                            && graph.ridges[r2].points.len() >= Parameters::SHORTEST_ENDED_MINUTIA
                            && is_within_gap_limits(graph, end1, end2) {
                            let p1 = graph.minutiae[end1].position;
                            let p2 = graph.minutiae[end2].position;
                            proof {
                                assert(graph.minutiae@[end1 as int].position == p1);
                                assert(graph.minutiae@[end2 as int].position == p2);
                            }
                            let distance = position_distance_sq(&p1, &p2);
                            let gap = SkeletonGap { distance, end1, end2 };
                            proof {
                                assert(gap_candidate(start_graph, end1 as int, end2 as int));
                                assert(gap == gap_of(start_graph, end1 as int, end2 as int));
                                broadcast use vstd::seq_lib::group_to_multiset_ensures;
                                enumerated = enumerated.push(gap);
                                assert(queue.contents().len() == capped(enum_before).len());
                            }
                            if queue.len() < usize::MAX / 2 - 1 {
                                let ghost before = queue.contents();
                                proof {
                                    assert(capped(enumerated) =~= capped(enum_before).push(gap));
                                }
                                queue.add(gap);
                                proof {
                                    broadcast use vstd::seq_lib::group_to_multiset_ensures;
                                    assert(queue.contents() =~= capped(enumerated).to_multiset());
                                }
                                proof {
                                    assert(gap_candidate(start_graph, end1 as int, end2 as int));
                                    assert forall|x: SkeletonGap| queue.contents().contains(x) implies
                                        x.end1 < count && x.end2 < count && gap_candidate(start_graph, x.end1 as int, x.end2 as int) by {
                                        assert(queue.contents() == before.insert(gap));
                                        assert(before.insert(gap).count(x) == before.count(x) + Multiset::singleton(gap).count(x));
                                        if x != gap {
                                            assert(Multiset::singleton(gap).count(x) == 0);
                                            assert(before.contains(x));
                                        }
                                    }
                                }
                            } else {
                                proof {
                                    assert(capped(enumerated) =~= capped(enum_before));
                                }
                            }
                        }
                    }
                    end2 = end2 + 1;
                }
                proof {
                    assert(candidate_seq(start_graph, end1 + 1) == row_start + candidate_row(start_graph, end1 as int, count as int));
                }
            } else {
                proof {
                    lemma_row_empty(start_graph, end1 as int, count as int);
                    assert(candidate_seq(start_graph, end1 + 1) =~= enumerated);
                }
            }
        } else {
            proof {
                lemma_row_empty(start_graph, end1 as int, count as int);
                assert(candidate_seq(start_graph, end1 + 1) =~= enumerated);
            }
        }
        end1 = end1 + 1;
    }
    // every point of an attached ridge
    let mut shadow: HashSet<i64> = HashSet::new();
    proof {
        assert(shadow@ =~= shadow_upto(start_graph, 0, 0));
    }
    let mut r: usize = 0;
    while r < graph.ridges.len()
        invariant
            *graph == start_graph,
            r <= graph.ridges@.len(),
            shadow@ == shadow_upto(start_graph, r as int, 0),
        decreases graph.ridges@.len() - r,
    {
        if graph.is_attached(r) {
            let n = graph.ridges[r].points.len();
            let mut k: usize = 0;
            while k < n
                invariant
                    *graph == start_graph,
                    r < graph.ridges@.len(),
                    graph.attached(r as int),
                    n == graph.ridges@[r as int].points@.len(),
                    k <= n,
                    shadow@ == shadow_upto(start_graph, r as int, k as int),
                decreases n - k,
            {
                let key = key_of(&graph.ridges[r].points[k]);
                shadow.insert(key);
                proof {
                    lemma_shadow_step(start_graph, r as int, k as int);
                }
                k = k + 1;
            }
            proof {
                lemma_shadow_next(start_graph, r as int);
            }
        } else {
            proof {
                lemma_shadow_next(start_graph, r as int);
            }
        }
        r = r + 1;
    }
    proof {
        assert(shadow_upto(start_graph, start_graph.ridges@.len() as int, 0) =~= ridge_shadow(start_graph));
    }
    let ghost cands = capped(candidate_seq(start_graph, count as int));
    let ghost mut popped: Seq<SkeletonGap> = Seq::empty();
    let mut added: Vec<(usize, usize)> = Vec::new();
    proof {
        broadcast use vstd::seq_lib::group_to_multiset_ensures;
        assert(popped.to_multiset().add(queue.contents()) =~= cands.to_multiset());
        assert(added@ =~= accept_state(start_graph, popped, 0).0);
    }
    while !queue.is_empty()
        invariant
            *graph == start_graph,
            graph.wf(),
            graph.positions_in_range(),
            count == graph.minutiae@.len(),
            queue.wf(),
            forall|k: int| 0 <= k < added@.len() ==> (#[trigger] added@[k]).0 < count && added@[k].1 < count,
            forall|k: int| 0 <= k < added@.len() ==> gap_candidate(start_graph, (#[trigger] added@[k]).0 as int, added@[k].1 as int),
            forall|x: SkeletonGap| queue.contents().contains(x) ==> x.end1 < count && x.end2 < count,
            forall|x: SkeletonGap| queue.contents().contains(x) ==> gap_candidate(start_graph, x.end1 as int, x.end2 as int),
            cands == capped(candidate_seq(start_graph, count as int)),
            popped.to_multiset().add(queue.contents()) == cands.to_multiset(),
            forall|i: int, j: int| 0 <= i < j < popped.len() ==> (#[trigger] popped[i]).distance <= (#[trigger] popped[j]).distance,
            forall|i: int, x: SkeletonGap| #![trigger popped[i], queue.contents().contains(x)]
                0 <= i < popped.len() && queue.contents().contains(x) ==> popped[i].distance <= x.distance,
            added@ == accept_state(start_graph, popped, popped.len() as int).0,
            shadow@ == accept_state(start_graph, popped, popped.len() as int).1,
        decreases queue.contents().len(),
    {
        let ghost before = queue.contents();
        let ghost popped_before = popped;
        let gap = queue.pop();
        proof {
            broadcast use vstd::seq_lib::group_to_multiset_ensures;
            assert forall|x: SkeletonGap| queue.contents().contains(x) implies
                x.end1 < count && x.end2 < count && gap_candidate(start_graph, x.end1 as int, x.end2 as int) by {
                assert(queue.contents() == before.remove(gap));
                assert(before.remove(gap).count(x) <= before.count(x));
                assert(before.contains(x));
            }
            assert(gap_candidate(start_graph, gap.end1 as int, gap.end2 as int));
            popped = popped.push(gap);
            assert(popped.to_multiset().add(queue.contents()) =~= cands.to_multiset());
            assert forall|i: int, j: int| 0 <= i < j < popped.len() implies (#[trigger] popped[i]).distance <= (#[trigger] popped[j]).distance by {
                if j == popped_before.len() {
                    assert(popped[i] == popped_before[i]);
                } else {
                    assert(popped[i] == popped_before[i]);
                    assert(popped[j] == popped_before[j]);
                }
            }
            assert forall|i: int, x: SkeletonGap| #![trigger popped[i], queue.contents().contains(x)]
                0 <= i < popped.len() && queue.contents().contains(x) implies popped[i].distance <= x.distance by {
                assert(queue.contents() == before.remove(gap));
                assert(before.remove(gap).count(x) <= before.count(x));
                assert(before.contains(x));
                if i < popped_before.len() {
                    assert(popped[i] == popped_before[i]);
                }
            }
            lemma_accept_prefix(start_graph, popped_before, popped, popped_before.len() as int);
        }
        let ghost prev = accept_state(start_graph, popped_before, popped_before.len() as int);
        if graph.minutiae[gap.end1].ridges.len() == 1 && graph.minutiae[gap.end2].ridges.len() == 1 {
            let p1 = graph.minutiae[gap.end1].position;
            let p2 = graph.minutiae[gap.end2].position;
            proof {
                assert(graph.minutiae@[gap.end1 as int].position == p1);
                assert(graph.minutiae@[gap.end2 as int].position == p2);
            }
            let line = p1.line_to(&p2);
            let ghost gl = gap_line(start_graph, gap.end1 as int, gap.end2 as int);
            proof {
                assert(line@ =~= gl);
            }
            let half = line.len() / 2;
            let skip = if Parameters::TOLERATED_GAP_OVERLAP < half { Parameters::TOLERATED_GAP_OVERLAP } else { half };
            let end = if line.len() >= skip { line.len() - skip } else { 0 };
            proof {
                assert(skip == gap_skip(gl));
                assert(end == gl.len() - gap_skip(gl));
            }
            let mut overlap = false;
            let mut k = skip;
            while k < end
                invariant
                    end <= line@.len(),
                    skip <= k,
                    k <= end || k == skip,
                    line@ == gl,
                    overlap == line_hits(gl, shadow@, skip as int, k as int),
                decreases end - k,
            {
                let key = key_of(&line[k]);
                if shadow.contains(&key) {
                    overlap = true;
                }
                proof {
                    if line_hits(gl, shadow@, skip as int, k + 1) && !line_hits(gl, shadow@, skip as int, k as int) {
                        let t = choose|t: int| #![trigger gl[t]] skip <= t < k + 1 && shadow@.contains(point_key(gl[t]) as i64);
                        assert(t == k);
                    }
                    if line_hits(gl, shadow@, skip as int, k as int) {
                        let t = choose|t: int| #![trigger gl[t]] skip <= t < k && shadow@.contains(point_key(gl[t]) as i64);
                        assert(skip <= t < k + 1);
                    }
                    if shadow@.contains(key) {
                        assert(shadow@.contains(point_key(gl[k as int]) as i64));
                    }
                }
                k = k + 1;
            }
            proof {
                if skip > end {
                    assert(!line_hits(gl, shadow@, skip as int, end as int));
                }
                assert(overlap == line_hits(gl, shadow@, gap_skip(gl), gl.len() - gap_skip(gl)));
            }
            if !overlap {
                added.push((gap.end1, gap.end2));
                let ghost sh0 = shadow@;
                proof {
                    assert(sh0 =~= sh0.union(line_keys(gl, 0)));
                }
                let mut k: usize = 0;
                while k < line.len()
                    invariant
                        k <= line@.len(),
                        line@ == gl,
                        shadow@ == sh0.union(line_keys(gl, k as int)),
                    decreases line@.len() - k,
                {
                    let key = key_of(&line[k]);
                    shadow.insert(key);
                    proof {
                        assert(line_keys(gl, k + 1) =~= line_keys(gl, k as int).insert(key)) by {
                            assert forall|x: i64| #[trigger] line_keys(gl, k + 1).contains(x) implies line_keys(gl, k as int).insert(key).contains(x) by {
                                let t = choose|t: int| #![trigger gl[t]] 0 <= t < k + 1 && x == point_key(gl[t]) as i64;
                                if t < k {
                                    assert(line_keys(gl, k as int).contains(x));
                                }
                            }
                            assert forall|x: i64| #[trigger] line_keys(gl, k as int).insert(key).contains(x) implies line_keys(gl, k + 1).contains(x) by {
                                if x == key {
                                    assert(gl[k as int] == line@[k as int]);
                                } else {
                                    let t = choose|t: int| #![trigger gl[t]] 0 <= t < k && x == point_key(gl[t]) as i64;
                                    assert(0 <= t < k + 1);
                                }
                            }
                        }
                        assert(shadow@ =~= sh0.union(line_keys(gl, k + 1)));
                    }
                    k = k + 1;
                }
            }
            proof {
                assert(popped[popped_before.len() as int] == gap);
            }
        } else {
            proof {
                assert(start_graph.listed(gap.end1 as int).len() == 1);
                assert(false);
            }
        }
    }
    proof {
        assert(gaps_joined(start_graph, *graph));
    }
    let ghost order = popped;
    let ghost pairs = added@;
    let ghost mut graphs: Seq<SkeletonGraph> = seq![start_graph];
    let mut i: usize = 0;
    while i < added.len()
        invariant
            graph.wf(),
            graph.same_positions(&start_graph),
            start_graph.positions_in_range(),
            gaps_joined(start_graph, *graph),
            count == graph.minutiae@.len(),
            i <= added@.len(),
            forall|k: int| 0 <= k < added@.len() ==> (#[trigger] added@[k]).0 < count && added@[k].1 < count,
            forall|k: int| 0 <= k < added@.len() ==> gap_candidate(start_graph, (#[trigger] added@[k]).0 as int, added@[k].1 as int),
            pairs == added@,
            graphs.len() == i + 1,
            graphs[0] == start_graph,
            graphs.last() == *graph,
            forall|k: int| 0 <= k < i ==> #[trigger] join_step(graphs[k], graphs[k + 1], pairs[k].0, pairs[k].1),
        decreases added@.len() - i,
    {
        let ghost g_step = *graph;
        let (a, b) = added[i];
        proof {
            assert(added@[i as int].0 < count && added@[i as int].1 < count);
            assert(gap_candidate(start_graph, a as int, b as int));
        }
        if graph.minutiae[a].ridges.len() == 1 && graph.minutiae[b].ridges.len() == 1 {
            let p1 = graph.minutiae[a].position;
            let p2 = graph.minutiae[b].position;
            proof {
                assert(graph.minutiae@[a as int].position == start_graph.minutiae@[a as int].position);
                assert(graph.minutiae@[b as int].position == start_graph.minutiae@[b as int].position);
            }
            let line = p1.line_to(&p2);
            if has_room(graph) {
                let ghost before = *graph;
                let ghost points = line@;
                let index = graph.connect(a, b, line);
                proof {
                    assert(points =~= gap_line(start_graph, a as int, b as int));
                    assert forall|j: int| #![trigger graph.ridges@[j]] start_graph.ridges@.len() <= j < graph.ridges@.len() implies exists|x: int, y: int| {
                        &&& #[trigger] gap_candidate(start_graph, x, y)
                        &&& {
                            ||| graph.ridges@[j].start == Some(x as usize) && graph.ridges@[j].end == Some(y as usize)
                                && graph.ridges@[j].points@ == gap_line(start_graph, x, y)
                            ||| graph.ridges@[j].start == Some(y as usize) && graph.ridges@[j].end == Some(x as usize)
                                && graph.ridges@[j].points@ == gap_line(start_graph, x, y).reverse()
                        }
                    } by {
                        if j < before.ridges@.len() {
                            assert(graph.ridges@[j] == before.ridges@[j]);
                        } else {
                            assert(gap_candidate(start_graph, a as int, b as int));
                        }
                    }
                    assert forall|j: int| 0 <= j < start_graph.ridges@.len() implies #[trigger] graph.ridges@[j] == start_graph.ridges@[j] by {
                        assert(graph.ridges@[j] == before.ridges@[j]);
                    }
                }
            }
        }
        proof {
            assert(g_step.same_positions(&start_graph));
            assert(g_step.minutiae@[a as int].position == start_graph.minutiae@[a as int].position);
            assert(g_step.minutiae@[b as int].position == start_graph.minutiae@[b as int].position);
            assert(gap_line(g_step, a as int, b as int) == gap_line(start_graph, a as int, b as int));
            assert(join_step(g_step, *graph, a, b));
            let old_graphs = graphs;
            graphs = graphs.push(*graph);
            assert forall|k: int| 0 <= k < i + 1 implies #[trigger] join_step(graphs[k], graphs[k + 1], pairs[k].0, pairs[k].1) by {
                if k < i {
                    assert(graphs[k] == old_graphs[k]);
                    assert(graphs[k + 1] == old_graphs[k + 1]);
                }
            }
        }
        i = i + 1;
    }
    proof {
        assert(joins_applied(start_graph, pairs, graphs));
        assert(pairs == accept_state(start_graph, order, order.len() as int).0);
        assert(gap_order(capped(candidate_seq(start_graph, start_graph.minutiae@.len() as int)), order)) by {
            broadcast use vstd::seq_lib::group_to_multiset_ensures;
            assert(queue.contents().len() == 0);
            assert(queue.contents() =~= Multiset::<SkeletonGap>::empty());
            assert(order.to_multiset() =~= order.to_multiset().add(queue.contents()));
        }
    }
    let ghost joined = *graph;
    proof {
        lemma_same_positions_in_range(start_graph, *graph);
    }
    knot_filter(graph);
}

/// Ridge `i` is a tail: the only ridge of the minutia it starts at, ending
/// at a minutia with three ridges or more, with fewer than
/// `MIN_TAIL_LENGTH` points.
pub open spec fn tail(g: SkeletonGraph, i: int) -> bool {
    &&& 0 <= i < g.ridges@.len()
    &&& g.ridges@[i].start matches Some(s) && g.listed(s as int).len() == 1
    &&& g.ridges@[i].end matches Some(e) && g.listed(e as int).len() >= 3
    &&& g.ridges@[i].points@.len() < Parameters::MIN_TAIL_LENGTH
}

/// Ridge `i` or its twin is a tail.
pub open spec fn tail_pair(g: SkeletonGraph, i: int) -> bool {
    0 <= i < g.ridges@.len() && (tail(g, i) || tail(g, g.ridges@[i].reversed as int))
}

/// Removes tails: every ridge from an ending to a minutia with three
/// ridges or more that has fewer than `MIN_TAIL_LENGTH` points is
/// detached, then dots are dropped and pass-through minutiae merged.
pub fn tail_filter(graph: &mut SkeletonGraph)
    requires
        old(graph).wf(),
    ensures
        tails_filtered(*old(graph), *final(graph)),
        final(graph).wf(),
        final(graph).clean(),
        old(graph).positions_in_range() ==> final(graph).positions_in_range(),
{
    let ghost start_graph = *graph;
    let mut to_detach: Vec<usize> = Vec::new();
    let nm = graph.minutiae.len();
    let nr = graph.ridges.len();
    let mut m: usize = 0;
    while m < nm
        invariant
            *graph == start_graph,
            graph.wf(),
            nm == graph.minutiae@.len(),
            nr == graph.ridges@.len(),
            m <= nm,
            forall|k: int| 0 <= k < to_detach@.len() ==> {
                &&& #[trigger] to_detach@[k] < graph.ridges@.len()
                &&& tail(start_graph, to_detach@[k] as int)
            },
            forall|r: int| tail(start_graph, r) && (#[trigger] start_graph.ridges@[r]).start.unwrap() < m
                ==> to_detach@.contains(r as usize),
        decreases nm - m,
    {
        let ghost before = to_detach@;
        if graph.minutiae[m].ridges.len() == 1 {
            let ridge = graph.minutiae[m].ridges[0];
            proof {
                graph.lemma_listed_attached(m as int, 0);
                assert(graph.listed_ok(m as int, 0));
            }
            if let Some(end) = graph.ridges[ridge].end {
                proof {
                    assert(graph.ridge_ok(ridge as int));
                }
                let end_live = graph.minutiae[end].ridges.len();
                if end_live >= 3 && graph.ridges[ridge].points.len() < Parameters::MIN_TAIL_LENGTH {
                    to_detach.push(ridge);
                }
            }
        }
        proof {
            assert forall|k: int| 0 <= k < to_detach@.len() implies {
                &&& #[trigger] to_detach@[k] < graph.ridges@.len()
                &&& tail(start_graph, to_detach@[k] as int)
            } by {
                if k < before.len() {
                    assert(to_detach@[k] == before[k]);
                }
            }
            assert forall|r: int| tail(start_graph, r) && (#[trigger] start_graph.ridges@[r]).start.unwrap() < m + 1
                implies to_detach@.contains(r as usize) by {
                if start_graph.ridges@[r].start.unwrap() < m {
                    assert(before.contains(r as usize));
                    let k = choose|k: int| 0 <= k < before.len() && before[k] == r as usize;
                    assert(to_detach@[k] == r as usize);
                } else {
                    assert(start_graph.ridge_ok(r));
                    let s = m as int;
                    assert(start_graph.listed(s).contains(r as usize));
                    let k = choose|k: int| 0 <= k < start_graph.listed(s).len() && start_graph.listed(s)[k] == r as usize;
                    assert(k == 0);
                    assert(to_detach@[to_detach@.len() - 1] == r as usize);
                }
            }
        }
        m = m + 1;
    }
    detach_listed(graph, &to_detach);
    let ghost detached = *graph;
    proof {
        assert forall|r: int| #[trigger] tail(start_graph, r) implies 0 <= r < start_graph.ridges@.len() && to_detach@.contains(r as usize) by {
            assert(start_graph.ridge_ok(r));
            assert(start_graph.ridges@[r].start.unwrap() < nm);
        }
        lemma_listed_pairs(start_graph, to_detach@, |r: int| tail(start_graph, r));
        assert(listed_pairs(start_graph, to_detach@, to_detach@.len() as int) =~= (|r: int| tail_pair(start_graph, r)));
        if start_graph.positions_in_range() {
            lemma_same_positions_in_range(start_graph, *graph);
        }
    }
    dot_filter(graph);
    let ghost compact = *graph;
    knot_filter(graph);
}

/// Ridge `i` is a fragment: the only ridge of the minutia it starts at,
/// ending at a minutia with a single ridge, with fewer than
/// `MIN_FRAGMENT_LENGTH` points.
pub open spec fn fragment(g: SkeletonGraph, i: int) -> bool {
    &&& 0 <= i < g.ridges@.len()
    &&& g.ridges@[i].start matches Some(s) && g.listed(s as int).len() == 1
    &&& g.ridges@[i].end matches Some(e) && g.listed(e as int).len() == 1
    &&& g.ridges@[i].points@.len() < Parameters::MIN_FRAGMENT_LENGTH
}

/// Ridge `i` or its twin is a fragment.
pub open spec fn fragment_pair(g: SkeletonGraph, i: int) -> bool {
    0 <= i < g.ridges@.len() && (fragment(g, i) || fragment(g, g.ridges@[i].reversed as int))
}

/// The ridges of the first `n` entries of `list`, each with its twin.
pub open spec fn listed_pairs(g: SkeletonGraph, list: Seq<usize>, n: int) -> spec_fn(int) -> bool {
    |r: int| exists|k: int| 0 <= k < n && (r == #[trigger] list[k] as int || r == g.ridges@[list[k] as int].reversed as int)
}

/// When `list` holds exactly the ridges that `pick` selects, the pairs it
/// lists are the ridges that `pick` selects or whose twin it selects.
proof fn lemma_listed_pairs(g: SkeletonGraph, list: Seq<usize>, pick: spec_fn(int) -> bool)
    requires
        g.wf(),
        g.ridges@.len() <= usize::MAX,
        forall|k: int| 0 <= k < list.len() ==> pick(#[trigger] list[k] as int),
        forall|r: int| #[trigger] pick(r) ==> 0 <= r < g.ridges@.len() && list.contains(r as usize),
    ensures
        listed_pairs(g, list, list.len() as int) =~= (|r: int| 0 <= r < g.ridges@.len() && (pick(r) || pick(g.ridges@[r].reversed as int))),
{
    let detached = listed_pairs(g, list, list.len() as int);
    let pairs = |r: int| 0 <= r < g.ridges@.len() && (pick(r) || pick(g.ridges@[r].reversed as int));
    assert forall|r: int| #[trigger] detached(r) == pairs(r) by {
        if detached(r) {
            let k = choose|k: int| 0 <= k < list.len() && (r == #[trigger] list[k] as int || r == g.ridges@[list[k] as int].reversed as int);
            let t = list[k] as int;
            assert(pick(t));
            assert(g.ridge_ok(t));
            if r != t {
                assert(g.ridges@[r].reversed == t);
            }
        }
        if pairs(r) {
            if pick(r) {
                let k = choose|k: int| 0 <= k < list.len() && list[k] == r as usize;
                assert(r == list[k] as int);
            } else {
                let t = g.ridges@[r].reversed as int;
                assert(g.ridge_ok(r));
                assert(pick(t));
                let k = choose|k: int| 0 <= k < list.len() && list[k] == t as usize;
                assert(g.ridge_ok(t));
                assert(g.ridges@[t].reversed == r);
                assert(r == g.ridges@[list[k] as int].reversed as int);
            }
        }
    }
}

/// Detaches each listed ridge with its twin.
fn detach_listed(graph: &mut SkeletonGraph, to_detach: &Vec<usize>)
    requires
        old(graph).wf(),
        forall|k: int| 0 <= k < to_detach@.len() ==> #[trigger] to_detach@[k] < old(graph).ridges@.len(),
    ensures
        detached_where(*old(graph), *final(graph), listed_pairs(*old(graph), to_detach@, to_detach@.len() as int)),
{
    let ghost start_graph = *graph;
    let nr = graph.ridges.len();
    let nm = graph.minutiae.len();
    proof {
        assert forall|i: int| 0 <= i < graph.ridges@.len() implies #[trigger] graph.attached(i) == (start_graph.attached(i) && !listed_pairs(start_graph, to_detach@, 0)(i)) by {}
        assert forall|m: int| 0 <= m < graph.minutiae@.len() implies
            #[trigger] graph.listed(m) == start_graph.listed(m).filter(|r: usize| !listed_pairs(start_graph, to_detach@, 0)(r as int)) by {
            lemma_filter_keeps_all(start_graph.listed(m), |r: usize| !listed_pairs(start_graph, to_detach@, 0)(r as int));
        }
        assert(detached_where(start_graph, *graph, listed_pairs(start_graph, to_detach@, 0)));
    }
    let mut i: usize = 0;
    while i < to_detach.len()
        invariant
            start_graph.wf(),
            nr == start_graph.ridges@.len(),
            nm == start_graph.minutiae@.len(),
            graph.wf(),
            detached_where(start_graph, *graph, listed_pairs(start_graph, to_detach@, i as int)),
            i <= to_detach@.len(),
            forall|k: int| 0 <= k < to_detach@.len() ==> #[trigger] to_detach@[k] < start_graph.ridges@.len(),
        decreases to_detach@.len() - i,
    {
        let ghost before = *graph;
        let index = to_detach[i];
        graph.detach_ridge(index);
        proof {
            let next = listed_pairs(start_graph, to_detach@, i + 1);
            assert forall|r: int| #[trigger] next(r) == (listed_pairs(start_graph, to_detach@, i as int)(r)
                || r == index as int || r == start_graph.ridges@[index as int].reversed as int) by {
                if next(r) {
                    let k = choose|k: int| 0 <= k < i + 1 && (r == #[trigger] to_detach@[k] as int
                        || r == start_graph.ridges@[to_detach@[k] as int].reversed as int);
                    if k < i {
                        assert(listed_pairs(start_graph, to_detach@, i as int)(r));
                    }
                }
                if listed_pairs(start_graph, to_detach@, i as int)(r) {
                    let k = choose|k: int| 0 <= k < i && (r == #[trigger] to_detach@[k] as int
                        || r == start_graph.ridges@[to_detach@[k] as int].reversed as int);
                    assert(0 <= k < i + 1);
                }
                if r == index as int || r == start_graph.ridges@[index as int].reversed as int {
                    assert(to_detach@[i as int] == index);
                }
            }
            lemma_detach_step(start_graph, before, *graph, listed_pairs(start_graph, to_detach@, i as int), next, index);
        }
        i = i + 1;
    }
}

/// Removes fragments: every ridge joining two endings with fewer than
/// `MIN_FRAGMENT_LENGTH` points is detached, then dots are dropped.
pub fn fragment_filter(graph: &mut SkeletonGraph)
    requires
        old(graph).wf(),
    ensures
        fragments_filtered(*old(graph), *final(graph)),
        final(graph).wf(),
        final(graph).clean(),
        old(graph).positions_in_range() ==> final(graph).positions_in_range(),
{
    let ghost start_graph = *graph;
    let mut to_detach: Vec<usize> = Vec::new();
    let nm = graph.minutiae.len();
    let nr = graph.ridges.len();
    let mut m: usize = 0;
    while m < nm
        invariant
            *graph == start_graph,
            graph.wf(),
            nm == graph.minutiae@.len(),
            nr == graph.ridges@.len(),
            m <= nm,
            forall|k: int| 0 <= k < to_detach@.len() ==> {
                &&& #[trigger] to_detach@[k] < graph.ridges@.len()
                &&& fragment(start_graph, to_detach@[k] as int)
            },
            forall|r: int| fragment(start_graph, r) && (#[trigger] start_graph.ridges@[r]).start.unwrap() < m
                ==> to_detach@.contains(r as usize),
        decreases nm - m,
    {
        let ghost before = to_detach@;
        if graph.minutiae[m].ridges.len() == 1 {
            let ridge = graph.minutiae[m].ridges[0];
            proof {
                graph.lemma_listed_attached(m as int, 0);
                assert(graph.listed_ok(m as int, 0));
            }
            if let Some(end) = graph.ridges[ridge].end {
                proof {
                    assert(graph.ridge_ok(ridge as int));
                }
                let end_live = graph.minutiae[end].ridges.len();
                if end_live == 1 && graph.ridges[ridge].points.len() < Parameters::MIN_FRAGMENT_LENGTH {
                    to_detach.push(ridge);
                }
            }
        }
        proof {
            assert forall|k: int| 0 <= k < to_detach@.len() implies {
                &&& #[trigger] to_detach@[k] < graph.ridges@.len()
                &&& fragment(start_graph, to_detach@[k] as int)
            } by {
                if k < before.len() {
                    assert(to_detach@[k] == before[k]);
                }
            }
            assert forall|r: int| fragment(start_graph, r) && (#[trigger] start_graph.ridges@[r]).start.unwrap() < m + 1
                implies to_detach@.contains(r as usize) by {
                if start_graph.ridges@[r].start.unwrap() < m {
                    assert(before.contains(r as usize));
                    let k = choose|k: int| 0 <= k < before.len() && before[k] == r as usize;
                    assert(to_detach@[k] == r as usize);
                } else {
                    assert(start_graph.ridge_ok(r));
                    let s = m as int;
                    assert(start_graph.listed(s).contains(r as usize));
                    let k = choose|k: int| 0 <= k < start_graph.listed(s).len() && start_graph.listed(s)[k] == r as usize;
                    assert(k == 0);
                    assert(to_detach@[to_detach@.len() - 1] == r as usize);
                }
            }
        }
        m = m + 1;
    }
    detach_listed(graph, &to_detach);
    let ghost mid = *graph;
    proof {
        assert forall|r: int| #[trigger] fragment(start_graph, r) implies 0 <= r < start_graph.ridges@.len() && to_detach@.contains(r as usize) by {
            assert(start_graph.ridge_ok(r));
            assert(start_graph.ridges@[r].start.unwrap() < nm);
        }
        lemma_listed_pairs(start_graph, to_detach@, |r: int| fragment(start_graph, r));
        assert(listed_pairs(start_graph, to_detach@, to_detach@.len() as int) =~= (|r: int| fragment_pair(start_graph, r)));
        if start_graph.positions_in_range() {
            lemma_same_positions_in_range(start_graph, *graph);
        }
    }
    dot_filter(graph);
}

/// `after` is what the pore filter makes of `before` (see `pore_filter`).
pub open spec fn pores_filtered(before: SkeletonGraph, after: SkeletonGraph) -> bool {
    exists|merged: SkeletonGraph| pores_merged(before, merged) && knotted(merged, after)
}

/// `after` is what the gap filter makes of `before`: the candidates (at
/// most `gap_queue_limit()` of them, in enumeration order) are taken in an
/// order closest first, the joins that `accept_state` accepts along it are
/// applied in turn by `join_step`, and pass-through minutiae are merged.
/// Only the order among candidates at equal distance is left open.
pub open spec fn gaps_filtered(before: SkeletonGraph, after: SkeletonGraph) -> bool {
    exists|order: Seq<SkeletonGap>, graphs: Seq<SkeletonGraph>|
        #![trigger gap_order(capped(candidate_seq(before, before.minutiae@.len() as int)), order), joins_applied(before, accept_state(before, order, order.len() as int).0, graphs)]
        gap_order(capped(candidate_seq(before, before.minutiae@.len() as int)), order)
            && joins_applied(before, accept_state(before, order, order.len() as int).0, graphs)
            && knotted(graphs.last(), after)
}

/// `after` is what the tail filter makes of `before` (see `tail_filter`).
pub open spec fn tails_filtered(before: SkeletonGraph, after: SkeletonGraph) -> bool {
    exists|detached: SkeletonGraph, compact: SkeletonGraph| {
        &&& detached_where(before, detached, |r: int| tail_pair(before, r))
        &&& compacted(detached, compact)
        &&& knotted(compact, after)
    }
}

/// `after` is what the fragment filter makes of `before` (see
/// `fragment_filter`).
pub open spec fn fragments_filtered(before: SkeletonGraph, after: SkeletonGraph) -> bool {
    exists|mid: SkeletonGraph| {
        &&& detached_where(before, mid, |r: int| fragment_pair(before, r))
        &&& compacted(mid, after)
    }
}

/// A fragment of a compaction comes from a fragment of the compacted graph.
proof fn lemma_compacted_fragment(g: SkeletonGraph, after: SkeletonGraph, j: int) -> (i: int)
    requires
        g.wf(),
        compacted(g, after),
        fragment(after, j),
    ensures
        0 <= i < g.ridges@.len(),
        g.attached(i),
        fragment(g, i),
{
    let i = lemma_compacted_source(g, after, j);
    assert(g.ridge_ok(i));
    let r = g.ridges@[i];
    let s = r.start.unwrap() as int;
    let e = r.end.unwrap() as int;
    let rev = r.reversed as int;
    assert(g.ridge_ok(rev));
    assert(g.listed(s).contains(i as usize));
    assert(g.listed(e).contains(rev as usize));
    let ks = choose|k: int| 0 <= k < g.listed(s).len() && g.listed(s)[k] == i as usize;
    let ke = choose|k: int| 0 <= k < g.listed(e).len() && g.listed(e)[k] == rev as usize;
    g.lemma_listed_attached(s, ks);
    g.lemma_listed_attached(e, ke);
    assert(g.minutia_alive(s));
    assert(g.minutia_alive(e));
    lemma_kept_len(g, s, g.listed(s).len() as int);
    lemma_kept_len(g, e, g.listed(e).len() as int);
    let ma = g.minutiae_alive();
    crate::extractor::skeleton_graph::lemma_rank_bounds(ma, 0, s);
    crate::extractor::skeleton_graph::lemma_rank_bounds(ma, 0, e);
    assert(after.listed(rank(ma, s)) == kept_list(g, s));
    assert(after.listed(rank(ma, e)) == kept_list(g, e));
    assert(g.listed(s).len() == 1);
    assert(g.listed(e).len() == 1);
    i
}

/// Where a minutia lists two ridges or more, none of them is in a fragment
/// pair, so detaching the fragment pairs keeps its whole list.
proof fn lemma_fragments_keep_list(g: SkeletonGraph, mid: SkeletonGraph, m: usize)
    requires
        g.wf(),
        detached_where(g, mid, |r: int| fragment_pair(g, r)),
        0 <= m < g.minutiae@.len(),
        g.listed(m as int).len() >= 2,
    ensures
        mid.listed(m as int) == g.listed(m as int),
{
    let l = g.listed(m as int);
    assert forall|k: int| 0 <= k < l.len() implies (|r: usize| !(|r: int| fragment_pair(g, r))(r as int))(#[trigger] l[k]) by {
        let r = l[k] as int;
        assert(g.listed_ok(m as int, k));
        assert(g.ridge_ok(r));
        let rev = g.ridges@[r].reversed as int;
        assert(g.ridge_ok(rev));
        assert(g.ridges@[rev].end == g.ridges@[r].start);
        assert(!fragment(g, r));
        assert(!fragment(g, rev));
        assert(!fragment_pair(g, r));
    }
    lemma_filter_keeps_all(l, |r: usize| !(|r: int| fragment_pair(g, r))(r as int));
}

/// Detaching the fragment pairs leaves no attached fragment.
proof fn lemma_detached_fragment(g: SkeletonGraph, mid: SkeletonGraph, i: int)
    requires
        g.wf(),
        detached_where(g, mid, |r: int| fragment_pair(g, r)),
        0 <= i < mid.ridges@.len(),
        mid.attached(i),
    ensures
        !fragment(mid, i),
{
    if fragment(mid, i) {
        lemma_detached_fragment_contra(g, mid, i);
    }
}

/// An attached fragment of the detached graph would have been a fragment
/// of the graph before, so it would have been detached.
proof fn lemma_detached_fragment_contra(g: SkeletonGraph, mid: SkeletonGraph, i: int)
    requires
        g.wf(),
        detached_where(g, mid, |r: int| fragment_pair(g, r)),
        0 <= i < mid.ridges@.len(),
        mid.attached(i),
        fragment(mid, i),
    ensures
        fragment(g, i),
        !fragment_pair(g, i),
{
    assert(g.attached(i) && !fragment_pair(g, i));
    assert(g.ridge_ok(i));
    let r = g.ridges@[i];
    let s = r.start.unwrap() as int;
    let e = r.end.unwrap() as int;
    let rev = r.reversed as int;
    assert(g.ridge_ok(rev));
    assert(mid.ridges@[i].start == r.start && mid.ridges@[i].end == r.end);
    assert(g.listed(s).contains(i as usize));
    assert(g.listed(e).contains(rev as usize));
    if g.listed(s).len() >= 2 {
        lemma_fragments_keep_list(g, mid, r.start.unwrap());
    }
    if g.listed(e).len() >= 2 {
        lemma_fragments_keep_list(g, mid, r.end.unwrap());
    }
    assert(mid.ridges@[i].points@ == r.points@);
    assert(fragment(g, i));
}

/// The whole filter chain: dots, pores, gaps, tails, fragments, then a
/// final compaction.
pub fn apply(graph: &mut SkeletonGraph)
    requires
        old(graph).wf(),
        old(graph).positions_in_range(),
    ensures
        exists|dots: SkeletonGraph, pores: SkeletonGraph, gaps: SkeletonGraph, tails: SkeletonGraph, fragments: SkeletonGraph| {
            &&& compacted(*old(graph), dots)
            &&& pores_filtered(dots, pores)
            &&& gaps_filtered(pores, gaps)
            &&& tails_filtered(gaps, tails)
            &&& fragments_filtered(tails, fragments)
            &&& compacted(fragments, *final(graph))
        },
        final(graph).wf(),
        final(graph).clean(),
        final(graph).positions_in_range(),
        forall|r: int| 0 <= r < final(graph).ridges@.len() ==> !#[trigger] fragment(*final(graph), r),
{
    dot_filter(graph);
    let ghost dots = *graph;
    pore_filter(graph);
    let ghost pores = *graph;
    gap_filter(graph);
    let ghost gaps = *graph;
    tail_filter(graph);
    let ghost tails = *graph;
    fragment_filter(graph);
    let ghost fragments = *graph;
    let _ = graph.compact();
    proof {
        assert forall|i: int| 0 <= i < graph.ridges@.len() implies #[trigger] graph.attached(i) by {}
        assert(compacted(fragments, *graph));
        let mid = choose|mid: SkeletonGraph| {
            &&& detached_where(tails, mid, |r: int| fragment_pair(tails, r))
            &&& compacted(mid, fragments)
        };
        assert forall|j: int| 0 <= j < graph.ridges@.len() implies !#[trigger] fragment(*graph, j) by {
            if fragment(*graph, j) {
                let i1 = lemma_compacted_fragment(fragments, *graph, j);
                let i0 = lemma_compacted_fragment(mid, fragments, i1);
                lemma_detached_fragment(tails, mid, i0);
            }
        }
    }
}

} // verus!
