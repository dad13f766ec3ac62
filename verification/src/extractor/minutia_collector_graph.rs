use vstd::prelude::*;
use crate::extractor::skeleton_graph::SkeletonGraph;
use crate::parameters::Parameters;
use crate::primitives::int_point::IntPoint;
use vstd::relations::injective_on;
use vstd::set_lib::{lemma_int_range, lemma_len_subset, lemma_map_size, lemma_subset_equality, set_int_range};

verus! {

// ---- collection from a skeleton graph ----

/// The ridges listed at minutia `m` that are attached at both ends.
pub open spec fn live_ridges(g: SkeletonGraph, m: int) -> Seq<usize> {
    g.listed(m).filter(|r: usize| g.attached(r as int))
}

/// The minutiae among the first `n` of the graph with exactly one live
/// ridge, each with its position and that ridge, in graph order.
pub open spec fn single_ridge_minutiae(g: SkeletonGraph, n: int) -> Seq<(IntPoint, usize)>
    decreases n,
{
    if n <= 0 {
        seq![]
    } else {
        let rest = single_ridge_minutiae(g, n - 1);
        let live = live_ridges(g, n - 1);
        if live.len() == 1 {
            rest.push((g.minutiae@[n - 1].position, live[0]))
        } else {
            rest
        }
    }
}

/// Every ridge index listed at a minutia names a ridge.
pub open spec fn listed_ridges_exist(g: SkeletonGraph) -> bool {
    forall|m: int, k: int| 0 <= m < g.minutiae@.len() && 0 <= k < g.minutiae@[m].ridges@.len()
        ==> #[trigger] g.minutiae@[m].ridges@[k] < g.ridges@.len()
}

/// The minutiae of a skeleton with exactly one attached ridge (ridge
/// endings), with the ridge each one starts, in graph order. The ridge gives
/// the minutia its direction.
pub fn collect_skeleton(skeleton: &SkeletonGraph) -> (found: Vec<(IntPoint, usize)>)
    requires
        listed_ridges_exist(*skeleton),
    ensures
        found@ == single_ridge_minutiae(*skeleton, skeleton.minutiae@.len() as int),
{
    let mut found: Vec<(IntPoint, usize)> = Vec::new();
    let mut m: usize = 0;
    while m < skeleton.minutiae.len()
        invariant
            listed_ridges_exist(*skeleton),
            m <= skeleton.minutiae@.len(),
            found@ == single_ridge_minutiae(*skeleton, m as int),
        decreases skeleton.minutiae@.len() - m,
    {
        let list = &skeleton.minutiae[m].ridges;
        let ghost pred = |r: usize| skeleton.attached(r as int);
        let mut live: Vec<usize> = Vec::new();
        let mut k: usize = 0;
        while k < list.len()
            invariant
                listed_ridges_exist(*skeleton),
                m < skeleton.minutiae@.len(),
                list@ == skeleton.listed(m as int),
                pred == (|r: usize| skeleton.attached(r as int)),
                k <= list@.len(),
                live@ == list@.subrange(0, k as int).filter(pred),
            decreases list@.len() - k,
        {
            proof {
                assert(list@.subrange(0, k + 1).drop_last() =~= list@.subrange(0, k as int));
                reveal(Seq::filter);
                assert(skeleton.minutiae@[m as int].ridges@[k as int] < skeleton.ridges@.len());
            }
            if skeleton.is_attached(list[k]) {
                live.push(list[k]);
            }
            k = k + 1;
        }
        assert(list@.subrange(0, list@.len() as int) =~= list@);
        if live.len() == 1 {
            found.push((skeleton.minutiae[m].position, live[0]));
        }
        m = m + 1;
    }
    found
}

// ---- cloud filter ----

/// Squared distance between two points.
pub open spec fn dist_sq(a: IntPoint, b: IntPoint) -> int {
    (a.x - b.x) * (a.x - b.x) + (a.y - b.y) * (a.y - b.y)
}

/// Number of the first `n` points within the cloud radius of `p` (`p` itself included).
pub open spec fn close_count(ps: Seq<IntPoint>, p: IntPoint, n: int) -> int
    decreases n,
{
    if n <= 0 {
        0
    } else {
        close_count(ps, p, n - 1) + if dist_sq(ps[n - 1], p) <= Parameters::MINUTIA_CLOUD_RADIUS * Parameters::MINUTIA_CLOUD_RADIUS { 1int } else { 0int }
    }
}

/// Whether point `i` has at most `MAX_CLOUD_SIZE` other points within the cloud radius.
pub open spec fn outside_cloud(ps: Seq<IntPoint>, i: int) -> bool {
    close_count(ps, ps[i], ps.len() as int) - 1 <= Parameters::MAX_CLOUD_SIZE
}

/// Indices among the first `n` of the points that lie outside clouds, in order.
pub open spec fn cloud_survivors(ps: Seq<IntPoint>, n: int) -> Seq<usize>
    decreases n,
{
    if n <= 0 {
        seq![]
    } else if outside_cloud(ps, n - 1) {
        cloud_survivors(ps, n - 1).push((n - 1) as usize)
    } else {
        cloud_survivors(ps, n - 1)
    }
}

/// Squared distance of two points, computed without overflow.
pub(crate) fn distance_sq(a: &IntPoint, b: &IntPoint) -> (d: i128)
    ensures
        d == dist_sq(*a, *b),
{
    let dx = a.x() as i128 - b.x() as i128;
    let dy = a.y() as i128 - b.y() as i128;
    proof {
        assert(dx * dx <= 0x1_0000_0000 * 0x1_0000_0000) by (nonlinear_arith)
            requires -0x1_0000_0000 <= dx <= 0x1_0000_0000;
        assert(dy * dy <= 0x1_0000_0000 * 0x1_0000_0000) by (nonlinear_arith)
            requires -0x1_0000_0000 <= dy <= 0x1_0000_0000;
        assert(dx * dx >= 0) by (nonlinear_arith);
        assert(dy * dy >= 0) by (nonlinear_arith);
    }
    dx * dx + dy * dy
}

/// Indices of the minutiae that survive the cloud filter, in order: a
/// minutia is dropped when more than `MAX_CLOUD_SIZE` other minutiae lie
/// within `MINUTIA_CLOUD_RADIUS` of it.
pub fn cloud_filter(positions: &Vec<IntPoint>) -> (kept: Vec<usize>)
    ensures
        kept@ == cloud_survivors(positions@, positions@.len() as int),
{
    let n = positions.len();
    let radius = Parameters::MINUTIA_CLOUD_RADIUS as i128;
    let limit = radius * radius;
    let mut kept: Vec<usize> = Vec::new();
    let mut i: usize = 0;
    while i < n
        invariant
            n == positions@.len(),
            limit == Parameters::MINUTIA_CLOUD_RADIUS * Parameters::MINUTIA_CLOUD_RADIUS,
            i <= n,
            kept@ == cloud_survivors(positions@, i as int),
        decreases n - i,
    {
        let mut count: usize = 0;
        let mut j: usize = 0;
        while j < n
            invariant
                n == positions@.len(),
                limit == Parameters::MINUTIA_CLOUD_RADIUS * Parameters::MINUTIA_CLOUD_RADIUS,
                i < n,
                j <= n,
                count == close_count(positions@, positions@[i as int], j as int),
                count <= j,
            decreases n - j,
        {
            if distance_sq(&positions[j], &positions[i]) <= limit {
                count = count + 1;
            }
            j = j + 1;
        }
        if count <= Parameters::MAX_CLOUD_SIZE + 1 {
            kept.push(i);
        }
        i = i + 1;
    }
    kept
}

// ---- top filter ----

/// Index of the first smallest element of a nonempty sequence.
pub open spec fn min_index(s: Seq<int>) -> int
    decreases s.len(),
{
    if s.len() <= 1 {
        0
    } else {
        let j = min_index(s.drop_last());
        if s.last() < s[j] {
            s.len() - 1
        } else {
            j
        }
    }
}

/// The `k`-th smallest element of `s`, counting from 0; `i64::MAX` when
/// `s` has no more than `k` elements.
pub open spec fn kth_smallest(s: Seq<int>, k: nat) -> int
    decreases k,
{
    if s.len() == 0 {
        i64::MAX as int
    } else if k == 0 {
        s[min_index(s)]
    } else {
        kth_smallest(s.remove(min_index(s)), (k - 1) as nat)
    }
}

/// Squared distances from point `i` to the first `n` other points, in order.
pub open spec fn distances_from(ps: Seq<IntPoint>, i: int, n: int) -> Seq<int>
    decreases n,
{
    if n <= 0 {
        seq![]
    } else if n - 1 == i {
        distances_from(ps, i, n - 1)
    } else {
        distances_from(ps, i, n - 1).push(dist_sq(ps[n - 1], ps[i]))
    }
}

/// Squared distance from point `i` to its `SORT_BY_NEIGHBOR`-th nearest
/// other point (counting from 0), or `i64::MAX` when there are too few.
pub open spec fn neighbor_radius(ps: Seq<IntPoint>, i: int) -> int {
    kth_smallest(distances_from(ps, i, ps.len() as int), Parameters::SORT_BY_NEIGHBOR as nat)
}

/// Whether point `j` ranks before point `i`: it is more isolated, or as
/// isolated and earlier.
pub open spec fn ranks_before(ps: Seq<IntPoint>, j: int, i: int) -> bool {
    neighbor_radius(ps, j) > neighbor_radius(ps, i)
        || (neighbor_radius(ps, j) == neighbor_radius(ps, i) && j < i)
}

/// Number of the first `n` points that rank before point `i`.
pub open spec fn rank_below(ps: Seq<IntPoint>, i: int, n: int) -> int
    decreases n,
{
    if n <= 0 {
        0
    } else {
        rank_below(ps, i, n - 1) + if ranks_before(ps, n - 1, i) { 1int } else { 0int }
    }
}

/// Whether point `i` is among the `MAX_MINUTIAE` best-ranked points.
pub open spec fn selected(ps: Seq<IntPoint>, i: int) -> bool {
    rank_below(ps, i, ps.len() as int) < Parameters::MAX_MINUTIAE
}

/// Index of the first point among the first `n` at the position of point
/// `i`, or `n` when there is none.
pub open spec fn first_at(ps: Seq<IntPoint>, i: int, n: int) -> int
    decreases n,
{
    if n <= 0 {
        0
    } else if first_at(ps, i, n - 1) < n - 1 {
        first_at(ps, i, n - 1)
    } else if ps[n - 1] == ps[i] {
        n - 1
    } else {
        n
    }
}

/// Selected points among the first `n` whose position first occurs at index `f`, in order.
pub open spec fn group(ps: Seq<IntPoint>, f: int, n: int) -> Seq<usize>
    decreases n,
{
    if n <= 0 {
        seq![]
    } else if selected(ps, n - 1) && first_at(ps, n - 1, ps.len() as int) == f {
        group(ps, f, n - 1).push((n - 1) as usize)
    } else {
        group(ps, f, n - 1)
    }
}

/// The groups of the first-occurrence indices below `f`, one after the other.
pub open spec fn grouped(ps: Seq<IntPoint>, f: int) -> Seq<usize>
    decreases f,
{
    if f <= 0 {
        seq![]
    } else {
        grouped(ps, f - 1) + group(ps, f - 1, ps.len() as int)
    }
}

/// Indices kept by the top filter: all points when there are at most
/// `MAX_MINUTIAE`; otherwise the best-ranked `MAX_MINUTIAE`, ordered by the
/// first index at which their position occurs and then by index.
pub open spec fn top_survivors(ps: Seq<IntPoint>) -> Seq<usize> {
    if ps.len() <= Parameters::MAX_MINUTIAE {
        Seq::new(ps.len(), |i: int| i as usize)
    } else {
        grouped(ps, ps.len() as int)
    }
}

proof fn lemma_min_index(s: Seq<int>)
    requires
        s.len() >= 1,
    ensures
        0 <= min_index(s) < s.len(),
    decreases s.len(),
{
    if s.len() > 1 {
        lemma_min_index(s.drop_last());
    }
}

/// Index of the first smallest value.
fn find_min(v: &Vec<i128>) -> (j: usize)
    requires
        v@.len() >= 1,
    ensures
        j == min_index(v@.map_values(|x: i128| x as int)),
        j < v@.len(),
{
    let ghost s = v@.map_values(|x: i128| x as int);
    let mut j: usize = 0;
    let mut i: usize = 1;
    assert(s.subrange(0, 1).len() == 1);
    while i < v.len()
        invariant
            s == v@.map_values(|x: i128| x as int),
            1 <= i <= v@.len(),
            j < i,
            j == min_index(s.subrange(0, i as int)),
        decreases v@.len() - i,
    {
        let ghost prefix = s.subrange(0, i as int + 1);
        assert(prefix.drop_last() =~= s.subrange(0, i as int));
        assert(prefix.last() == v@[i as int]);
        assert(prefix[j as int] == v@[j as int]);
        if v[i] < v[j] {
            j = i;
        }
        i = i + 1;
    }
    assert(s.subrange(0, v@.len() as int) =~= s);
    j
}

/// The `k`-th smallest value, or `i64::MAX` when there are too few.
fn kth_smallest_of(values: Vec<i128>, k: usize) -> (r: i128)
    ensures
        r == kth_smallest(values@.map_values(|x: i128| x as int), k as nat),
{
    let ghost initial = values@.map_values(|x: i128| x as int);
    let mut v = values;
    let mut t: usize = 0;
    while v.len() > 0
        invariant
            initial == values@.map_values(|x: i128| x as int),
            t <= k,
            kth_smallest(v@.map_values(|x: i128| x as int), (k - t) as nat) == kth_smallest(initial, k as nat),
        decreases k - t,
    {
        let ghost s = v@.map_values(|x: i128| x as int);
        let j = find_min(&v);
        if t == k {
            proof {
                assert(s[j as int] == v@[j as int]);
                assert((k - t) as nat == 0nat);
                assert(kth_smallest(s, 0nat) == s[j as int]);
            }
            return v[j];
        }
        proof {
            assert(s.remove(j as int) =~= v@.remove(j as int).map_values(|x: i128| x as int));
        }
        v.remove(j);
        t = t + 1;
    }
    proof {
        assert(v@.map_values(|x: i128| x as int).len() == 0);
    }
    i64::MAX as i128
}

/// Squared distance from point `i` to its `SORT_BY_NEIGHBOR`-th nearest other point.
fn radius_of(positions: &Vec<IntPoint>, i: usize) -> (r: i128)
    requires
        i < positions@.len(),
    ensures
        r == neighbor_radius(positions@, i as int),
{
    let n = positions.len();
    let mut distances: Vec<i128> = Vec::new();
    let mut j: usize = 0;
    while j < n
        invariant
            n == positions@.len(),
            i < n,
            j <= n,
            distances@.map_values(|x: i128| x as int) == distances_from(positions@, i as int, j as int),
        decreases n - j,
    {
        if j != i {
            let d = distance_sq(&positions[j], &positions[i]);
            let ghost before = distances@;
            distances.push(d);
            proof {
                assert(distances@.map_values(|x: i128| x as int) =~= before.map_values(|x: i128| x as int).push(d as int));
            }
        }
        j = j + 1;
    }
    kth_smallest_of(distances, Parameters::SORT_BY_NEIGHBOR)
}

/// Indices of the minutiae that survive the top filter: when there are
/// more than `MAX_MINUTIAE`, only that many are kept, those whose
/// `SORT_BY_NEIGHBOR`-th nearest neighbour lies farthest, earlier ones
/// first on ties; they are listed by the first index at which their
/// position occurs, then by index.
pub fn top_filter(positions: &Vec<IntPoint>) -> (kept: Vec<usize>)
    ensures
        kept@ == top_survivors(positions@),
{
    let n = positions.len();
    if n <= Parameters::MAX_MINUTIAE {
        let mut all: Vec<usize> = Vec::new();
        let mut i: usize = 0;
        while i < n
            invariant
                n == positions@.len(),
                i <= n,
                all@ == Seq::new(i as nat, |k: int| k as usize),
            decreases n - i,
        {
            all.push(i);
            i = i + 1;
        }
        return all;
    }
    let ghost ps = positions@;
    let mut radii: Vec<i128> = Vec::new();
    let mut i: usize = 0;
    while i < n
        invariant
            n == positions@.len(),
            ps == positions@,
            i <= n,
            radii@.len() == i,
            forall|k: int| 0 <= k < i ==> #[trigger] radii@[k] == neighbor_radius(ps, k),
        decreases n - i,
    {
        let r = radius_of(positions, i);
        radii.push(r);
        i = i + 1;
    }
    let mut chosen: Vec<bool> = Vec::new();
    let mut first: Vec<usize> = Vec::new();
    let mut i: usize = 0;
    while i < n
        invariant
            n == positions@.len(),
            ps == positions@,
            radii@.len() == n,
            forall|k: int| 0 <= k < n ==> #[trigger] radii@[k] == neighbor_radius(ps, k),
            i <= n,
            chosen@.len() == i,
            first@.len() == i,
            forall|k: int| 0 <= k < i ==> #[trigger] chosen@[k] == selected(ps, k),
            forall|k: int| 0 <= k < i ==> #[trigger] first@[k] == first_at(ps, k, n as int),
        decreases n - i,
    {
        let mut below: usize = 0;
        let mut f: usize = n;
        let mut j: usize = 0;
        while j < n
            invariant
                n == positions@.len(),
                ps == positions@,
                radii@.len() == n,
                forall|k: int| 0 <= k < n ==> #[trigger] radii@[k] == neighbor_radius(ps, k),
                i < n,
                j <= n,
                below == rank_below(ps, i as int, j as int),
                below <= j,
                f == (if first_at(ps, i as int, j as int) < j { first_at(ps, i as int, j as int) } else { n as int }),
            decreases n - j,
        {
            assert(radii@[j as int] == neighbor_radius(ps, j as int));
            assert(radii@[i as int] == neighbor_radius(ps, i as int));
            if radii[j] > radii[i] || (radii[j] == radii[i] && j < i) {
                below = below + 1;
            }
            if f == n && positions[j] == positions[i] {
                f = j;
            }
            j = j + 1;
        }
        proof {
            lemma_first_at_bound(ps, i as int, n as int);
        }
        chosen.push(below < Parameters::MAX_MINUTIAE);
        first.push(f);
        i = i + 1;
    }
    let mut kept: Vec<usize> = Vec::new();
    let mut g: usize = 0;
    while g < n
        invariant
            n == positions@.len(),
            ps == positions@,
            n > Parameters::MAX_MINUTIAE,
            chosen@.len() == n,
            first@.len() == n,
            forall|k: int| 0 <= k < n ==> #[trigger] chosen@[k] == selected(ps, k),
            forall|k: int| 0 <= k < n ==> #[trigger] first@[k] == first_at(ps, k, n as int),
            g <= n,
            kept@ == grouped(ps, g as int),
        decreases n - g,
    {
        let ghost base = kept@;
        let mut i: usize = 0;
        while i < n
            invariant
                n == positions@.len(),
                ps == positions@,
                chosen@.len() == n,
                first@.len() == n,
                forall|k: int| 0 <= k < n ==> #[trigger] chosen@[k] == selected(ps, k),
                forall|k: int| 0 <= k < n ==> #[trigger] first@[k] == first_at(ps, k, n as int),
                g < n,
                i <= n,
                kept@ == base + group(ps, g as int, i as int),
            decreases n - i,
        {
            assert(chosen@[i as int] == selected(ps, i as int));
            assert(first@[i as int] == first_at(ps, i as int, n as int));
            if chosen[i] && first[i] == g {
                kept.push(i);
                proof {
                    assert((base + group(ps, g as int, i as int)).push(i) =~= base + group(ps, g as int, i + 1));
                }
            }
            i = i + 1;
        }
        g = g + 1;
    }
    kept
}

proof fn lemma_first_at_bound(ps: Seq<IntPoint>, i: int, n: int)
    requires
        0 <= n,
    ensures
        0 <= first_at(ps, i, n) <= n,
    decreases n,
{
    if n > 0 {
        lemma_first_at_bound(ps, i, n - 1);
    }
}


// ---- the size of the top filter's result ----

/// A point's position first occurs no later than the point itself.
proof fn lemma_first_at_self(ps: Seq<IntPoint>, i: int, n: int)
    requires
        0 <= i < n,
    ensures
        first_at(ps, i, n) <= i,
    decreases n,
{
    if n - 1 > i {
        lemma_first_at_self(ps, i, n - 1);
    } else {
        lemma_first_at_bound(ps, i, n - 1);
    }
}

/// The members of one group: selected points below `n` whose position first
/// occurs at `f`, each once, in increasing order.
proof fn lemma_group_members(ps: Seq<IntPoint>, f: int, n: int)
    requires
        0 <= n <= ps.len(),
        ps.len() <= usize::MAX,
    ensures
        forall|k: int| 0 <= k < group(ps, f, n).len() ==> {
            let i = #[trigger] group(ps, f, n)[k] as int;
            &&& 0 <= i < n
            &&& selected(ps, i)
            &&& first_at(ps, i, ps.len() as int) == f
        },
        forall|k: int, l: int| 0 <= k < l < group(ps, f, n).len() ==> #[trigger] group(ps, f, n)[k] < #[trigger] group(ps, f, n)[l],
        forall|i: int| 0 <= i < n && selected(ps, i) && first_at(ps, i, ps.len() as int) == f ==> #[trigger] group(ps, f, n).contains(i as usize),
    decreases n,
{
    if n > 0 {
        lemma_group_members(ps, f, n - 1);
        let prev = group(ps, f, n - 1);
        if selected(ps, n - 1) && first_at(ps, n - 1, ps.len() as int) == f {
            let last = (n - 1) as usize;
            assert(last as int == n - 1);
            let cur = prev.push(last);
            assert(group(ps, f, n) == cur);
            assert forall|k: int| 0 <= k < cur.len() implies {
                let i = #[trigger] cur[k] as int;
                &&& 0 <= i < n
                &&& selected(ps, i)
                &&& first_at(ps, i, ps.len() as int) == f
            } by {
                if k < prev.len() {
                    assert(cur[k] == prev[k]);
                }
            }
            assert forall|k: int, l: int| 0 <= k < l < cur.len() implies #[trigger] cur[k] < #[trigger] cur[l] by {
                assert(cur[k] == prev[k]);
                if l < prev.len() {
                    assert(cur[l] == prev[l]);
                }
            }
            assert forall|i: int| 0 <= i < n && selected(ps, i) && first_at(ps, i, ps.len() as int) == f implies #[trigger] cur.contains(i as usize) by {
                if i == n - 1 {
                    assert(cur[prev.len() as int] == i as usize);
                } else {
                    assert(prev.contains(i as usize));
                    let k = choose|k: int| 0 <= k < prev.len() && prev[k] == i as usize;
                    assert(cur[k] == prev[k]);
                }
            }
        } else {
            assert(group(ps, f, n) == prev);
        }
    }
}

/// The members of the first `f` groups: selected points whose position
/// first occurs before `f`, each once.
proof fn lemma_grouped_members(ps: Seq<IntPoint>, f: int)
    requires
        0 <= f,
        ps.len() <= usize::MAX,
    ensures
        forall|k: int| 0 <= k < grouped(ps, f).len() ==> {
            let i = #[trigger] grouped(ps, f)[k] as int;
            &&& 0 <= i < ps.len()
            &&& selected(ps, i)
            &&& first_at(ps, i, ps.len() as int) < f
        },
        grouped(ps, f).no_duplicates(),
        forall|i: int| 0 <= i < ps.len() && selected(ps, i) && first_at(ps, i, ps.len() as int) < f ==> #[trigger] grouped(ps, f).contains(i as usize),
    decreases f,
{
    if f > 0 {
        lemma_grouped_members(ps, f - 1);
        lemma_group_members(ps, f - 1, ps.len() as int);
        let a = grouped(ps, f - 1);
        let b = group(ps, f - 1, ps.len() as int);
        let c = a + b;
        assert(grouped(ps, f) == c);
        assert forall|k: int| 0 <= k < c.len() implies {
            let i = #[trigger] c[k] as int;
            &&& 0 <= i < ps.len()
            &&& selected(ps, i)
            &&& first_at(ps, i, ps.len() as int) < f
        } by {
            if k < a.len() {
                assert(c[k] == a[k]);
            } else {
                assert(c[k] == b[k - a.len()]);
            }
        }
        assert forall|k: int, l: int| 0 <= k < c.len() && 0 <= l < c.len() && k != l implies c[k] != c[l] by {
            if k < a.len() && l < a.len() {
                assert(c[k] == a[k] && c[l] == a[l]);
            } else if k >= a.len() && l >= a.len() {
                assert(c[k] == b[k - a.len()] && c[l] == b[l - a.len()]);
                if k < l {
                    assert(b[k - a.len()] < b[l - a.len()]);
                } else {
                    assert(b[l - a.len()] < b[k - a.len()]);
                }
            } else if k < a.len() {
                assert(c[k] == a[k] && c[l] == b[l - a.len()]);
                let i = a[k] as int;
                assert(first_at(ps, i, ps.len() as int) < f - 1);
                assert(first_at(ps, b[l - a.len()] as int, ps.len() as int) == f - 1);
            } else {
                assert(c[l] == a[l] && c[k] == b[k - a.len()]);
                assert(first_at(ps, a[l] as int, ps.len() as int) < f - 1);
                assert(first_at(ps, b[k - a.len()] as int, ps.len() as int) == f - 1);
            }
        }
        assert forall|i: int| 0 <= i < ps.len() && selected(ps, i) && first_at(ps, i, ps.len() as int) < f implies #[trigger] c.contains(i as usize) by {
            if first_at(ps, i, ps.len() as int) < f - 1 {
                assert(a.contains(i as usize));
                let k = choose|k: int| 0 <= k < a.len() && a[k] == i as usize;
                assert(c[k] == a[k]);
            } else {
                assert(b.contains(i as usize));
                let k = choose|k: int| 0 <= k < b.len() && b[k] == i as usize;
                assert(c[k + a.len()] == b[k]);
            }
        }
    } else {
        assert forall|i: int| 0 <= i < ps.len() && selected(ps, i) && first_at(ps, i, ps.len() as int) < f implies #[trigger] grouped(ps, f).contains(i as usize) by {
            lemma_first_at_bound(ps, i, ps.len() as int);
        }
    }
}

/// Counting a stronger condition gives no more, and strictly less when
/// some point meets only the weaker one.
proof fn lemma_rank_monotone(ps: Seq<IntPoint>, i: int, j: int, n: int)
    requires
        0 <= n,
        forall|k: int| 0 <= k < n && ranks_before(ps, k, j) ==> ranks_before(ps, k, i),
    ensures
        rank_below(ps, j, n) <= rank_below(ps, i, n),
        (exists|k: int| 0 <= k < n && !ranks_before(ps, k, j) && ranks_before(ps, k, i)) ==> rank_below(ps, j, n) < rank_below(ps, i, n),
    decreases n,
{
    if n > 0 {
        lemma_rank_monotone(ps, i, j, n - 1);
        if exists|k: int| 0 <= k < n && !ranks_before(ps, k, j) && ranks_before(ps, k, i) {
            let k = choose|k: int| 0 <= k < n && !ranks_before(ps, k, j) && ranks_before(ps, k, i);
            if k < n - 1 {
                assert(exists|k2: int| 0 <= k2 < n - 1 && !ranks_before(ps, k2, j) && ranks_before(ps, k2, i));
            }
        }
    }
}

/// A rank counts points other than the point itself.
proof fn lemma_rank_bound(ps: Seq<IntPoint>, i: int, n: int)
    requires
        0 <= n,
    ensures
        0 <= rank_below(ps, i, n) <= n,
        0 <= i < n ==> rank_below(ps, i, n) < n,
    decreases n,
{
    if n > 0 {
        lemma_rank_bound(ps, i, n - 1);
    }
}

/// Distinct points have distinct ranks.
proof fn lemma_rank_injective(ps: Seq<IntPoint>, i: int, j: int)
    requires
        0 <= i < ps.len(),
        0 <= j < ps.len(),
        i != j,
    ensures
        rank_below(ps, i, ps.len() as int) != rank_below(ps, j, ps.len() as int),
{
    let n = ps.len() as int;
    if ranks_before(ps, j, i) {
        assert forall|k: int| 0 <= k < n && ranks_before(ps, k, j) implies ranks_before(ps, k, i) by {}
        assert(!ranks_before(ps, j, j) && ranks_before(ps, j, i));
        lemma_rank_monotone(ps, i, j, n);
    } else {
        assert(ranks_before(ps, i, j));
        assert forall|k: int| 0 <= k < n && ranks_before(ps, k, i) implies ranks_before(ps, k, j) by {}
        assert(!ranks_before(ps, i, i) && ranks_before(ps, i, j));
        lemma_rank_monotone(ps, j, i, n);
    }
}

/// Exactly `MAX_MINUTIAE` points are selected when there are more.
proof fn lemma_selected_count(ps: Seq<IntPoint>)
    requires
        ps.len() > Parameters::MAX_MINUTIAE,
        ps.len() <= usize::MAX,
    ensures
        set_int_range(0, ps.len() as int).filter(|i: int| selected(ps, i)).len() == Parameters::MAX_MINUTIAE,
        set_int_range(0, ps.len() as int).filter(|i: int| selected(ps, i)).finite(),
{
    let n = ps.len() as int;
    let all = set_int_range(0, n);
    let rank = |i: int| rank_below(ps, i, n);
    lemma_int_range(0, n);
    assert forall|i: int, j: int| all.contains(i) && all.contains(j) && #[trigger] rank(i) == #[trigger] rank(j) implies i == j by {
        if i != j {
            lemma_rank_injective(ps, i, j);
        }
    }
    assert(injective_on(rank, all));
    let ranks = all.map(rank);
    lemma_map_size(all, ranks, rank);
    assert forall|t: int| ranks.contains(t) implies all.contains(t) by {
        let i = choose|i: int| all.contains(i) && rank(i) == t;
        lemma_rank_bound(ps, i, n);
    }
    assert(ranks.subset_of(all));
    lemma_subset_equality(ranks, all);
    let chosen = all.filter(|i: int| selected(ps, i));
    let low = set_int_range(0, Parameters::MAX_MINUTIAE as int);
    lemma_int_range(0, Parameters::MAX_MINUTIAE as int);
    assert(chosen.subset_of(all));
    lemma_len_subset(chosen, all);
    assert forall|i: int, j: int| chosen.contains(i) && chosen.contains(j) && #[trigger] rank(i) == #[trigger] rank(j) implies i == j by {}
    assert(injective_on(rank, chosen));
    assert forall|t: int| #[trigger] chosen.map(rank).contains(t) <==> low.contains(t) by {
        if low.contains(t) {
            assert(all.contains(t));
            assert(ranks.contains(t));
            let i = choose|i: int| all.contains(i) && rank(i) == t;
            assert(chosen.contains(i));
            assert(chosen.map(rank).contains(rank(i)));
        }
        if chosen.map(rank).contains(t) {
            let i = choose|i: int| chosen.contains(i) && rank(i) == t;
            lemma_rank_bound(ps, i, n);
        }
    }
    assert(chosen.map(rank) =~= low);
    lemma_map_size(chosen, low, rank);
}

/// The top filter keeps all minutiae when there are at most
/// `MAX_MINUTIAE`, and exactly `MAX_MINUTIAE` otherwise.
pub proof fn law_top_filter_size(ps: Seq<IntPoint>)
    requires
        ps.len() <= usize::MAX,
    ensures
        top_survivors(ps).len() == if ps.len() <= Parameters::MAX_MINUTIAE { ps.len() as int } else { Parameters::MAX_MINUTIAE as int },
{
    if ps.len() > Parameters::MAX_MINUTIAE {
        let n = ps.len() as int;
        let g = grouped(ps, n);
        lemma_grouped_members(ps, n);
        g.unique_seq_to_set();
        lemma_selected_count(ps);
        let chosen = set_int_range(0, n).filter(|i: int| selected(ps, i));
        let as_ints = g.to_set().map(|u: usize| u as int);
        assert forall|i: int| #[trigger] as_ints.contains(i) <==> chosen.contains(i) by {
            if chosen.contains(i) {
                lemma_first_at_self(ps, i, n);
                assert(g.contains(i as usize));
                assert(g.to_set().contains(i as usize));
                assert(as_ints.contains((i as usize) as int));
            }
            if as_ints.contains(i) {
                let u = choose|u: usize| g.to_set().contains(u) && u as int == i;
                let k = choose|k: int| 0 <= k < g.len() && g[k] == u;
                assert(0 <= g[k] < n);
            }
        }
        assert(as_ints =~= chosen);
        assert(injective_on(|u: usize| u as int, g.to_set()));
        lemma_map_size(g.to_set(), as_ints, |u: usize| u as int);
    }
}
} // verus!
