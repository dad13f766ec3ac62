use vstd::prelude::*;
use crate::parameters::Parameters;
use crate::primitives::int_point::IntPoint;

verus! {

/// One direction of a ridge: a polyline from the `start` minutia to the `end`
/// minutia, with the index of the ridge that runs the other way.
#[derive(Debug)]
pub struct GraphRidge {
    pub reversed: usize,
    pub start: Option<usize>,
    pub end: Option<usize>,
    pub points: Vec<IntPoint>,
}

/// A node of the skeleton with the ridges that start at it.
#[derive(Debug)]
pub struct GraphMinutia {
    pub position: IntPoint,
    pub ridges: Vec<usize>,
}

/// Minutiae joined by ridges, each ridge stored once per direction.
#[derive(Debug)]
pub struct SkeletonGraph {
    pub minutiae: Vec<GraphMinutia>,
    pub ridges: Vec<GraphRidge>,
}

/// Indices of the two points a ridge of `count` points takes its direction
/// from: `RIDGE_DIRECTION_SKIP` and `RIDGE_DIRECTION_SKIP +
/// RIDGE_DIRECTION_SAMPLE - 1`, the window shifted back to end at the last
/// point when the ridge is shorter, and its start kept at 0 or above.
pub open spec fn graph_direction_span(count: int) -> (int, int) {
    let skip = Parameters::RIDGE_DIRECTION_SKIP as int;
    let last = skip + Parameters::RIDGE_DIRECTION_SAMPLE as int - 1;
    if last >= count {
        let first = skip - (last - count + 1);
        (if first < 0 { 0 } else { first }, count - 1)
    } else {
        (skip, last)
    }
}

impl GraphRidge {
    /// The two points whose angle gives the ridge's direction (see
    /// `graph_direction_span`).
    pub fn direction_points(&self) -> (r: (IntPoint, IntPoint))
        requires
            self.points@.len() >= 1,
        ensures
            r.0 == self.points@[graph_direction_span(self.points@.len() as int).0],
            r.1 == self.points@[graph_direction_span(self.points@.len() as int).1],
    {
        let count = self.points.len();
        let mut first = Parameters::RIDGE_DIRECTION_SKIP;
        let mut last = Parameters::RIDGE_DIRECTION_SKIP + Parameters::RIDGE_DIRECTION_SAMPLE - 1;
        if last >= count {
            let shift = last - count + 1;
            last = last - shift;
            first = if first >= shift { first - shift } else { 0 };
        }
        (self.points[first], self.points[last])
    }
}

/// `s` with every occurrence of `a` and of `b` left out, order kept.
pub open spec fn without(s: Seq<usize>, a: usize, b: usize) -> Seq<usize>
    decreases s.len(),
{
    if s.len() == 0 {
        s
    } else {
        let rest = without(s.drop_last(), a, b);
        if s.last() == a || s.last() == b {
            rest
        } else {
            rest.push(s.last())
        }
    }
}

/// Leaving out values that do not occur changes nothing.
pub proof fn lemma_without_absent(s: Seq<usize>, a: usize, b: usize)
    requires
        !s.contains(a),
        !s.contains(b),
    ensures
        without(s, a, b) == s,
    decreases s.len(),
{
    if s.len() > 0 {
        assert(!s.drop_last().contains(a)) by {
            if s.drop_last().contains(a) {
                let k = choose|k: int| 0 <= k < s.drop_last().len() && s.drop_last()[k] == a;
                assert(s[k] == a);
            }
        }
        assert(!s.drop_last().contains(b)) by {
            if s.drop_last().contains(b) {
                let k = choose|k: int| 0 <= k < s.drop_last().len() && s.drop_last()[k] == b;
                assert(s[k] == b);
            }
        }
        lemma_without_absent(s.drop_last(), a, b);
        assert(s.last() == s[s.len() - 1]);
        assert(s.drop_last().push(s.last()) =~= s);
    }
}

/// What is left keeps exactly the other values.
pub proof fn lemma_without_contains(s: Seq<usize>, a: usize, b: usize, v: usize)
    ensures
        without(s, a, b).contains(v) <==> (s.contains(v) && v != a && v != b),
    decreases s.len(),
{
    if s.len() > 0 {
        let init = s.drop_last();
        let last = s[s.len() - 1];
        lemma_without_contains(init, a, b, v);
        let rest = without(init, a, b);
        let w = without(s, a, b);
        assert(s.last() == last);
        if last == a || last == b {
            assert(w == rest);
        } else {
            assert(w == rest.push(last));
        }
        if w.contains(v) {
            let k = choose|k: int| 0 <= k < w.len() && w[k] == v;
            if k < rest.len() {
                assert(rest[k] == v);
                assert(rest.contains(v));
                let k2 = choose|k2: int| 0 <= k2 < init.len() && init[k2] == v;
                assert(s[k2] == v);
                assert(s.contains(v));
            } else {
                assert(v == last);
                assert(s[s.len() - 1] == v);
                assert(s.contains(v));
            }
        }
        if s.contains(v) && v != a && v != b {
            let k = choose|k: int| 0 <= k < s.len() && s[k] == v;
            if k < s.len() - 1 {
                assert(init[k] == v);
                assert(init.contains(v));
                assert(rest.contains(v));
                let k2 = choose|k2: int| 0 <= k2 < rest.len() && rest[k2] == v;
                assert(w[k2] == v);
                assert(w.contains(v));
            } else {
                assert(v == last);
                assert(w[rest.len() as int] == v);
                assert(w.contains(v));
            }
        }
    }
}

/// Every value of what is left occurs in `s`.
pub proof fn lemma_without_subset(s: Seq<usize>, a: usize, b: usize)
    ensures
        forall|k: int| 0 <= k < without(s, a, b).len() ==> s.contains(#[trigger] without(s, a, b)[k]),
{
    assert forall|k: int| 0 <= k < without(s, a, b).len() implies s.contains(#[trigger] without(s, a, b)[k]) by {
        lemma_without_contains(s, a, b, without(s, a, b)[k]);
    }
}

/// Number of set entries among the first `i` of `s`.
pub open spec fn rank(s: Seq<bool>, i: int) -> int
    decreases i,
{
    if i <= 0 {
        0
    } else {
        rank(s, i - 1) + if s[i - 1] { 1int } else { 0int }
    }
}

/// Ranks grow with the position and stay below it.
pub proof fn lemma_rank_bounds(s: Seq<bool>, i: int, j: int)
    requires
        0 <= i <= j,
    ensures
        0 <= rank(s, i) <= rank(s, j),
        rank(s, j) <= j,
        rank(s, j) - rank(s, i) <= j - i,
    decreases j,
{
    if j > 0 {
        if i < j {
            lemma_rank_bounds(s, i, j - 1);
        } else {
            lemma_rank_bounds(s, 0, j - 1);
        }
    }
}

/// Pushing keeps what a sequence contains.
pub proof fn lemma_push_contains(s: Seq<usize>, x: usize, v: usize)
    requires
        s.contains(v),
    ensures
        s.push(x).contains(v),
{
    let k = choose|k: int| 0 <= k < s.len() && s[k] == v;
    assert(s.push(x)[k] == v);
}

/// Set positions have distinct ranks, in order.
pub proof fn lemma_rank_strict(s: Seq<bool>, i: int, j: int)
    requires
        0 <= i < j,
        s[i],
    ensures
        rank(s, i) < rank(s, j),
{
    lemma_rank_bounds(s, i + 1, j);
}

/// The position of each set entry among the set entries.
fn ranks(alive: &Vec<bool>) -> (map: Vec<Option<usize>>)
    ensures
        map@.len() == alive@.len(),
        forall|i: int| 0 <= i < alive@.len() ==> #[trigger] map@[i] == if alive@[i] {
            Some(rank(alive@, i) as usize)
        } else {
            None
        },
{
    let mut map: Vec<Option<usize>> = Vec::new();
    let mut count: usize = 0;
    let mut i: usize = 0;
    while i < alive.len()
        invariant
            i <= alive@.len(),
            map@.len() == i,
            count == rank(alive@, i as int),
            forall|k: int| 0 <= k < i ==> #[trigger] map@[k] == if alive@[k] {
                Some(rank(alive@, k) as usize)
            } else {
                None
            },
        decreases alive@.len() - i,
    {
        proof {
            lemma_rank_bounds(alive@, 0, i as int);
        }
        if alive[i] {
            map.push(Some(count));
            count = count + 1;
        } else {
            map.push(None);
        }
        i = i + 1;
    }
    map
}

/// A copy of a list of points.
pub fn copy_points(points: &Vec<IntPoint>) -> (r: Vec<IntPoint>)
    ensures
        r@ == points@,
{
    let mut r: Vec<IntPoint> = Vec::new();
    let mut k: usize = 0;
    while k < points.len()
        invariant
            k <= points@.len(),
            r@ == points@.subrange(0, k as int),
        decreases points@.len() - k,
    {
        r.push(points[k]);
        k = k + 1;
    }
    assert(points@.subrange(0, points@.len() as int) =~= points@);
    r
}

impl SkeletonGraph {
    /// Structural consistency of ridge `i`.
    pub open spec fn ridge_ok(&self, i: int) -> bool {
        let nr = self.ridges@.len();
        let nm = self.minutiae@.len();
        let r = self.ridges@[i];
        &&& r.reversed < nr
        &&& r.reversed != i
        &&& self.ridges@[r.reversed as int].reversed == i
        &&& self.ridges@[r.reversed as int].start == r.end
        &&& r.start.is_some() == r.end.is_some()
        &&& (r.start matches Some(s) ==> s < nm && self.minutiae@[s as int].ridges@.contains(i as usize))
        &&& (r.end matches Some(e) ==> e < nm)
    }

    /// The `k`-th ridge listed at minutia `m` exists and starts there.
    pub open spec fn listed_ok(&self, m: int, k: int) -> bool {
        let r = self.minutiae@[m].ridges@[k];
        &&& r < self.ridges@.len()
        &&& self.ridges@[r as int].start == Some(m as usize)
    }

    /// Every ridge has a twin running the other way between the same
    /// minutiae, and a minutia lists exactly the ridges that start at it.
    pub open spec fn wf(&self) -> bool {
        &&& forall|i: int| 0 <= i < self.ridges@.len() ==> #[trigger] self.ridge_ok(i)
        &&& forall|m: int, k: int|
            0 <= m < self.minutiae@.len() && 0 <= k < self.minutiae@[m].ridges@.len() ==> #[trigger] self.listed_ok(m, k)
    }

    /// Whether ridge `i` is attached to minutiae at both ends.
    pub open spec fn attached(&self, i: int) -> bool {
        self.ridges@[i].start.is_some() && self.ridges@[i].end.is_some()
    }

    /// Ridges listed at minutia `m` (ridge indices).
    pub open spec fn listed(&self, m: int) -> Seq<usize> {
        self.minutiae@[m].ridges@
    }

    /// Every ridge is attached and every minutia has a ridge.
    pub open spec fn clean(&self) -> bool {
        &&& forall|i: int| 0 <= i < self.ridges@.len() ==> #[trigger] self.attached(i)
        &&& forall|m: int| 0 <= m < self.minutiae@.len() ==> #[trigger] self.listed(m).len() > 0
    }

    /// Any two minutiae differ by less than `2^31` on each axis, so the
    /// differences of their coordinates fit in `i32`.
    pub open spec fn positions_in_range(&self) -> bool {
        forall|a: int, b: int| #![trigger self.minutiae@[a].position, self.minutiae@[b].position]
            0 <= a < self.minutiae@.len() && 0 <= b < self.minutiae@.len() ==> {
            let p = self.minutiae@[a].position;
            let q = self.minutiae@[b].position;
            -0x7fff_ffff <= p.x - q.x <= 0x7fff_ffff && -0x7fff_ffff <= p.y - q.y <= 0x7fff_ffff
        }
    }

    /// Same minutiae at the same positions.
    pub open spec fn same_positions(&self, other: &SkeletonGraph) -> bool {
        &&& self.minutiae@.len() == other.minutiae@.len()
        &&& forall|m: int| 0 <= m < self.minutiae@.len() ==> (#[trigger] self.minutiae@[m]).position == other.minutiae@[m].position
    }

    /// A listed ridge is attached.
    pub proof fn lemma_listed_attached(&self, m: int, k: int)
        requires
            self.wf(),
            0 <= m < self.minutiae@.len(),
            0 <= k < self.listed(m).len(),
        ensures
            self.listed(m)[k] < self.ridges@.len(),
            self.attached(self.listed(m)[k] as int),
            self.ridges@[self.listed(m)[k] as int].start == Some(m as usize),
            self.ridges@[self.listed(m)[k] as int].end.unwrap() < self.minutiae@.len(),
            self.ridges@[self.listed(m)[k] as int].reversed < self.ridges@.len(),
    {
        assert(self.listed_ok(m, k));
        assert(self.ridge_ok(self.listed(m)[k] as int));
    }

    /// The empty graph.
    pub fn new() -> (g: SkeletonGraph)
        ensures
            g.wf(),
            g.minutiae@.len() == 0,
            g.ridges@.len() == 0,
    {
        SkeletonGraph { minutiae: Vec::new(), ridges: Vec::new() }
    }

    /// Adds a minutia with no ridges at `position` and returns its index.
    pub fn add_minutia(&mut self, position: IntPoint) -> (index: usize)
        requires
            old(self).wf(),
            old(self).minutiae@.len() < usize::MAX,
        ensures
            final(self).wf(),
            index == old(self).minutiae@.len(),
            final(self).minutiae@.len() == old(self).minutiae@.len() + 1,
            final(self).minutiae@[index as int].position == position,
            final(self).minutiae@[index as int].ridges@.len() == 0,
            forall|m: int| 0 <= m < old(self).minutiae@.len() ==> #[trigger] final(self).minutiae@[m] == old(self).minutiae@[m],
            final(self).ridges@ == old(self).ridges@,
    {
        self.minutiae.push(GraphMinutia { position, ridges: Vec::new() });
        proof {
            assert forall|i: int| 0 <= i < self.ridges@.len() implies #[trigger] self.ridge_ok(i) by {
                assert(old(self).ridge_ok(i));
            }
            assert forall|m: int, k: int|
                0 <= m < self.minutiae@.len() && 0 <= k < self.minutiae@[m].ridges@.len() implies #[trigger] self.listed_ok(m, k) by {
                assert(old(self).listed_ok(m, k));
            }
        }
        self.minutiae.len() - 1
    }

    /// Joins `start` to `end` by a ridge through `points` and its reversed
    /// twin, listing each at the minutia it starts at. Returns the index of
    /// the ridge from `start`; its twin follows it.
    pub fn connect(&mut self, start: usize, end: usize, points: Vec<IntPoint>) -> (index: usize)
        requires
            old(self).wf(),
            start < old(self).minutiae@.len(),
            end < old(self).minutiae@.len(),
            old(self).ridges@.len() + 2 <= usize::MAX,
        ensures
            final(self).wf(),
            joined(*old(self), *final(self), start, end, points@, index),
    {
        let index = self.ridges.len();
        let mut reversed_points: Vec<IntPoint> = Vec::new();
        let mut k = points.len();
        while k > 0
            invariant
                k <= points@.len(),
                reversed_points@ == points@.subrange(k as int, points@.len() as int).reverse(),
            decreases k,
        {
            k = k - 1;
            reversed_points.push(points[k]);
            proof {
                assert(points@.subrange(k as int, points@.len() as int).reverse()
                    =~= points@.subrange(k + 1, points@.len() as int).reverse().push(points@[k as int]));
            }
        }
        assert(points@.subrange(0, points@.len() as int) =~= points@);
        let ghost old_g = *self;
        self.ridges.push(GraphRidge { reversed: index + 1, start: Some(start), end: Some(end), points });
        self.ridges.push(GraphRidge { reversed: index, start: Some(end), end: Some(start), points: reversed_points });
        self.minutiae[start].ridges.push(index);
        self.minutiae[end].ridges.push(index + 1);
        proof {
            assert forall|m: int| 0 <= m < self.minutiae@.len() implies #[trigger] self.listed(m) == old_g.listed(m)
                + (if m == start { seq![index] } else { Seq::empty() })
                + (if m == end { seq![(index + 1) as usize] } else { Seq::empty() }) by {
                if m == start && m == end {
                } else if m == start {
                    assert(old_g.listed(m) + seq![index] + Seq::<usize>::empty() =~= old_g.listed(m).push(index));
                } else if m == end {
                    assert(old_g.listed(m) + Seq::<usize>::empty() + seq![(index + 1) as usize] =~= old_g.listed(m).push((index + 1) as usize));
                } else {
                    assert(old_g.listed(m) + Seq::<usize>::empty() + Seq::<usize>::empty() =~= old_g.listed(m));
                }
            }
            assert forall|i: int| 0 <= i < self.ridges@.len() implies #[trigger] self.ridge_ok(i) by {
                if i < index {
                    assert(old_g.ridge_ok(i));
                    if let Some(s) = self.ridges@[i].start {
                        let k = choose|k: int| 0 <= k < old_g.listed(s as int).len() && old_g.listed(s as int)[k] == i as usize;
                        assert(self.listed(s as int)[k] == i as usize);
                    }
                } else if i == index {
                    assert(self.listed(start as int)[old_g.listed(start as int).len() as int] == index);
                } else {
                    let pos: int = if start == end { old_g.listed(end as int).len() as int + 1 } else { old_g.listed(end as int).len() as int };
                    assert(self.listed(end as int)[pos] == (index + 1) as usize);
                }
            }
            assert forall|m: int, k: int|
                0 <= m < self.minutiae@.len() && 0 <= k < self.minutiae@[m].ridges@.len() implies #[trigger] self.listed_ok(m, k) by {
                if k < old_g.listed(m).len() {
                    assert(old_g.listed_ok(m, k));
                    assert(self.listed(m)[k] == old_g.listed(m)[k]);
                }
            }
        }
        index
    }

    /// Appends `point` to the points of ridge `index`.
    pub fn push_point(&mut self, index: usize, point: IntPoint)
        requires
            old(self).wf(),
            index < old(self).ridges@.len(),
        ensures
            final(self).wf(),
            final(self).minutiae@ == old(self).minutiae@,
            final(self).ridges@.len() == old(self).ridges@.len(),
            forall|i: int| 0 <= i < final(self).ridges@.len() && i != index ==> #[trigger] final(self).ridges@[i] == old(self).ridges@[i],
            final(self).ridges@[index as int].points@ == old(self).ridges@[index as int].points@.push(point),
            final(self).ridges@[index as int].start == old(self).ridges@[index as int].start,
            final(self).ridges@[index as int].end == old(self).ridges@[index as int].end,
            final(self).ridges@[index as int].reversed == old(self).ridges@[index as int].reversed,
    {
        let ghost g = *self;
        self.ridges[index].points.push(point);
        proof {
            assert forall|i: int| 0 <= i < self.ridges@.len() implies #[trigger] self.ridge_ok(i) by {
                assert(g.ridge_ok(i));
            }
            assert forall|m: int, k: int|
                0 <= m < self.minutiae@.len() && 0 <= k < self.minutiae@[m].ridges@.len() implies #[trigger] self.listed_ok(m, k) by {
                assert(g.listed_ok(m, k));
            }
        }
    }

    /// Whether ridge `index` is attached at both ends.
    pub fn is_attached(&self, index: usize) -> (r: bool)
        requires
            index < self.ridges@.len(),
        ensures
            r == self.attached(index as int),
    {
        self.ridges[index].start.is_some() && self.ridges[index].end.is_some()
    }

    /// The list of minutia `m` without `a` and `b`.
    fn list_without(&self, m: usize, a: usize, b: usize) -> (r: Vec<usize>)
        requires
            m < self.minutiae@.len(),
        ensures
            r@ == without(self.listed(m as int), a, b),
    {
        let list = &self.minutiae[m].ridges;
        let mut r: Vec<usize> = Vec::new();
        let mut k: usize = 0;
        while k < list.len()
            invariant
                list@ == self.listed(m as int),
                k <= list@.len(),
                r@ == without(list@.subrange(0, k as int), a, b),
            decreases list@.len() - k,
        {
            proof {
                assert(list@.subrange(0, k + 1).drop_last() =~= list@.subrange(0, k as int));
            }
            if list[k] != a && list[k] != b {
                r.push(list[k]);
            }
            k = k + 1;
        }
        assert(list@.subrange(0, list@.len() as int) =~= list@);
        r
    }

    /// Detaches ridge `index` and its twin from the minutiae they start at:
    /// both lose their ends and leave every minutia's list.
    pub fn detach_ridge(&mut self, index: usize)
        requires
            old(self).wf(),
            index < old(self).ridges@.len(),
        ensures
            final(self).wf(),
            ridge_detached(*old(self), *final(self), index),
    {
        let ghost old_g = *self;
        let rev = self.ridges[index].reversed;
        proof {
            assert(old_g.ridge_ok(index as int));
            assert(old_g.ridge_ok(rev as int));
        }
        let s1 = self.ridges[index].start;
        let s2 = self.ridges[rev].start;
        if let Some(s) = s1 {
            let list = self.list_without(s, index, rev);
            self.minutiae[s].ridges = list;
            assert(self.listed(s as int) == without(old_g.listed(s as int), index, rev));
        }
        assert(forall|m: int| 0 <= m < self.minutiae@.len() && s1 != Some(m as usize) ==> #[trigger] self.minutiae@[m] == old_g.minutiae@[m]);
        assert(s1.is_some() ==> self.listed(s1.unwrap() as int) == without(old_g.listed(s1.unwrap() as int), index, rev));
        let ghost mid = *self;
        if let Some(s) = s2 {
            if s1 != Some(s) {
                let list = self.list_without(s, index, rev);
                self.minutiae[s].ridges = list;
                assert(self.listed(s as int) == without(old_g.listed(s as int), index, rev));
            }
        }
        assert(forall|m: int| 0 <= m < self.minutiae@.len() && s2 != Some(m as usize) ==> #[trigger] self.minutiae@[m] == mid.minutiae@[m]);
        assert(s2.is_some() && s1 != s2 ==> self.listed(s2.unwrap() as int) == without(old_g.listed(s2.unwrap() as int), index, rev));
        assert(s1.is_some() ==> self.listed(s1.unwrap() as int) == without(old_g.listed(s1.unwrap() as int), index, rev));
        let ghost lists = *self;
        self.ridges[index].start = None;
        self.ridges[index].end = None;
        self.ridges[rev].start = None;
        self.ridges[rev].end = None;
        assert(self.minutiae@ == lists.minutiae@);
        proof {
            assert forall|m: int| 0 <= m < self.minutiae@.len() implies #[trigger] self.listed(m) == without(old_g.listed(m), index, rev) by {
                assert(self.minutiae@.len() == self.minutiae.len());
                let mu = m as usize;
                assert(mu as int == m);
                if s1 == Some(mu) {
                    assert(s1.unwrap() as int == m);
                } else if s2 == Some(mu) {
                    assert(s2.unwrap() as int == m);
                } else {
                    assert(lists.minutiae@[m] == mid.minutiae@[m]);
                    assert(mid.minutiae@[m] == old_g.minutiae@[m]);
                    assert(!old_g.listed(m).contains(index)) by {
                        if old_g.listed(m).contains(index) {
                            let k = choose|k: int| 0 <= k < old_g.listed(m).len() && old_g.listed(m)[k] == index;
                            assert(old_g.listed_ok(m, k));
                        }
                    }
                    assert(!old_g.listed(m).contains(rev)) by {
                        if old_g.listed(m).contains(rev) {
                            let k = choose|k: int| 0 <= k < old_g.listed(m).len() && old_g.listed(m)[k] == rev;
                            assert(old_g.listed_ok(m, k));
                        }
                    }
                    lemma_without_absent(old_g.listed(m), index, rev);
                }
            }
            assert forall|m: int, k: int|
                0 <= m < self.minutiae@.len() && 0 <= k < self.minutiae@[m].ridges@.len() implies #[trigger] self.listed_ok(m, k) by {
                let v = self.listed(m)[k];
                lemma_without_contains(old_g.listed(m), index, rev, v);
                assert(without(old_g.listed(m), index, rev).contains(v));
                let k2 = choose|k2: int| 0 <= k2 < old_g.listed(m).len() && old_g.listed(m)[k2] == v;
                assert(old_g.listed_ok(m, k2));
            }
            assert forall|i: int| 0 <= i < self.ridges@.len() implies #[trigger] self.ridge_ok(i) by {
                assert(old_g.ridge_ok(i));
                if i != index && i != rev {
                    let r = old_g.ridges@[i].reversed;
                    assert(r != index && r != rev) by {
                        assert(old_g.ridge_ok(r as int));
                    }
                    if let Some(s) = self.ridges@[i].start {
                        lemma_without_contains(old_g.listed(s as int), index, rev, i as usize);
                    }
                }
            }
        }
    }
}

/// An attached ridge joins two minutiae that stay, and its twin is attached too.
pub proof fn lemma_attached_ends(g: SkeletonGraph, i: int)
    requires
        g.wf(),
        0 <= i < g.ridges@.len(),
        g.attached(i),
    ensures
        ({
            let r = g.ridges@[i];
            let rv = r.reversed as int;
            &&& 0 <= r.start.unwrap() < g.minutiae@.len()
            &&& 0 <= r.end.unwrap() < g.minutiae@.len()
            &&& g.minutia_alive(r.start.unwrap() as int)
            &&& g.minutia_alive(r.end.unwrap() as int)
            &&& 0 <= rv < g.ridges@.len()
            &&& rv != i
            &&& g.attached(rv)
            &&& g.ridges@[rv].reversed == i
            &&& g.ridges@[rv].start == r.end
            &&& g.ridges@[rv].end == r.start
        }),
{
    assert(g.ridge_ok(i));
    let s = g.ridges@[i].start.unwrap() as int;
    let k = choose|k: int| 0 <= k < g.listed(s).len() && g.listed(s)[k] == i as usize;
    assert(g.attached(g.listed(s)[k] as int));
    let rv = g.ridges@[i].reversed as int;
    assert(g.ridge_ok(rv));
    let e = g.ridges@[rv].start.unwrap() as int;
    let k2 = choose|k2: int| 0 <= k2 < g.listed(e).len() && g.listed(e)[k2] == rv as usize;
    assert(g.attached(g.listed(e)[k2] as int));
}

/// `after` is `before` with minutia `start` joined to minutia `end` by a
/// new ridge `index` through `points` and its reversed twin `index + 1`,
/// each listed last at the minutia it starts at.
pub open spec fn joined(before: SkeletonGraph, after: SkeletonGraph, start: usize, end: usize, points: Seq<IntPoint>, index: usize) -> bool {
    &&& index == before.ridges@.len()
    &&& after.ridges@.len() == before.ridges@.len() + 2
    &&& forall|i: int| 0 <= i < before.ridges@.len() ==> #[trigger] after.ridges@[i] == before.ridges@[i]
    &&& after.ridges@[index as int].reversed == index + 1
    &&& after.ridges@[index as int].start == Some(start)
    &&& after.ridges@[index as int].end == Some(end)
    &&& after.ridges@[index as int].points@ == points
    &&& after.ridges@[index + 1].reversed == index
    &&& after.ridges@[index + 1].start == Some(end)
    &&& after.ridges@[index + 1].end == Some(start)
    &&& after.ridges@[index + 1].points@ == points.reverse()
    &&& after.minutiae@.len() == before.minutiae@.len()
    &&& forall|m: int| 0 <= m < after.minutiae@.len() ==> (#[trigger] after.minutiae@[m]).position == before.minutiae@[m].position
    &&& forall|m: int| 0 <= m < after.minutiae@.len() ==> #[trigger] after.listed(m) == before.listed(m)
        + (if m == start { seq![index] } else { Seq::empty() })
        + (if m == end { seq![(index + 1) as usize] } else { Seq::empty() })
}

/// `after` is `before` with ridge `index` and its twin cut loose: both keep
/// their points and twins but lose their ends, no minutia lists them any
/// more, and everything else stays.
pub open spec fn ridge_detached(before: SkeletonGraph, after: SkeletonGraph, index: usize) -> bool {
    let rev = before.ridges@[index as int].reversed;
    &&& after.ridges@.len() == before.ridges@.len()
    &&& after.minutiae@.len() == before.minutiae@.len()
    &&& forall|i: int| 0 <= i < after.ridges@.len() && i != index && i != rev ==> #[trigger] after.ridges@[i] == before.ridges@[i]
    &&& forall|i: int| (i == index || i == rev) ==> {
        &&& (#[trigger] after.ridges@[i]).start.is_none()
        &&& after.ridges@[i].end.is_none()
        &&& after.ridges@[i].reversed == before.ridges@[i].reversed
        &&& after.ridges@[i].points@ == before.ridges@[i].points@
    }
    &&& forall|m: int| 0 <= m < after.minutiae@.len() ==> #[trigger] after.listed(m) == without(before.listed(m), index, rev)
    &&& forall|m: int| 0 <= m < after.minutiae@.len() ==> (#[trigger] after.minutiae@[m]).position == before.minutiae@[m].position
}

/// Leaving values out of two sequences joined is leaving them out of each.
pub proof fn lemma_without_append(s: Seq<usize>, t: Seq<usize>, a: usize, b: usize)
    ensures
        without(s + t, a, b) == without(s, a, b) + without(t, a, b),
    decreases t.len(),
{
    if t.len() == 0 {
        assert(s + t =~= s);
        assert(without(s, a, b) + without(t, a, b) =~= without(s, a, b));
    } else {
        lemma_without_append(s, t.drop_last(), a, b);
        assert((s + t).drop_last() =~= s + t.drop_last());
        assert((s + t).last() == t.last());
        if t.last() == a || t.last() == b {
        } else {
            assert(without(s, a, b) + without(t.drop_last(), a, b).push(t.last())
                =~= (without(s, a, b) + without(t.drop_last(), a, b)).push(t.last()));
        }
    }
}

/// Joining two minutiae by a new ridge and then detaching that ridge
/// leaves every minutia listing exactly the ridges it listed before, every
/// old ridge and every position as it was, and the two new ridges detached.
pub proof fn law_detach_undoes_connect(
    g0: SkeletonGraph,
    g1: SkeletonGraph,
    g2: SkeletonGraph,
    start: usize,
    end: usize,
    points: Seq<IntPoint>,
    index: usize,
)
    requires
        g0.wf(),
        start < g0.minutiae@.len(),
        end < g0.minutiae@.len(),
        joined(g0, g1, start, end, points, index),
        ridge_detached(g1, g2, index),
    ensures
        g2.minutiae@.len() == g0.minutiae@.len(),
        forall|m: int| 0 <= m < g0.minutiae@.len() ==> #[trigger] g2.listed(m) == g0.listed(m),
        forall|m: int| 0 <= m < g0.minutiae@.len() ==> (#[trigger] g2.minutiae@[m]).position == g0.minutiae@[m].position,
        g2.ridges@.len() == g0.ridges@.len() + 2,
        forall|i: int| 0 <= i < g0.ridges@.len() ==> #[trigger] g2.ridges@[i] == g0.ridges@[i],
        !g2.attached(index as int),
        !g2.attached(index + 1),
{
    let rev = g1.ridges@[index as int].reversed;
    assert(rev == index + 1);
    assert forall|m: int| 0 <= m < g0.minutiae@.len() implies #[trigger] g2.listed(m) == g0.listed(m) by {
        let extra = (if m == start { seq![index] } else { Seq::<usize>::empty() })
            + (if m == end { seq![(index + 1) as usize] } else { Seq::<usize>::empty() });
        assert(g1.listed(m) == g0.listed(m) + extra);
        lemma_without_append(g0.listed(m), extra, index, rev);
        assert(!g0.listed(m).contains(index)) by {
            if g0.listed(m).contains(index) {
                let k = choose|k: int| 0 <= k < g0.listed(m).len() && g0.listed(m)[k] == index;
                assert(g0.listed_ok(m, k));
            }
        }
        assert(!g0.listed(m).contains(rev)) by {
            if g0.listed(m).contains(rev) {
                let k = choose|k: int| 0 <= k < g0.listed(m).len() && g0.listed(m)[k] == rev;
                assert(g0.listed_ok(m, k));
            }
        }
        lemma_without_absent(g0.listed(m), index, rev);
        assert(without(extra, index, rev) =~= Seq::<usize>::empty()) by {
            reveal_with_fuel(without, 3);
        }
        assert(without(g0.listed(m), index, rev) + Seq::<usize>::empty() =~= g0.listed(m));
    }
    assert forall|i: int| 0 <= i < g0.ridges@.len() implies #[trigger] g2.ridges@[i] == g0.ridges@[i] by {
        assert(g1.ridges@[i] == g0.ridges@[i]);
    }
}

/// The first `n` ridges of `list` that are attached in `g`, each renumbered
/// by its rank among the attached ridges of `g`.
pub open spec fn kept_prefix(g: SkeletonGraph, list: Seq<usize>, n: int) -> Seq<usize>
    decreases n,
{
    if n <= 0 {
        Seq::empty()
    } else {
        let prev = kept_prefix(g, list, n - 1);
        let r = list[n - 1];
        if g.attached(r as int) {
            prev.push(rank(g.ridges_alive(), r as int) as usize)
        } else {
            prev
        }
    }
}

/// The ridges that minutia `m` of `g` lists and that are attached, in their
/// order, each renumbered by its rank among the attached ridges.
pub open spec fn kept_list(g: SkeletonGraph, m: int) -> Seq<usize> {
    kept_prefix(g, g.listed(m), g.listed(m).len() as int)
}

/// `after` is `before` without its detached ridges and without the minutiae
/// that list no attached ridge, renumbered in their old order: the minutiae
/// keep their positions and, renumbered, the attached ridges they list in
/// their order; the ridges keep their points and, renumbered, their ends
/// and twins.
pub open spec fn compacted(before: SkeletonGraph, after: SkeletonGraph) -> bool {
    let ma = before.minutiae_alive();
    let ra = before.ridges_alive();
    &&& after.wf()
    &&& after.clean()
    &&& after.minutiae@.len() == rank(ma, before.minutiae@.len() as int)
    &&& after.ridges@.len() == rank(ra, before.ridges@.len() as int)
    &&& forall|i: int| 0 <= i < before.minutiae@.len() && before.minutia_alive(i) ==>
        after.minutiae@[rank(ma, i)].position == (#[trigger] before.minutiae@[i]).position
    &&& forall|i: int| 0 <= i < before.minutiae@.len() && before.minutia_alive(i) ==>
        after.listed(rank(ma, i)) == #[trigger] kept_list(before, i)
    &&& forall|i: int| 0 <= i < before.ridges@.len() && before.attached(i) ==> {
        &&& after.ridges@[rank(ra, i)].points@ == (#[trigger] before.ridges@[i]).points@
        &&& after.ridges@[rank(ra, i)].reversed == rank(ra, before.ridges@[i].reversed as int) as usize
        &&& after.ridges@[rank(ra, i)].start == Some(rank(ma, before.ridges@[i].start.unwrap() as int) as usize)
        &&& after.ridges@[rank(ra, i)].end == Some(rank(ma, before.ridges@[i].end.unwrap() as int) as usize)
    }
}

/// `after` is `before` with the ridges that `drop` selects detached: the
/// same minutiae at the same positions and the same ridges with the same
/// points and twins, a ridge attached exactly when it was and is not dropped, with
/// its ends kept, and each minutia listing the ridges it listed that are
/// not dropped, in their order.
pub open spec fn detached_where(before: SkeletonGraph, after: SkeletonGraph, drop: spec_fn(int) -> bool) -> bool {
    &&& after.wf()
    &&& after.same_positions(&before)
    &&& after.ridges@.len() == before.ridges@.len()
    &&& forall|i: int| 0 <= i < after.ridges@.len() ==> (#[trigger] after.ridges@[i]).points@ == before.ridges@[i].points@
    &&& forall|i: int| 0 <= i < after.ridges@.len() ==> (#[trigger] after.ridges@[i]).reversed == before.ridges@[i].reversed
    &&& forall|i: int| 0 <= i < after.ridges@.len() ==> #[trigger] after.attached(i) == (before.attached(i) && !drop(i))
    &&& forall|i: int| 0 <= i < after.ridges@.len() && #[trigger] after.attached(i) ==> {
        &&& after.ridges@[i].start == before.ridges@[i].start
        &&& after.ridges@[i].end == before.ridges@[i].end
    }
    &&& forall|m: int, r: usize| 0 <= m < after.minutiae@.len() ==>
        (#[trigger] after.listed(m).contains(r) <==> (before.listed(m).contains(r) && !drop(r as int)))
    &&& forall|m: int| 0 <= m < after.minutiae@.len() ==>
        #[trigger] after.listed(m) == before.listed(m).filter(|r: usize| !drop(r as int))
}

/// Detaching ridge `index` (and its twin) from a graph that is `start`
/// with the ridges `drop` selects detached gives `start` with those and the
/// pair detached.
pub proof fn lemma_detach_step(
    start: SkeletonGraph,
    before: SkeletonGraph,
    after: SkeletonGraph,
    drop: spec_fn(int) -> bool,
    next: spec_fn(int) -> bool,
    index: usize,
)
    requires
        start.wf(),
        detached_where(start, before, drop),
        index < before.ridges@.len(),
        after.wf(),
        after.ridges@.len() == before.ridges@.len(),
        after.minutiae@.len() == before.minutiae@.len(),
        ({
            let rev = before.ridges@[index as int].reversed;
            &&& forall|i: int| 0 <= i < after.ridges@.len() && i != index as int && i != rev as int ==>
                #[trigger] after.ridges@[i] == before.ridges@[i]
            &&& forall|i: int| (i == index as int || i == rev as int) ==> {
                &&& (#[trigger] after.ridges@[i]).start.is_none()
                &&& after.ridges@[i].end.is_none()
                &&& after.ridges@[i].reversed == before.ridges@[i].reversed
                &&& after.ridges@[i].points@ == before.ridges@[i].points@
            }
            &&& forall|m: int| 0 <= m < after.minutiae@.len() ==> #[trigger] after.listed(m) == without(before.listed(m), index, rev)
            &&& forall|m: int| 0 <= m < after.minutiae@.len() ==> (#[trigger] after.minutiae@[m]).position == before.minutiae@[m].position
        }),
        forall|r: int| #[trigger] next(r) == (drop(r) || r == index as int || r == start.ridges@[index as int].reversed),
    ensures
        detached_where(start, after, next),
{
    let rev = before.ridges@[index as int].reversed;
    assert(rev == start.ridges@[index as int].reversed);
    assert forall|i: int| 0 <= i < after.ridges@.len() implies #[trigger] after.attached(i) == (start.attached(i) && !next(i)) by {
        if i != index as int && i != rev as int {
            assert(after.ridges@[i] == before.ridges@[i]);
            assert(before.attached(i) == (start.attached(i) && !drop(i)));
        }
    }
    assert forall|i: int| 0 <= i < after.ridges@.len() && #[trigger] after.attached(i) implies {
        &&& after.ridges@[i].start == start.ridges@[i].start
        &&& after.ridges@[i].end == start.ridges@[i].end
    } by {
        assert(after.ridges@[i] == before.ridges@[i]);
        assert(before.attached(i));
    }
    assert forall|i: int| 0 <= i < after.ridges@.len() implies (#[trigger] after.ridges@[i]).points@ == start.ridges@[i].points@ by {
        if i != index as int && i != rev as int {
            assert(after.ridges@[i] == before.ridges@[i]);
        }
        assert(before.ridges@[i].points@ == start.ridges@[i].points@);
    }
    assert forall|i: int| 0 <= i < after.ridges@.len() implies (#[trigger] after.ridges@[i]).reversed == start.ridges@[i].reversed by {
        if i != index as int && i != rev as int {
            assert(after.ridges@[i] == before.ridges@[i]);
        }
        assert(before.ridges@[i].reversed == start.ridges@[i].reversed);
    }
    assert forall|m: int, r: usize| 0 <= m < after.minutiae@.len() implies
        (#[trigger] after.listed(m).contains(r) <==> (start.listed(m).contains(r) && !next(r as int))) by {
        lemma_without_contains(before.listed(m), index, rev, r);
        assert(before.listed(m).contains(r) <==> (start.listed(m).contains(r) && !drop(r as int)));
        assert(next(r as int) == (drop(r as int) || r as int == index as int || r as int == rev as int));
        assert(after.listed(m) == without(before.listed(m), index, rev));
    }
    assert forall|m: int| 0 <= m < after.minutiae@.len() implies (#[trigger] after.minutiae@[m]).position == start.minutiae@[m].position by {
        assert(before.minutiae@[m].position == start.minutiae@[m].position);
    }
    assert forall|m: int| 0 <= m < after.minutiae@.len() implies
        #[trigger] after.listed(m) == start.listed(m).filter(|r: usize| !next(r as int)) by {
        assert(before.listed(m) == start.listed(m).filter(|r: usize| !drop(r as int)));
        lemma_without_filter(start.listed(m), |r: usize| !drop(r as int), |r: usize| !next(r as int), index, rev);
    }
}

/// Every rank below the count of set entries is the rank of a set entry.
pub proof fn lemma_rank_onto(s: Seq<bool>, n: int, j: int)
    requires
        0 <= j < rank(s, n),
        n <= s.len(),
    ensures
        exists|i: int| 0 <= i < n && s[i] && #[trigger] rank(s, i) == j,
    decreases n,
{
    if n > 0 {
        if j < rank(s, n - 1) {
            lemma_rank_onto(s, n - 1, j);
            let i = choose|i: int| 0 <= i < n - 1 && s[i] && #[trigger] rank(s, i) == j;
            assert(0 <= i < n && s[i] && rank(s, i) == j);
        } else {
            assert(s[n - 1] && rank(s, n - 1) == j);
        }
    }
}

/// In a consistent graph every listed ridge is attached, so a minutia keeps
/// as many ridges as it lists.
pub proof fn lemma_kept_len(g: SkeletonGraph, m: int, n: int)
    requires
        g.wf(),
        0 <= m < g.minutiae@.len(),
        0 <= n <= g.listed(m).len(),
    ensures
        kept_prefix(g, g.listed(m), n).len() == n,
    decreases n,
{
    if n > 0 {
        lemma_kept_len(g, m, n - 1);
        g.lemma_listed_attached(m, n - 1);
    }
}

/// A ridge of a compaction comes from an attached ridge: the same points,
/// and ends whose ridge lists are the kept lists of the old ends.
pub proof fn lemma_compacted_source(before: SkeletonGraph, after: SkeletonGraph, j: int) -> (i: int)
    requires
        before.wf(),
        compacted(before, after),
        0 <= j < after.ridges@.len(),
    ensures
        0 <= i < before.ridges@.len(),
        before.attached(i),
        rank(before.ridges_alive(), i) == j,
        after.ridges@[j].points@ == before.ridges@[i].points@,
        after.ridges@[j].start == Some(rank(before.minutiae_alive(), before.ridges@[i].start.unwrap() as int) as usize),
        after.ridges@[j].end == Some(rank(before.minutiae_alive(), before.ridges@[i].end.unwrap() as int) as usize),
        before.minutia_alive(before.ridges@[i].start.unwrap() as int) ==>
            after.listed(rank(before.minutiae_alive(), before.ridges@[i].start.unwrap() as int))
                == kept_list(before, before.ridges@[i].start.unwrap() as int),
        before.minutia_alive(before.ridges@[i].end.unwrap() as int) ==>
            after.listed(rank(before.minutiae_alive(), before.ridges@[i].end.unwrap() as int))
                == kept_list(before, before.ridges@[i].end.unwrap() as int),
{
    let ra = before.ridges_alive();
    lemma_rank_onto(ra, before.ridges@.len() as int, j);
    let i = choose|i: int| 0 <= i < before.ridges@.len() && ra[i] && #[trigger] rank(ra, i) == j;
    assert(before.attached(i));
    assert(before.ridge_ok(i));
    let s = before.ridges@[i].start.unwrap() as int;
    let e = before.ridges@[i].end.unwrap() as int;
    assert(0 <= s < before.minutiae@.len());
    assert(0 <= e < before.minutiae@.len());
    if before.minutia_alive(s) {
        assert(after.listed(rank(before.minutiae_alive(), s)) == kept_list(before, s));
    }
    if before.minutia_alive(e) {
        assert(after.listed(rank(before.minutiae_alive(), e)) == kept_list(before, e));
    }
    i
}

/// Minutiae at the same positions keep their coordinate differences.
pub proof fn lemma_same_positions_in_range(g: SkeletonGraph, h: SkeletonGraph)
    requires
        g.positions_in_range(),
        h.same_positions(&g),
    ensures
        h.positions_in_range(),
{
    assert forall|a: int, b: int| #![trigger h.minutiae@[a].position, h.minutiae@[b].position]
        0 <= a < h.minutiae@.len() && 0 <= b < h.minutiae@.len() implies {
        let p = h.minutiae@[a].position;
        let q = h.minutiae@[b].position;
        -0x7fff_ffff <= p.x - q.x <= 0x7fff_ffff && -0x7fff_ffff <= p.y - q.y <= 0x7fff_ffff
    } by {
        assert(h.minutiae@[a].position == g.minutiae@[a].position);
        assert(h.minutiae@[b].position == g.minutiae@[b].position);
    }
}

/// Where ridge `i` of `g` runs: the positions of its two minutiae, and its points.
pub open spec fn ridge_course(g: SkeletonGraph, i: int) -> (IntPoint, IntPoint, Seq<IntPoint>) {
    let r = g.ridges@[i];
    (g.minutiae@[r.start.unwrap() as int].position, g.minutiae@[r.end.unwrap() as int].position, r.points@)
}

/// The courses of the attached ridges among the first `n` ridges of `g`, in order.
pub open spec fn attached_courses(g: SkeletonGraph, n: int) -> Seq<(IntPoint, IntPoint, Seq<IntPoint>)>
    decreases n,
{
    if n <= 0 {
        Seq::empty()
    } else if g.attached(n - 1) {
        attached_courses(g, n - 1).push(ridge_course(g, n - 1))
    } else {
        attached_courses(g, n - 1)
    }
}

/// The courses of all ridges of `g`, in order.
pub open spec fn all_courses(g: SkeletonGraph) -> Seq<(IntPoint, IntPoint, Seq<IntPoint>)> {
    Seq::new(g.ridges@.len(), |j: int| ridge_course(g, j))
}

/// The attached courses: one per attached ridge, the `k`-th at the `k`-th
/// attached ridge.
proof fn lemma_attached_courses(g: SkeletonGraph, n: int)
    requires
        0 <= n <= g.ridges@.len(),
    ensures
        attached_courses(g, n).len() == rank(g.ridges_alive(), n),
        forall|i: int| 0 <= i < n && g.attached(i) ==>
            attached_courses(g, n)[rank(g.ridges_alive(), i)] == #[trigger] ridge_course(g, i),
    decreases n,
{
    let ra = g.ridges_alive();
    if n > 0 {
        lemma_attached_courses(g, n - 1);
        assert(ra[n - 1] == g.attached(n - 1));
        assert forall|i: int| 0 <= i < n && g.attached(i) implies
            attached_courses(g, n)[rank(ra, i)] == #[trigger] ridge_course(g, i) by {
            let prev = attached_courses(g, n - 1);
            if i < n - 1 {
                assert(ra[i] == g.attached(i));
                lemma_rank_strict(ra, i, n - 1);
                lemma_rank_bounds(ra, 0, i);
                assert(prev[rank(ra, i)] == ridge_course(g, i));
                if g.attached(n - 1) {
                    assert(attached_courses(g, n) == prev.push(ridge_course(g, n - 1)));
                }
            } else {
                assert(attached_courses(g, n) == prev.push(ridge_course(g, n - 1)));
                assert(rank(ra, n - 1) == prev.len());
            }
        }
    }
}

/// Compaction keeps the attached ridges and nothing else, in their order:
/// each runs between minutiae at the same positions along the same points.
pub proof fn law_compact_keeps_courses(before: SkeletonGraph, after: SkeletonGraph)
    requires
        before.wf(),
        compacted(before, after),
    ensures
        all_courses(after) == attached_courses(before, before.ridges@.len() as int),
{
    let n = before.ridges@.len() as int;
    let ra = before.ridges_alive();
    let ma = before.minutiae_alive();
    lemma_attached_courses(before, n);
    assert forall|j: int| 0 <= j < after.ridges@.len() implies
        #[trigger] all_courses(after)[j] == attached_courses(before, n)[j] by {
        let i = lemma_compacted_source(before, after, j);
        assert(before.ridge_ok(i));
        let r = before.ridges@[i];
        let s = r.start.unwrap() as int;
        let e = r.end.unwrap() as int;
        let rev = r.reversed as int;
        assert(before.ridge_ok(rev));
        let ks = choose|k: int| 0 <= k < before.listed(s).len() && before.listed(s)[k] == i as usize;
        let ke = choose|k: int| 0 <= k < before.listed(e).len() && before.listed(e)[k] == rev as usize;
        before.lemma_listed_attached(s, ks);
        before.lemma_listed_attached(e, ke);
        assert(before.minutia_alive(s));
        assert(before.minutia_alive(e));
        lemma_rank_bounds(ma, 0, s);
        lemma_rank_bounds(ma, 0, e);
        assert(after.minutiae@[rank(ma, s)].position == before.minutiae@[s].position);
        assert(after.minutiae@[rank(ma, e)].position == before.minutiae@[e].position);
        assert(ridge_course(after, j) == ridge_course(before, i));
    }
    assert(all_courses(after) =~= attached_courses(before, n));
}

/// A filter that keeps every element keeps the sequence.
pub proof fn lemma_filter_keeps_all<A>(s: Seq<A>, p: spec_fn(A) -> bool)
    requires
        forall|i: int| 0 <= i < s.len() ==> p(#[trigger] s[i]),
    ensures
        s.filter(p) == s,
    decreases s.len(),
{
    reveal(Seq::filter);
    if s.len() > 0 {
        lemma_filter_keeps_all(s.drop_last(), p);
        assert(p(s[s.len() - 1]));
        assert(s.drop_last().push(s.last()) =~= s);
    } else {
        assert(s.filter(p) =~= s);
    }
}

/// Leaving `a` and `b` out of what `p` keeps of `s` keeps what `q` keeps,
/// when `q` is `p` without `a` and `b`.
pub proof fn lemma_without_filter(s: Seq<usize>, p: spec_fn(usize) -> bool, q: spec_fn(usize) -> bool, a: usize, b: usize)
    requires
        forall|r: usize| #[trigger] q(r) == (p(r) && r != a && r != b),
    ensures
        without(s.filter(p), a, b) == s.filter(q),
    decreases s.len(),
{
    reveal(Seq::filter);
    if s.len() > 0 {
        lemma_without_filter(s.drop_last(), p, q, a, b);
        let sub = s.drop_last().filter(p);
        if p(s.last()) {
            assert(s.filter(p) == sub.push(s.last()));
            assert(sub.push(s.last()).drop_last() =~= sub);
        } else {
            assert(s.filter(p) == sub);
        }
    } else {
        assert(s.filter(p) =~= Seq::<usize>::empty());
        assert(s.filter(q) =~= Seq::<usize>::empty());
    }
}

impl SkeletonGraph {
    /// Which ridges are attached.
    pub open spec fn ridges_alive(&self) -> Seq<bool> {
        Seq::new(self.ridges@.len(), |i: int| self.attached(i))
    }

    /// Whether minutia `m` lists an attached ridge.
    pub open spec fn minutia_alive(&self, m: int) -> bool {
        exists|k: int| 0 <= k < self.listed(m).len() && self.attached(#[trigger] self.listed(m)[k] as int)
    }

    /// Which minutiae list an attached ridge.
    pub open spec fn minutiae_alive(&self) -> Seq<bool> {
        Seq::new(self.minutiae@.len(), |m: int| self.minutia_alive(m))
    }

    fn alive_ridges(&self) -> (v: Vec<bool>)
        ensures
            v@ == self.ridges_alive(),
    {
        let mut v: Vec<bool> = Vec::new();
        let mut i: usize = 0;
        while i < self.ridges.len()
            invariant
                i <= self.ridges@.len(),
                v@ == self.ridges_alive().subrange(0, i as int),
            decreases self.ridges@.len() - i,
        {
            v.push(self.is_attached(i));
            i = i + 1;
        }
        assert(v@ =~= self.ridges_alive());
        v
    }

    fn alive_minutiae(&self, ridge_alive: &Vec<bool>) -> (v: Vec<bool>)
        requires
            self.wf(),
            ridge_alive@ == self.ridges_alive(),
        ensures
            v@ == self.minutiae_alive(),
    {
        let mut v: Vec<bool> = Vec::new();
        let mut m: usize = 0;
        while m < self.minutiae.len()
            invariant
                self.wf(),
                ridge_alive@ == self.ridges_alive(),
                m <= self.minutiae@.len(),
                v@ == self.minutiae_alive().subrange(0, m as int),
            decreases self.minutiae@.len() - m,
        {
            let list = &self.minutiae[m].ridges;
            let mut any = false;
            let mut k: usize = 0;
            while k < list.len()
                invariant
                    self.wf(),
                    ridge_alive@ == self.ridges_alive(),
                    m < self.minutiae@.len(),
                    list@ == self.listed(m as int),
                    k <= list@.len(),
                    any == exists|k2: int| 0 <= k2 < k && self.attached(#[trigger] self.listed(m as int)[k2] as int),
                decreases list@.len() - k,
            {
                proof {
                    assert(self.listed_ok(m as int, k as int));
                }
                if ridge_alive[list[k]] {
                    any = true;
                }
                k = k + 1;
            }
            v.push(any);
            m = m + 1;
        }
        assert(v@ =~= self.minutiae_alive());
        v
    }

    /// Drops detached ridges and minutiae without attached ridges, renumbering
    /// what stays in its old order. Returns, for each old minutia, its new
    /// index, or `None` when it was dropped.
    pub fn compact(&mut self) -> (map: Vec<Option<usize>>)
        requires
            old(self).wf(),
        ensures
            final(self).wf(),
            final(self).minutiae@.len() == rank(old(self).minutiae_alive(), old(self).minutiae@.len() as int),
            final(self).ridges@.len() == rank(old(self).ridges_alive(), old(self).ridges@.len() as int),
            forall|i: int| 0 <= i < final(self).ridges@.len() ==> #[trigger] final(self).attached(i),
            forall|m: int| 0 <= m < final(self).minutiae@.len() ==> #[trigger] final(self).listed(m).len() > 0,
            map@.len() == old(self).minutiae@.len(),
            forall|i: int| 0 <= i < old(self).minutiae@.len() ==> #[trigger] map@[i] == if old(self).minutia_alive(i) {
                Some(rank(old(self).minutiae_alive(), i) as usize)
            } else {
                None
            },
            forall|i: int| 0 <= i < old(self).minutiae@.len() && old(self).minutia_alive(i) ==>
                final(self).minutiae@[rank(old(self).minutiae_alive(), i)].position == (#[trigger] old(self).minutiae@[i]).position,
            forall|i: int| 0 <= i < old(self).minutiae@.len() && old(self).minutia_alive(i) ==>
                final(self).listed(rank(old(self).minutiae_alive(), i)) == #[trigger] kept_list(*old(self), i),
            forall|i: int| 0 <= i < old(self).ridges@.len() && old(self).attached(i) ==> {
                &&& final(self).ridges@[rank(old(self).ridges_alive(), i)].points@ == (#[trigger] old(self).ridges@[i]).points@
                &&& final(self).ridges@[rank(old(self).ridges_alive(), i)].reversed
                    == rank(old(self).ridges_alive(), old(self).ridges@[i].reversed as int) as usize
                &&& final(self).ridges@[rank(old(self).ridges_alive(), i)].start
                    == Some(rank(old(self).minutiae_alive(), old(self).ridges@[i].start.unwrap() as int) as usize)
                &&& final(self).ridges@[rank(old(self).ridges_alive(), i)].end
                    == Some(rank(old(self).minutiae_alive(), old(self).ridges@[i].end.unwrap() as int) as usize)
            },
            old(self).positions_in_range() ==> final(self).positions_in_range(),
            compacted(*old(self), *final(self)),
    {
        let ghost g = *self;
        let ridge_alive = self.alive_ridges();
        let minutia_alive = self.alive_minutiae(&ridge_alive);
        let minutia_map = ranks(&minutia_alive);
        let ridge_map = ranks(&ridge_alive);
        let nm = self.minutiae.len();
        let nr = self.ridges.len();
        let ghost ma = minutia_alive@;
        let ghost ra = ridge_alive@;
        proof {
            lemma_rank_bounds(ma, 0, nm as int);
            lemma_rank_bounds(ra, 0, nr as int);
        }
        // the minutiae that stay, with empty lists
        let mut new_minutiae: Vec<GraphMinutia> = Vec::new();
        let ghost mut m_origin: Seq<int> = Seq::empty();
        let mut i: usize = 0;
        while i < nm
            invariant
                *self == g,
                nm == g.minutiae@.len(),
                minutia_alive@ == ma,
                ma == g.minutiae_alive(),
                i <= nm,
                new_minutiae@.len() == rank(ma, i as int),
                m_origin.len() == new_minutiae@.len(),
                forall|j: int| 0 <= j < new_minutiae@.len() ==> {
                    let o = #[trigger] m_origin[j];
                    &&& 0 <= o < i
                    &&& ma[o]
                    &&& rank(ma, o) == j
                    &&& new_minutiae@[j].position == g.minutiae@[o].position
                    &&& new_minutiae@[j].ridges@.len() == 0
                },
            decreases nm - i,
        {
            if minutia_alive[i] {
                proof {
                    m_origin = m_origin.push(i as int);
                }
                new_minutiae.push(GraphMinutia { position: self.minutiae[i].position, ridges: Vec::new() });
            }
            i = i + 1;
        }
        // the ridges that stay, renumbered
        let mut new_ridges: Vec<GraphRidge> = Vec::new();
        let ghost mut r_origin: Seq<int> = Seq::empty();
        let mut i: usize = 0;
        while i < nr
            invariant
                *self == g,
                g.wf(),
                nr == g.ridges@.len(),
                nm == g.minutiae@.len(),
                ridge_alive@ == ra,
                ra == g.ridges_alive(),
                ma == g.minutiae_alive(),
                minutia_map@.len() == nm,
                ridge_map@.len() == nr,
                forall|k: int| 0 <= k < nm ==> #[trigger] minutia_map@[k] == if ma[k] { Some(rank(ma, k) as usize) } else { None },
                forall|k: int| 0 <= k < nr ==> #[trigger] ridge_map@[k] == if ra[k] { Some(rank(ra, k) as usize) } else { None },
                i <= nr,
                new_ridges@.len() == rank(ra, i as int),
                r_origin.len() == new_ridges@.len(),
                forall|j: int| 0 <= j < new_ridges@.len() ==> {
                    let o = #[trigger] r_origin[j];
                    let r = g.ridges@[o];
                    &&& 0 <= o < i
                    &&& ra[o]
                    &&& rank(ra, o) == j
                    &&& new_ridges@[j].reversed == rank(ra, r.reversed as int)
                    &&& new_ridges@[j].start == Some(rank(ma, r.start.unwrap() as int) as usize)
                    &&& new_ridges@[j].end == Some(rank(ma, r.end.unwrap() as int) as usize)
                    &&& new_ridges@[j].points@ == r.points@
                },
            decreases nr - i,
        {
            if ridge_alive[i] {
                proof {
                    assert(ra[i as int]);
                    lemma_attached_ends(g, i as int);
                    let r = g.ridges@[i as int];
                    lemma_rank_bounds(ra, 0, r.reversed as int);
                    lemma_rank_bounds(ma, 0, r.start.unwrap() as int);
                    lemma_rank_bounds(ma, 0, r.end.unwrap() as int);
                }
                let r = &self.ridges[i];
                let s = r.start.unwrap();
                let e = r.end.unwrap();
                let reversed = ridge_map[r.reversed].unwrap();
                let new_start = minutia_map[s];
                let new_end = minutia_map[e];
                let points = copy_points(&r.points);
                proof {
                    r_origin = r_origin.push(i as int);
                }
                new_ridges.push(GraphRidge { reversed, start: new_start, end: new_end, points });
            }
            i = i + 1;
        }
        // the ridge lists of the minutiae that stay
        let mut i: usize = 0;
        while i < nm
            invariant
                *self == g,
                g.wf(),
                nr == g.ridges@.len(),
                nm == g.minutiae@.len(),
                ridge_alive@ == ra,
                minutia_alive@ == ma,
                ra == g.ridges_alive(),
                ma == g.minutiae_alive(),
                minutia_map@.len() == nm,
                ridge_map@.len() == nr,
                forall|k: int| 0 <= k < nm ==> #[trigger] minutia_map@[k] == if ma[k] { Some(rank(ma, k) as usize) } else { None },
                forall|k: int| 0 <= k < nr ==> #[trigger] ridge_map@[k] == if ra[k] { Some(rank(ra, k) as usize) } else { None },
                new_ridges@.len() == rank(ra, nr as int),
                r_origin.len() == new_ridges@.len(),
                forall|j: int| 0 <= j < new_ridges@.len() ==> {
                    let o = #[trigger] r_origin[j];
                    let r = g.ridges@[o];
                    &&& 0 <= o < nr
                    &&& ra[o]
                    &&& rank(ra, o) == j
                    &&& new_ridges@[j].reversed == rank(ra, r.reversed as int)
                    &&& new_ridges@[j].start == Some(rank(ma, r.start.unwrap() as int) as usize)
                    &&& new_ridges@[j].end == Some(rank(ma, r.end.unwrap() as int) as usize)
                    &&& new_ridges@[j].points@ == r.points@
                },
                i <= nm,
                new_minutiae@.len() == rank(ma, nm as int),
                m_origin.len() == new_minutiae@.len(),
                forall|j: int| 0 <= j < new_minutiae@.len() ==> {
                    let o = #[trigger] m_origin[j];
                    &&& 0 <= o < nm
                    &&& ma[o]
                    &&& rank(ma, o) == j
                    &&& new_minutiae@[j].position == g.minutiae@[o].position
                    &&& forall|k: int| 0 <= k < new_minutiae@[j].ridges@.len() ==> {
                        let e = #[trigger] new_minutiae@[j].ridges@[k] as int;
                        &&& 0 <= e < new_ridges@.len()
                        &&& g.ridges@[r_origin[e]].start == Some(o as usize)
                    }
                    &&& o >= i ==> new_minutiae@[j].ridges@.len() == 0
                    &&& o < i ==> new_minutiae@[j].ridges@ == kept_list(g, o)
                    &&& o < i ==> new_minutiae@[j].ridges@.len() > 0
                    &&& o < i ==> forall|orr: int| 0 <= orr < nr && ra[orr] && g.ridges@[orr].start == Some(o as usize) ==>
                        new_minutiae@[j].ridges@.contains(#[trigger] rank(ra, orr) as usize)
                },
            decreases nm - i,
        {
            if minutia_alive[i] {
                let new_i = minutia_map[i].unwrap();
                let ghost j = new_i as int;
                proof {
                    lemma_rank_bounds(ma, i as int, nm as int);
                    lemma_rank_strict(ma, i as int, nm as int);
                    assert(m_origin[j] == i) by {
                        let o = m_origin[j];
                        if o < i { lemma_rank_strict(ma, o, i as int); }
                        if o > i { lemma_rank_strict(ma, i as int, o); }
                    }
                }
                let ghost before = new_minutiae@;
                let ghost mut pos: Seq<int> = Seq::empty();
                proof {
                    assert(new_minutiae@[j].ridges@ =~= kept_prefix(g, g.listed(i as int), 0));
                }
                let mut k: usize = 0;
                while k < self.minutiae[i].ridges.len()
                    invariant
                        *self == g,
                        g.wf(),
                        nr == g.ridges@.len(),
                        i < nm,
                        nm == g.minutiae@.len(),
                        ridge_alive@ == ra,
                        ra == g.ridges_alive(),
                        ridge_map@.len() == nr,
                        forall|k2: int| 0 <= k2 < nr ==> #[trigger] ridge_map@[k2] == if ra[k2] { Some(rank(ra, k2) as usize) } else { None },
                        new_ridges@.len() == rank(ra, nr as int),
                        r_origin.len() == new_ridges@.len(),
                        forall|j2: int| 0 <= j2 < new_ridges@.len() ==> {
                            let o = #[trigger] r_origin[j2];
                            &&& 0 <= o < nr
                            &&& ra[o]
                            &&& rank(ra, o) == j2
                        },
                        0 <= j < new_minutiae@.len(),
                        new_i == j,
                        before.len() == new_minutiae@.len(),
                        forall|j2: int| 0 <= j2 < new_minutiae@.len() && j2 != j ==> #[trigger] new_minutiae@[j2] == before[j2],
                        new_minutiae@[j].position == before[j].position,
                        k <= g.listed(i as int).len(),
                        new_minutiae@[j].ridges@ == kept_prefix(g, g.listed(i as int), k as int),
                        pos.len() == k,
                        forall|k3: int| 0 <= k3 < new_minutiae@[j].ridges@.len() ==> {
                            let e = #[trigger] new_minutiae@[j].ridges@[k3] as int;
                            &&& 0 <= e < new_ridges@.len()
                            &&& g.ridges@[r_origin[e]].start == Some(i as usize)
                        },
                        forall|k2: int| 0 <= k2 < k && g.attached(#[trigger] g.listed(i as int)[k2] as int) ==> {
                            &&& 0 <= pos[k2] < new_minutiae@[j].ridges@.len()
                            &&& new_minutiae@[j].ridges@[pos[k2]] == rank(ra, g.listed(i as int)[k2] as int)
                        },
                    decreases g.listed(i as int).len() - k,
                {
                    let r = self.minutiae[i].ridges[k];
                    proof {
                        assert(g.listed_ok(i as int, k as int));
                        lemma_rank_bounds(ra, 0, r as int);
                    }
                    let ghost list_before = new_minutiae@[j].ridges@;
                    proof {
                        assert(g.ridges_alive()[r as int] == g.attached(r as int));
                    }
                    if ridge_alive[r] {
                        let nr_index = ridge_map[r].unwrap();
                        new_minutiae[new_i].ridges.push(nr_index);
                        proof {
                            let list = new_minutiae@[j].ridges@;
                            assert(list == list_before.push(nr_index));
                            lemma_rank_strict(ra, r as int, nr as int);
                            let o = r_origin[nr_index as int];
                            assert(o == r) by {
                                if o < r { lemma_rank_strict(ra, o, r as int); }
                                if o > r { lemma_rank_strict(ra, r as int, o); }
                            }
                            assert forall|k3: int| 0 <= k3 < list.len() implies {
                                let e = #[trigger] list[k3] as int;
                                &&& 0 <= e < new_ridges@.len()
                                &&& g.ridges@[r_origin[e]].start == Some(i as usize)
                            } by {
                                if k3 < list_before.len() {
                                    assert(list[k3] == list_before[k3]);
                                }
                            }
                            pos = pos.push(list_before.len() as int);
                        }
                    } else {
                        proof {
                            pos = pos.push(-1);
                        }
                    }
                    k = k + 1;
                }
                proof {
                    let list = new_minutiae@[j].ridges@;
                    assert forall|orr: int| 0 <= orr < nr && ra[orr] && g.ridges@[orr].start == Some(i as usize) implies
                        list.contains(#[trigger] rank(ra, orr) as usize) by {
                        assert(g.ridge_ok(orr));
                        let k2 = choose|k2: int| 0 <= k2 < g.listed(i as int).len() && g.listed(i as int)[k2] == orr as usize;
                        assert(g.ridges_alive()[orr] == g.attached(orr));
                        assert(g.attached(g.listed(i as int)[k2] as int));
                        lemma_rank_bounds(ra, 0, orr);
                        assert(list[pos[k2]] == rank(ra, orr) as usize);
                    }
                    assert(g.minutiae_alive()[i as int] == g.minutia_alive(i as int));
                    let k2 = choose|k2: int| 0 <= k2 < g.listed(i as int).len() && g.attached(#[trigger] g.listed(i as int)[k2] as int);
                    assert(list[pos[k2]] == rank(ra, g.listed(i as int)[k2] as int));
                    assert(m_origin[j] == i);
                }
            }
            i = i + 1;
        }
        let ghost new_g = SkeletonGraph { minutiae: new_minutiae, ridges: new_ridges };
        self.minutiae = new_minutiae;
        self.ridges = new_ridges;
        proof {
            lemma_rank_bounds(ma, 0, nm as int);
            lemma_rank_bounds(ra, 0, nr as int);
            assert forall|j: int| 0 <= j < self.ridges@.len() implies #[trigger] self.ridge_ok(j) by {
                let o = r_origin[j];
                let r = g.ridges@[o];
                let ro = r.reversed as int;
                assert(g.ridges_alive()[o] == g.attached(o));
                lemma_attached_ends(g, o);
                assert(g.ridges_alive()[ro] == g.attached(ro));
                let s = r.start.unwrap() as int;
                let e = r.end.unwrap() as int;
                assert(g.minutiae_alive()[s] == g.minutia_alive(s));
                assert(g.minutiae_alive()[e] == g.minutia_alive(e));
                let jr = rank(ra, ro);
                lemma_rank_bounds(ra, 0, ro);
                lemma_rank_bounds(ma, 0, e);
                lemma_rank_strict(ra, ro, nr as int);
                let o2 = r_origin[jr];
                assert(o2 == ro) by {
                    if o2 < ro { lemma_rank_strict(ra, o2, ro); }
                    if o2 > ro { lemma_rank_strict(ra, ro, o2); }
                }
                assert(jr != j) by {
                    if ro < o { lemma_rank_strict(ra, ro, o); }
                    if ro > o { lemma_rank_strict(ra, o, ro); }
                }
                lemma_rank_strict(ma, s, nm as int);
                lemma_rank_strict(ma, e, nm as int);
                lemma_rank_bounds(ma, 0, s);
                let ns = rank(ma, s);
                let os = m_origin[ns];
                assert(os == s) by {
                    if os < s { lemma_rank_strict(ma, os, s); }
                    if os > s { lemma_rank_strict(ma, s, os); }
                }
                lemma_rank_bounds(ra, 0, o);
                assert(self.minutiae@[ns].ridges@.contains(rank(ra, o) as usize));
                let nr_ = self.ridges@[j];
                assert(nr_.reversed == jr);
                assert(jr < self.ridges@.len());
                assert(self.ridges@[jr].reversed == j);
                assert(nr_.start == Some(ns as usize));
                assert(self.ridges@[jr].start == nr_.end);
                assert(ns < self.minutiae@.len());
                assert(rank(ma, e) < self.minutiae@.len());
                assert(j as usize == rank(ra, o) as usize);
                assert(self.minutiae@.len() == self.minutiae.len());
                assert((ns as usize) as int == ns);
                assert(self.minutiae@[(ns as usize) as int].ridges@.contains(j as usize));
            }
            assert forall|m: int, k: int|
                0 <= m < self.minutiae@.len() && 0 <= k < self.minutiae@[m].ridges@.len() implies #[trigger] self.listed_ok(m, k) by {
                let o = m_origin[m];
                let e = self.minutiae@[m].ridges@[k] as int;
                let oe = r_origin[e];
                assert(g.ridges_alive()[oe] == g.attached(oe));
                lemma_attached_ends(g, oe);
            }
            assert forall|i: int| 0 <= i < g.minutiae@.len() && g.minutia_alive(i) implies
                self.minutiae@[rank(g.minutiae_alive(), i)].position == (#[trigger] g.minutiae@[i]).position by {
                assert(g.minutiae_alive()[i] == g.minutia_alive(i));
                assert(ma[i]);
                lemma_rank_strict(ma, i, nm as int);
                assert(rank(ma, i) < m_origin.len());
                lemma_rank_bounds(ma, 0, i);
                let jj = rank(ma, i);
                assert(0 <= jj < new_g.minutiae@.len());
                let o = m_origin[jj];
                assert(0 <= o < nm);
                assert(ma[o]);
                if o < i { lemma_rank_strict(ma, o, i); }
                if o > i { lemma_rank_strict(ma, i, o); }
            }
            assert forall|i: int| 0 <= i < g.ridges@.len() && g.attached(i) implies {
                &&& self.ridges@[rank(g.ridges_alive(), i)].points@ == (#[trigger] g.ridges@[i]).points@
                &&& self.ridges@[rank(g.ridges_alive(), i)].start == Some(rank(g.minutiae_alive(), g.ridges@[i].start.unwrap() as int) as usize)
                &&& self.ridges@[rank(g.ridges_alive(), i)].end == Some(rank(g.minutiae_alive(), g.ridges@[i].end.unwrap() as int) as usize)
            } by {
                assert(g.ridges_alive()[i] == g.attached(i));
                lemma_rank_strict(ra, i, nr as int);
                lemma_rank_bounds(ra, 0, i);
                let o = r_origin[rank(ra, i)];
                if o < i { lemma_rank_strict(ra, o, i); }
                if o > i { lemma_rank_strict(ra, i, o); }
            }
            assert forall|i: int| 0 <= i < g.minutiae@.len() && g.minutia_alive(i) implies
                self.listed(rank(g.minutiae_alive(), i)) == #[trigger] kept_list(g, i) by {
                assert(g.minutiae_alive()[i] == g.minutia_alive(i));
                lemma_rank_strict(ma, i, nm as int);
                lemma_rank_bounds(ma, 0, i);
                let jj = rank(ma, i);
                let o = m_origin[jj];
                if o < i { lemma_rank_strict(ma, o, i); }
                if o > i { lemma_rank_strict(ma, i, o); }
            }
            assert forall|i: int| 0 <= i < g.ridges@.len() && g.attached(i) implies
                self.ridges@[rank(g.ridges_alive(), i)].reversed == rank(g.ridges_alive(), (#[trigger] g.ridges@[i]).reversed as int) as usize by {
                assert(g.ridges_alive()[i] == g.attached(i));
                lemma_rank_strict(ra, i, nr as int);
                lemma_rank_bounds(ra, 0, i);
                let o = r_origin[rank(ra, i)];
                if o < i { lemma_rank_strict(ra, o, i); }
                if o > i { lemma_rank_strict(ra, i, o); }
            }
            assert forall|m: int| 0 <= m < self.minutiae@.len() implies #[trigger] self.listed(m).len() > 0 by {
                let o = m_origin[m];
            }
            assert(g.positions_in_range() ==> self.positions_in_range()) by {
                if g.positions_in_range() {
                    assert forall|a: int, b: int| #![trigger self.minutiae@[a].position, self.minutiae@[b].position]
                        0 <= a < self.minutiae@.len() && 0 <= b < self.minutiae@.len() implies {
                        let p = self.minutiae@[a].position;
                        let q = self.minutiae@[b].position;
                        -0x7fff_ffff <= p.x - q.x <= 0x7fff_ffff && -0x7fff_ffff <= p.y - q.y <= 0x7fff_ffff
                    } by {
                        let oa = m_origin[a];
                        let ob = m_origin[b];
                        assert(g.minutiae@[oa].position == self.minutiae@[a].position);
                        assert(g.minutiae@[ob].position == self.minutiae@[b].position);
                    }
                }
            }
            assert forall|i: int| 0 <= i < self.ridges@.len() implies #[trigger] self.attached(i) by {
                let o = r_origin[i];
                assert(g.ridges_alive()[o] == g.attached(o));
            }
        }
        minutia_map
    }
}

impl Default for SkeletonGraph {
    fn default() -> (g: SkeletonGraph)
        ensures
            g.wf(),
            g.minutiae@.len() == 0,
            g.ridges@.len() == 0,
    {
        SkeletonGraph::new()
    }
}

} // verus!
