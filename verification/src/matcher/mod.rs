use vstd::prelude::*;
use crate::extractor::minutia_collector_graph::{dist_sq, distance_sq};
use crate::primitives::int_point::IntPoint;

verus! {

/// A probe minutia paired with a candidate minutia, with the number of edges that support the pairing.
#[derive(Clone, Copy, Debug, PartialEq, Eq, Structural)]
pub struct MinutiaPair {
    pub probe: usize,
    pub candidate: usize,
    pub supporting_edges: usize,
}

impl MinutiaPair {
    /// A pair without supporting edges.
    pub fn new(probe: usize, candidate: usize) -> (r: MinutiaPair)
        ensures
            r.probe == probe,
            r.candidate == candidate,
            r.supporting_edges == 0,
    {
        MinutiaPair { probe, candidate, supporting_edges: 0 }
    }
}

/// Among the neighbours of point `i`, `j` comes before `k`: it is nearer,
/// or as near and listed earlier.
pub open spec fn nearer(ps: Seq<IntPoint>, i: int, j: int, k: int) -> bool {
    dist_sq(ps[i], ps[j]) < dist_sq(ps[i], ps[k]) || (dist_sq(ps[i], ps[j]) == dist_sq(ps[i], ps[k]) && j < k)
}

/// `t` is the index of a point other than `i`.
pub open spec fn candidate(ps: Seq<IntPoint>, i: int, t: int) -> bool {
    0 <= t < ps.len() && t != i
}

/// The indices of the `max` points nearest to point `i` (all the others
/// when there are fewer), nearest first, ties in the order of the list.
pub fn nearest_neighbors(positions: &Vec<IntPoint>, i: usize, max: usize) -> (r: Vec<usize>)
    requires
        i < positions@.len(),
    ensures
        r@.len() <= max,
        forall|a: int| 0 <= a < r@.len() ==> candidate(positions@, i as int, #[trigger] r@[a] as int),
        forall|a: int, b: int| 0 <= a < b < r@.len() ==> nearer(positions@, i as int, #[trigger] r@[a] as int, #[trigger] r@[b] as int),
        forall|t: int| candidate(positions@, i as int, t) && !r@.contains(t as usize)
            ==> forall|a: int| 0 <= a < r@.len() ==> nearer(positions@, i as int, #[trigger] r@[a] as int, t),
        r@.len() < max ==> forall|t: int| candidate(positions@, i as int, t) ==> #[trigger] r@.contains(t as usize),
{
    let n = positions.len();
    let ghost ps = positions@;
    let mut chosen: Vec<bool> = Vec::new();
    let mut t: usize = 0;
    while t < n
        invariant
            t <= n,
            chosen@.len() == t,
            forall|u: int| 0 <= u < t ==> !chosen@[u],
        decreases n - t,
    {
        chosen.push(false);
        t = t + 1;
    }
    let mut r: Vec<usize> = Vec::new();
    let mut done = false;
    while r.len() < max && !done
        invariant
            n == ps.len(),
            ps == positions@,
            i < n,
            chosen@.len() == n,
            r@.len() <= max,
            forall|u: int| 0 <= u < n ==> (#[trigger] chosen@[u] <==> r@.contains(u as usize)),
            forall|a: int| 0 <= a < r@.len() ==> candidate(ps, i as int, #[trigger] r@[a] as int),
            forall|a: int, b: int| 0 <= a < b < r@.len() ==> nearer(ps, i as int, #[trigger] r@[a] as int, #[trigger] r@[b] as int),
            forall|u: int| candidate(ps, i as int, u) && !r@.contains(u as usize)
                ==> forall|a: int| 0 <= a < r@.len() ==> nearer(ps, i as int, #[trigger] r@[a] as int, u),
            done ==> forall|u: int| candidate(ps, i as int, u) ==> #[trigger] r@.contains(u as usize),
        decreases max - r@.len(), if done { 0int } else { 1int },
    {
        let mut best: Option<usize> = None;
        let mut best_d: i128 = 0;
        let mut u: usize = 0;
        while u < n
            invariant
                n == ps.len(),
                ps == positions@,
                i < n,
                chosen@.len() == n,
                u <= n,
                forall|v: int| 0 <= v < n ==> (#[trigger] chosen@[v] <==> r@.contains(v as usize)),
                best is None ==> forall|v: int| 0 <= v < u && candidate(ps, i as int, v) ==> #[trigger] chosen@[v],
                best matches Some(b) ==> {
                    &&& b < u
                    &&& candidate(ps, i as int, b as int)
                    &&& !chosen@[b as int]
                    &&& best_d == dist_sq(ps[i as int], ps[b as int])
                    &&& forall|v: int| 0 <= v < u && candidate(ps, i as int, v) && !#[trigger] chosen@[v] && v != b
                        ==> nearer(ps, i as int, b as int, v)
                },
            decreases n - u,
        {
            if u != i && !chosen[u] {
                let d = distance_sq(&positions[i], &positions[u]);
                match best {
                    None => {
                        best = Some(u);
                        best_d = d;
                    }
                    Some(b) => {
                        if d < best_d {
                            best = Some(u);
                            best_d = d;
                        }
                    }
                }
            }
            u = u + 1;
        }
        match best {
            None => {
                done = true;
                proof {
                    assert forall|v: int| candidate(ps, i as int, v) implies #[trigger] r@.contains(v as usize) by {
                        assert(chosen@[v]);
                    }
                }
            }
            Some(b) => {
                let ghost before = r@;
                proof {
                    assert(!before.contains(b)) by {
                        assert(!chosen@[b as int]);
                    }
                    assert forall|a: int| 0 <= a < before.len() implies nearer(ps, i as int, #[trigger] before[a] as int, b as int) by {
                        assert(candidate(ps, i as int, b as int));
                    }
                }
                r.push(b);
                chosen.set(b, true);
                proof {
                    assert(r@.len() == before.len() + 1);
                    assert(r@[before.len() as int] == b);
                    assert forall|v: int| 0 <= v < n implies (#[trigger] chosen@[v] <==> r@.contains(v as usize)) by {
                        if v == b as int {
                            assert(r@[before.len() as int] == b);
                        } else if r@.contains(v as usize) {
                            let k = choose|k: int| 0 <= k < r@.len() && r@[k] == v as usize;
                            assert(k < before.len());
                            assert(before[k] == v as usize);
                        } else if before.contains(v as usize) {
                            let k = choose|k: int| 0 <= k < before.len() && before[k] == v as usize;
                            assert(r@[k] == v as usize);
                        }
                    }
                    assert forall|a: int, c: int| 0 <= a < c < r@.len() implies nearer(ps, i as int, #[trigger] r@[a] as int, #[trigger] r@[c] as int) by {
                        if c == before.len() {
                            assert(r@[a] == before[a]);
                            assert(!before.contains(b));
                        } else {
                            assert(r@[a] == before[a]);
                            assert(r@[c] == before[c]);
                        }
                    }
                    assert forall|v: int| candidate(ps, i as int, v) && !r@.contains(v as usize)
                        implies forall|a: int| 0 <= a < r@.len() ==> nearer(ps, i as int, #[trigger] r@[a] as int, v) by {
                        assert(!chosen@[v]);
                        assert(!before.contains(v as usize)) by {
                            if before.contains(v as usize) {
                                let k = choose|k: int| 0 <= k < before.len() && before[k] == v as usize;
                                assert(r@[k] == v as usize);
                            }
                        }
                        assert(v != b as int) by {
                            assert(r@[before.len() as int] == b);
                        }
                        assert forall|a: int| 0 <= a < r@.len() implies nearer(ps, i as int, #[trigger] r@[a] as int, v) by {
                            if a < before.len() {
                                assert(r@[a] == before[a]);
                            }
                        }
                    }
                }
            }
        }
    }
    r
}

} // verus!
