//! Road pathfinding: a cost-weighted A* search over the sector graph,
//! exhaustively relaxed so the returned path is provably optimal, followed
//! by smoothing of the path centroids into a curve.

use vstd::prelude::*;

use crate::counting::{cost_measure, lemma_cost_measure_nonneg, lemma_cost_measure_update,
    none_count};
use crate::geom::{dist_sq, dist_sq_val, in_rect, is_sqrt_floor, isqrt, sqrt_floor, Vec2i, SCALE};
use crate::map::{adjacent, connected, is_path, reachable, GenError, Sector, SectorGraph};

verus! {

/// Largest possible edge weight under the coordinate and cost bounds.
pub const WEIGHT_LIMIT: u64 = 0x800_0000_0000;

/// The cost of traversing the edge between two adjacent sectors: the
/// distance between their centroids times the mean of their per-unit
/// traversal costs, floored at one so every step has positive cost.
pub open spec fn edge_weight(a: Sector, b: Sector) -> int {
    let d = sqrt_floor(dist_sq(a.centroid, b.centroid));
    let w = d * (a.cost + b.cost) / (2 * SCALE);
    if w < 1 {
        1
    } else {
        w
    }
}

/// The edge weight does not depend on the direction of travel.
pub proof fn lemma_edge_weight_symmetric(a: Sector, b: Sector)
    ensures
        edge_weight(a, b) == edge_weight(b, a),
{
    crate::geom::lemma_dist_sq_symmetric(a.centroid, b.centroid);
}

/// Total cost of a walk: the sum of its edge weights.
pub open spec fn path_cost(s: Seq<Sector>, p: Seq<int>) -> int
    decreases p.len(),
{
    if p.len() <= 1 {
        0
    } else {
        path_cost(s, p.drop_last()) + edge_weight(s[p[p.len() - 2]], s[p[p.len() - 1]])
    }
}

/// A walk visits no sector twice.
pub open spec fn no_repeats(p: Seq<int>) -> bool {
    forall|k1: int, k2: int| 0 <= k1 < p.len() && 0 <= k2 < p.len() && k1 != k2 ==> #[trigger] p[k1]
        != #[trigger] p[k2]
}

/// The numeric value of an optional cost; unset entries count as negative
/// so they never satisfy a bound by accident.
pub open spec fn dval(o: Option<u64>) -> int {
    match o {
        Some(d) => d as int,
        None => -1,
    }
}

/// A walk's cost splits at its first edge.
proof fn lemma_cost_front(s: Seq<Sector>, p: Seq<int>)
    requires
        p.len() >= 2,
    ensures
        path_cost(s, p) == edge_weight(s[p[0]], s[p[1]]) + path_cost(s, p.subrange(1, p.len() as int)),
    decreases p.len(),
{
    if p.len() == 2 {
        assert(p.subrange(1, 2).len() == 1);
        assert(p.drop_last().len() == 1);
        assert(path_cost(s, p) == path_cost(s, p.drop_last()) + edge_weight(
            s[p[0]],
            s[p[1]],
        ));
    } else {
        let dl = p.drop_last();
        lemma_cost_front(s, dl);
        let q = p.subrange(1, p.len() as int);
        assert(dl.subrange(1, dl.len() as int) =~= q.drop_last());
        assert(dl[0] == p[0] && dl[1] == p[1]);
        assert(q[q.len() - 2] == p[p.len() - 2]);
        assert(q[q.len() - 1] == p[p.len() - 1]);
        assert(path_cost(s, p) == path_cost(s, dl) + edge_weight(
            s[p[p.len() - 2]],
            s[p[p.len() - 1]],
        ));
        assert(path_cost(s, dl) == edge_weight(s[p[0]], s[p[1]]) + path_cost(s, q.drop_last()));
        assert(path_cost(s, q) == path_cost(s, q.drop_last()) + edge_weight(
            s[q[q.len() - 2]],
            s[q[q.len() - 1]],
        ));
    }
}

/// Reversing a walk keeps its cost.
proof fn lemma_cost_reverse(s: Seq<Sector>, p: Seq<int>)
    ensures
        path_cost(s, p.reverse()) == path_cost(s, p),
    decreases p.len(),
{
    if p.len() <= 1 {
        if p.len() == 1 {
            assert(p.reverse().len() == 1);
        } else {
            assert(p.reverse().len() == 0);
        }
    } else {
        let q = p.drop_last();
        let v = p[p.len() - 1];
        lemma_cost_reverse(s, q);
        let r = p.reverse();
        assert(r.len() == p.len());
        assert(r[0] == v);
        assert(r.subrange(1, r.len() as int) =~= q.reverse());
        lemma_cost_front(s, r);
        assert(r[1] == p[p.len() - 2]);
        lemma_edge_weight_symmetric(s[v], s[p[p.len() - 2]]);
    }
}

/// Reversing a walk in a graph with a symmetric neighbor relation yields a
/// walk in the opposite direction.
proof fn lemma_path_reverse(s: Seq<Sector>, p: Seq<int>, a: int, b: int)
    requires
        is_path(s, p, a, b),
        forall|i: int, j: int| #[trigger] adjacent(s, i, j) ==> adjacent(s, j, i),
    ensures
        is_path(s, p.reverse(), b, a),
{
    let r = p.reverse();
    assert(r.len() == p.len());
    assert(r[0] == p[p.len() - 1]);
    assert(r[r.len() - 1] == p[0]);
    assert forall|k: int| 0 <= k < r.len() - 1 implies adjacent(s, #[trigger] r[k], r[k + 1]) by {
        let k0 = p.len() - 1 - k;
        assert(r[k] == p[k0]);
        assert(r[k + 1] == p[k0 - 1]);
        assert(adjacent(s, p[k0 - 1], p[k0]));
    }
}

/// A sector's cost table is fully relaxed at `v`: every neighbor is settled
/// no more expensively than through `v`.
pub open spec fn relaxed(s: Seq<Sector>, dist: Seq<Option<u64>>, v: int) -> bool {
    forall|k: int|
        0 <= k < s[v].neighbors@.len() ==> {
            let j = (#[trigger] s[v].neighbors@[k]) as int;
            dist[j] is Some && dval(dist[j]) <= dval(dist[v]) + edge_weight(s[v], s[j])
        }
}

/// In a fully relaxed cost table rooted at `end`, every walk from `end`
/// costs at least the settled value of its last sector.
proof fn lemma_relaxed_bound(
    s: Seq<Sector>,
    dist: Seq<Option<u64>>,
    end: int,
    p: Seq<int>,
    z: int,
)
    requires
        dist.len() == s.len(),
        0 <= end < s.len(),
        dist[end] == Some(0u64),
        forall|v: int| 0 <= v < s.len() && (#[trigger] dist[v]) is Some ==> relaxed(s, dist, v),
        is_path(s, p, end, z),
    ensures
        dist[z] is Some,
        dval(dist[z]) <= path_cost(s, p),
    decreases p.len(),
{
    if p.len() == 1 {
        assert(z == end);
    } else {
        let q = p.drop_last();
        let y = p[p.len() - 2];
        assert(is_path(s, q, end, y));
        lemma_relaxed_bound(s, dist, end, q, y);
        assert(adjacent(s, y, z));
        let k = choose|k: int| 0 <= k < s[y].neighbors@.len() && #[trigger] s[y].neighbors@[k] == z;
        assert(relaxed(s, dist, y));
        assert(dist[z] is Some && dval(dist[z]) <= dval(dist[y]) + edge_weight(s[y], s[z]));
    }
}

/// Some queue entry holds the key `v`.
pub open spec fn qcontains(q: Seq<usize>, v: int) -> bool {
    exists|t: int| 0 <= t < q.len() && (#[trigger] q[t]) as int == v
}

/// The walk's keys widened to mathematical integers.
pub open spec fn path_ints(p: Seq<usize>) -> Seq<int> {
    p.map_values(|u: usize| u as int)
}

/// The bookkeeping of the search that holds whether or not the frontier
/// accounts for every settled sector: table sizes, the root entry, queue
/// entries settled, settled costs bounded, and the predecessor structure.
pub open spec fn search_inv_core(
    s: Seq<Sector>,
    dist: Seq<Option<u64>>,
    prev: Seq<Option<usize>>,
    queue: Seq<usize>,
    end: int,
) -> bool {
    let n = s.len() as int;
    &&& dist.len() == n
    &&& prev.len() == n
    &&& 0 <= end < n
    &&& dist[end] == Some(0u64)
    &&& prev[end] is None
    &&& forall|t: int|
        0 <= t < queue.len() ==> ((#[trigger] queue[t]) as int) < n && dist[queue[t] as int]
            is Some
    &&& forall|v: int|
        0 <= v < n ==> ((#[trigger] dist[v]) matches Some(d) ==> d <= (n - none_count(dist))
            * WEIGHT_LIMIT)
    &&& forall|v: int| 0 <= v < n && v != end ==> ((#[trigger] dist[v]) is Some <==> prev[v] is Some)
    &&& forall|v: int|
        0 <= v < n ==> ((#[trigger] prev[v]) matches Some(u) ==> {
            &&& (u as int) < n
            &&& adjacent(s, u as int, v)
            &&& dist[u as int] is Some
            &&& dval(dist[u as int]) + edge_weight(s[u as int], s[v]) <= dval(dist[v])
        })
}

/// Every settled sector is either still on the frontier or fully relaxed.
pub open spec fn search_inv_frontier(
    s: Seq<Sector>,
    dist: Seq<Option<u64>>,
    queue: Seq<usize>,
) -> bool {
    forall|v: int|
        0 <= v < s.len() && (#[trigger] dist[v]) is Some ==> (qcontains(queue, v) || relaxed(
            s,
            dist,
            v,
        ))
}

/// Removing one occurrence of another key keeps `v` in the queue.
proof fn lemma_swap_remove_keeps(q: Seq<usize>, qi: int, v: int)
    requires
        0 <= qi < q.len(),
        qcontains(q, v),
        (q[qi] as int) != v,
    ensures
        qcontains(q.update(qi, q[q.len() - 1]).drop_last(), v),
{
    let t = choose|t: int| 0 <= t < q.len() && (#[trigger] q[t]) as int == v;
    let nq = q.update(qi, q[q.len() - 1]).drop_last();
    if t == q.len() - 1 {
        assert(qi < q.len() - 1);
        assert(nq[qi] as int == v);
    } else {
        assert(nq[t] as int == v);
    }
}

/// The heuristic of the search: straight-line distance to the source.
fn heuristic(c: Vec2i, source: Vec2i) -> (r: u64)
    requires
        in_rect(c),
        in_rect(source),
    ensures
        r == sqrt_floor(dist_sq(c, source)),
        r <= 0x1_0000_0000,
{
    let d = dist_sq_val(c, source);
    let h = isqrt(d as u128);
    proof {
        assert(dist_sq(c, source) <= 0x8000_0000_0000_0000) by (nonlinear_arith)
            requires
                -0x8000_0000 <= c.x - source.x <= 0x8000_0000,
                -0x8000_0000 <= c.y - source.y <= 0x8000_0000,
                dist_sq(c, source) == (c.x - source.x) * (c.x - source.x) + (c.y - source.y) * (
                c.y - source.y),
        ;
        assert(h <= 0x1_0000_0000) by (nonlinear_arith)
            requires
                is_sqrt_floor(d as int, h as int),
                d <= 0x8000_0000_0000_0000,
        ;
    }
    h
}

/// The weight of one edge, computed exactly.
fn edge_weight_val(a: &Sector, b: &Sector) -> (r: u64)
    requires
        in_rect(a.centroid),
        in_rect(b.centroid),
        SCALE <= a.cost <= crate::map::COST_LIMIT,
        SCALE <= b.cost <= crate::map::COST_LIMIT,
    ensures
        r == edge_weight(*a, *b),
        1 <= r <= WEIGHT_LIMIT,
{
    let dsq = dist_sq_val(a.centroid, b.centroid);
    let d = isqrt(dsq as u128);
    proof {
        assert(dist_sq(a.centroid, b.centroid) <= 0x8000_0000_0000_0000) by (nonlinear_arith)
            requires
                -0x8000_0000 <= a.centroid.x - b.centroid.x <= 0x8000_0000,
                -0x8000_0000 <= a.centroid.y - b.centroid.y <= 0x8000_0000,
                dist_sq(a.centroid, b.centroid) == (a.centroid.x - b.centroid.x) * (a.centroid.x
                    - b.centroid.x) + (a.centroid.y - b.centroid.y) * (a.centroid.y
                    - b.centroid.y),
        ;
        assert(d <= 0x1_0000_0000) by (nonlinear_arith)
            requires
                is_sqrt_floor(dsq as int, d as int),
                dsq <= 0x8000_0000_0000_0000,
        ;
        crate::geom::lemma_sqrt_floor_unique(dsq as int, d as int);
    }
    let sum_cost: u64 = a.cost as u64 + b.cost as u64;
    proof {
        assert(0 <= (d as int) * (sum_cost as int) <= 0x20_0000_0000_0000) by (nonlinear_arith)
            requires
                0 <= d <= 0x1_0000_0000,
                0 <= sum_cost <= 0x20_0000,
        ;
    }
    let prod: u128 = (d as u128) * (sum_cost as u128);
    proof {
        assert(prod == (d as int) * (sum_cost as int));
        assert(prod / 2000 <= 0x20_0000_0000_0000int / 2000) by {
            vstd::arithmetic::div_mod::lemma_div_is_ordered(
                prod as int,
                0x20_0000_0000_0000int,
                2000int,
            );
        }
    }
    let w: u128 = prod / 2000;
    let w64: u64 = w as u64;
    if w64 < 1 {
        1
    } else {
        w64
    }
}

/// Pick the frontier entry with the least settled-cost-plus-heuristic;
/// the choice orders the search but never changes its result.
fn pick_frontier(
    g: &SectorGraph,
    dist: &Vec<Option<u64>>,
    queue: &Vec<usize>,
    source_c: Vec2i,
) -> (r: usize)
    requires
        g.wf(),
        dist@.len() == g.sectors@.len(),
        queue@.len() > 0,
        in_rect(source_c),
        forall|t2: int|
            0 <= t2 < queue@.len() ==> ((#[trigger] queue@[t2]) as int) < g.sectors@.len()
                && dist@[queue@[t2] as int] is Some,
        forall|v: int|
            0 <= v < dist@.len() ==> ((#[trigger] dist@[v]) matches Some(d) ==> d <= (
            g.sectors@.len() as int - none_count(dist@)) * WEIGHT_LIMIT),
    ensures
        r < queue@.len(),
{
    let ghost s: Seq<Sector> = g.sectors@;
    let n = g.len();
    let mut best_t: usize = 0;
    let mut best_f: u64 = 0;
    {
        let v0 = queue[0];
        let dv0 = match dist[v0] {
            Some(d) => d,
            None => 0,
        };
        proof {
            assert(dist@[v0 as int] is Some);
            assert(dv0 as int == dval(dist@[v0 as int]));
            assert(crate::map::wf_sector(s[v0 as int], v0 as int, n as int));
            lemma_f_bound(s, dist@, v0 as int, n as int);
        }
        let h0 = heuristic(g.sectors[v0].centroid, source_c);
        best_f = dv0 + h0;
    }
    let mut t: usize = 1;
    while t < queue.len()
        invariant
            g.wf(),
            s == g.sectors@,
            n == s.len(),
            in_rect(source_c),
            dist@.len() == n,
            queue@.len() > 0,
            1 <= t <= queue@.len(),
            best_t < queue@.len(),
            forall|t2: int|
                0 <= t2 < queue@.len() ==> ((#[trigger] queue@[t2]) as int) < n && dist@[
                    queue@[t2] as int
                ] is Some,
            forall|v: int|
                0 <= v < n ==> ((#[trigger] dist@[v]) matches Some(d) ==> d <= (n as int
                    - none_count(dist@)) * WEIGHT_LIMIT),
        decreases queue@.len() - t,
    {
        let v = queue[t];
        let dv = match dist[v] {
            Some(d) => d,
            None => 0,
        };
        proof {
            assert(dist@[v as int] is Some);
            assert(dv as int == dval(dist@[v as int]));
            assert(crate::map::wf_sector(s[v as int], v as int, n as int));
            lemma_f_bound(s, dist@, v as int, n as int);
        }
        let h = heuristic(g.sectors[v].centroid, source_c);
        let f = dv + h;
        if f < best_f {
            best_f = f;
            best_t = t;
        }
        t = t + 1;
    }
    best_t
}

/// Relax one edge out of `u`: settle its `k`-th neighbor through `u` if
/// that is an improvement, keeping every search invariant and never
/// raising the total-cost measure.
#[verifier::spinoff_prover]
fn relax_edge(
    g: &SectorGraph,
    dist: &mut Vec<Option<u64>>,
    prev: &mut Vec<Option<usize>>,
    queue: &mut Vec<usize>,
    end: usize,
    u: usize,
    du: u64,
    k: usize,
)
    requires
        g.wf(),
        (u as int) < g.sectors@.len(),
        k < g.sectors@[u as int].neighbors@.len(),
        old(dist)@[u as int] == Some(du),
        search_inv_core(g.sectors@, old(dist)@, old(prev)@, old(queue)@, end as int),
        forall|v: int|
            0 <= v < g.sectors@.len() && (#[trigger] old(dist)@[v]) is Some ==> (qcontains(
                old(queue)@,
                v,
            ) || relaxed(g.sectors@, old(dist)@, v) || v == u as int),
        forall|k2: int|
            0 <= k2 < k ==> {
                let j = (#[trigger] g.sectors@[u as int].neighbors@[k2]) as int;
                old(dist)@[j] is Some && dval(old(dist)@[j]) <= du + edge_weight(
                    g.sectors@[u as int],
                    g.sectors@[j],
                )
            },
    ensures
        search_inv_core(g.sectors@, final(dist)@, final(prev)@, final(queue)@, end as int),
        final(dist)@[u as int] == Some(du),
        forall|v: int|
            0 <= v < g.sectors@.len() && (#[trigger] final(dist)@[v]) is Some ==> (qcontains(
                final(queue)@,
                v,
            ) || relaxed(g.sectors@, final(dist)@, v) || v == u as int),
        forall|k2: int|
            0 <= k2 < k + 1 ==> {
                let j = (#[trigger] g.sectors@[u as int].neighbors@[k2]) as int;
                final(dist)@[j] is Some && dval(final(dist)@[j]) <= du + edge_weight(
                    g.sectors@[u as int],
                    g.sectors@[j],
                )
            },
        cost_measure(final(dist)@) <= cost_measure(old(dist)@),
        cost_measure(final(dist)@) == cost_measure(old(dist)@) ==> final(queue)@ == old(queue)@,
        final(queue)@.len() >= old(queue)@.len(),
{
    let ghost s: Seq<Sector> = g.sectors@;
    let n = g.len();
    let v = g.sectors[u].neighbors[k];
    proof {
        assert(crate::map::wf_sector(s[u as int], u as int, n as int));
        assert(s[u as int].neighbors@[k as int] == v);
        assert((v as int) < n && v != u);
        assert(crate::map::wf_sector(s[v as int], v as int, n as int));
    }
    let w = edge_weight_val(&g.sectors[u], &g.sectors[v]);
    proof {
        crate::counting::lemma_none_count_bounds(dist@);
        assert(du + w <= (n as int - none_count(dist@)) * WEIGHT_LIMIT + WEIGHT_LIMIT <= 0x10_0000
            * WEIGHT_LIMIT + WEIGHT_LIMIT) by (nonlinear_arith)
            requires
                du <= (n as int - none_count(dist@)) * WEIGHT_LIMIT,
                w <= WEIGHT_LIMIT,
                0 <= n as int - none_count(dist@) <= n,
                n <= 0x10_0000,
                WEIGHT_LIMIT == 0x800_0000_0000,
        ;
    }
    let new_cost: u64 = du + w;
    let improve = match dist[v] {
        None => true,
        Some(dv) => new_cost < dv,
    };
    if improve {
        let ghost dist_pre: Seq<Option<u64>> = dist@;
        let ghost prev_pre: Seq<Option<usize>> = prev@;
        let ghost queue_pre: Seq<usize> = queue@;
        proof {
            assert(v != end) by {
                if v == end {
                    assert(dist@[end as int] == Some(0u64));
                    assert(new_cost >= 1);
                }
            }
        }
        dist.set(v, Some(new_cost));
        prev.set(v, Some(u));
        queue.push(v);
        proof {
            lemma_cost_measure_update(dist_pre, v as int, Some(new_cost));
            lemma_cost_measure_nonneg(dist@);
            if dist_pre[v as int] is None {
                crate::counting::lemma_none_count_fill(dist_pre, v as int, new_cost);
            } else {
                crate::counting::lemma_none_count_replace(dist_pre, v as int, new_cost);
            }
            crate::counting::lemma_none_count_bounds(dist@);
            // Settled costs stay within the cap.
            assert forall|x: int|
                0 <= x < n implies ((#[trigger] dist@[x]) matches Some(d) ==> d <= (n as int
                - none_count(dist@)) * WEIGHT_LIMIT) by {
                if dist@[x] is Some {
                    if x == v as int {
                        if dist_pre[v as int] is None {
                            assert(none_count(dist@) == none_count(dist_pre) - 1);
                            assert(new_cost <= (n as int - none_count(dist_pre)) * WEIGHT_LIMIT
                                + WEIGHT_LIMIT);
                            assert((n as int - none_count(dist_pre)) * WEIGHT_LIMIT + WEIGHT_LIMIT
                                == (n as int - none_count(dist@)) * WEIGHT_LIMIT)
                                by (nonlinear_arith)
                                requires
                                    none_count(dist@) == none_count(dist_pre) - 1,
                            ;
                        } else {
                            assert(none_count(dist@) == none_count(dist_pre));
                            assert(new_cost < dval(dist_pre[v as int]));
                        }
                    } else {
                        assert(dist@[x] == dist_pre[x]);
                        assert(none_count(dist@) <= none_count(dist_pre));
                        assert(dval(dist_pre[x]) <= (n as int - none_count(dist_pre))
                            * WEIGHT_LIMIT <= (n as int - none_count(dist@)) * WEIGHT_LIMIT)
                            by (nonlinear_arith)
                            requires
                                dval(dist_pre[x]) <= (n as int - none_count(dist_pre))
                                    * WEIGHT_LIMIT,
                                none_count(dist@) <= none_count(dist_pre),
                                none_count(dist@) >= 0,
                                n as int - none_count(dist_pre) >= 0,
                                WEIGHT_LIMIT == 0x800_0000_0000,
                        ;
                    }
                }
            }
            // Predecessor structure survives the update.
            assert forall|x: int|
                0 <= x < n implies ((#[trigger] prev@[x]) matches Some(ux) ==> {
                &&& (ux as int) < n
                &&& adjacent(s, ux as int, x)
                &&& dist@[ux as int] is Some
                &&& dval(dist@[ux as int]) + edge_weight(s[ux as int], s[x]) <= dval(dist@[x])
            }) by {
                if prev@[x] is Some {
                    let ux = prev@[x]->Some_0;
                    if x == v as int {
                        assert(ux == u);
                        assert(adjacent(s, u as int, v as int));
                        assert(dist@[u as int] == Some(du));
                        assert(dval(dist@[v as int]) == new_cost);
                    } else {
                        assert(prev_pre[x] == prev@[x]);
                        assert(dval(dist@[ux as int]) <= dval(dist_pre[ux as int]));
                        assert(dist@[x] == dist_pre[x]);
                    }
                }
            }
            // Frontier accounting survives the update.
            assert forall|x: int|
                0 <= x < n && (#[trigger] dist@[x]) is Some implies (qcontains(queue@, x)
                || relaxed(s, dist@, x) || x == u as int) by {
                if x == v as int {
                    assert(queue@[queue@.len() - 1] as int == x);
                } else if dist_pre[x] is Some {
                    if qcontains(queue_pre, x) {
                        let t2 = choose|t2: int|
                            0 <= t2 < queue_pre.len() && (#[trigger] queue_pre[t2]) as int == x;
                        assert(queue@[t2] as int == x);
                    } else if relaxed(s, dist_pre, x) && x != u as int {
                        assert forall|k2: int|
                            0 <= k2 < s[x].neighbors@.len() implies {
                            let j = (#[trigger] s[x].neighbors@[k2]) as int;
                            dist@[j] is Some && dval(dist@[j]) <= dval(dist@[x]) + edge_weight(
                                s[x],
                                s[j],
                            )
                        } by {
                            let j = (s[x].neighbors@[k2]) as int;
                            assert(dist_pre[j] is Some && dval(dist_pre[j]) <= dval(dist_pre[x])
                                + edge_weight(s[x], s[j]));
                            assert(dval(dist@[j]) <= dval(dist_pre[j]));
                            assert(dist@[x] == dist_pre[x]);
                        }
                    }
                }
            }
            // The partially relaxed neighbors of `u` stay relaxed.
            assert forall|k2: int|
                0 <= k2 < k + 1 implies {
                let j = (#[trigger] s[u as int].neighbors@[k2]) as int;
                dist@[j] is Some && dval(dist@[j]) <= du + edge_weight(s[u as int], s[j])
            } by {
                let j = (s[u as int].neighbors@[k2]) as int;
                if k2 < k {
                    assert(dist_pre[j] is Some && dval(dist_pre[j]) <= du + edge_weight(
                        s[u as int],
                        s[j],
                    ));
                    assert(dval(dist@[j]) <= dval(dist_pre[j]));
                } else {
                    assert(j == v as int);
                    assert(dval(dist@[j]) == new_cost);
                }
            }
        }
    } else {
        proof {
            assert forall|k2: int|
                0 <= k2 < k + 1 implies {
                let j = (#[trigger] s[u as int].neighbors@[k2]) as int;
                dist@[j] is Some && dval(dist@[j]) <= du + edge_weight(s[u as int], s[j])
            } by {
                let j = (s[u as int].neighbors@[k2]) as int;
                if k2 == k {
                    assert(j == v as int);
                    assert(dist@[j] is Some);
                    assert(dval(dist@[j]) <= new_cost == du + edge_weight(s[u as int], s[j]));
                }
            }
        }
    }
}

/// Reconstruct the walk from `start` back to `end` along the predecessor
/// chain; settled costs decrease strictly along it, so it terminates and
/// repeats no sector.
#[verifier::spinoff_prover]
fn reconstruct_path(
    g: &SectorGraph,
    dist: &Vec<Option<u64>>,
    prev: &Vec<Option<usize>>,
    start: usize,
    end: usize,
) -> (path: Vec<usize>)
    requires
        g.wf(),
        start < g.sectors@.len(),
        end < g.sectors@.len(),
        dist@.len() == g.sectors@.len(),
        prev@.len() == g.sectors@.len(),
        dist@[end as int] == Some(0u64),
        prev@[end as int] is None,
        dist@[start as int] is Some,
        forall|v: int|
            0 <= v < g.sectors@.len() && v != end ==> ((#[trigger] dist@[v]) is Some <==> prev@[v]
                is Some),
        forall|v: int|
            0 <= v < g.sectors@.len() ==> ((#[trigger] prev@[v]) matches Some(u2) ==> {
                &&& (u2 as int) < g.sectors@.len()
                &&& adjacent(g.sectors@, u2 as int, v)
                &&& dist@[u2 as int] is Some
                &&& dval(dist@[u2 as int]) + edge_weight(g.sectors@[u2 as int], g.sectors@[v])
                    <= dval(dist@[v])
            }),
    ensures
        is_path(g.sectors@, path_ints(path@), start as int, end as int),
        no_repeats(path_ints(path@)),
        path_cost(g.sectors@, path_ints(path@)) <= dval(dist@[start as int]),
{
    let ghost s: Seq<Sector> = g.sectors@;
    let ghost n: int = s.len() as int;
    let mut path: Vec<usize> = Vec::new();
    path.push(start);
    let mut cur = start;
    while cur != end
        invariant
            g.wf(),
            s == g.sectors@,
            n == s.len(),
            start < n,
            end < n,
            (cur as int) < n,
            dist@.len() == n,
            prev@.len() == n,
            dist@[end as int] == Some(0u64),
            dist@[cur as int] is Some,
            dist@[start as int] is Some,
            forall|v: int|
                0 <= v < n && v != end ==> ((#[trigger] dist@[v]) is Some <==> prev@[v] is Some),
            prev@[end as int] is None,
            forall|v: int|
                0 <= v < n ==> ((#[trigger] prev@[v]) matches Some(u2) ==> {
                    &&& (u2 as int) < n
                    &&& adjacent(s, u2 as int, v)
                    &&& dist@[u2 as int] is Some
                    &&& dval(dist@[u2 as int]) + edge_weight(s[u2 as int], s[v]) <= dval(
                        dist@[v],
                    )
                }),
            path@.len() >= 1,
            path@[0] == start,
            path@[path@.len() - 1] == cur,
            forall|k2: int| 0 <= k2 < path@.len() ==> ((#[trigger] path@[k2]) as int) < n,
            forall|k2: int|
                0 <= k2 < path@.len() - 1 ==> adjacent(
                    s,
                    (#[trigger] path@[k2]) as int,
                    path@[k2 + 1] as int,
                ),
            forall|k1: int, k2: int|
                0 <= k1 < k2 < path@.len() ==> dval(dist@[(#[trigger] path@[k2]) as int]) < dval(
                    dist@[(#[trigger] path@[k1]) as int],
                ),
            path_cost(s, path_ints(path@)) + dval(dist@[cur as int]) <= dval(
                dist@[start as int],
            ),
        decreases dval(dist@[cur as int]),
    {
        let nxt = match prev[cur] {
            Some(u2) => u2,
            None => {
                proof {
                    assert(prev@[cur as int] is Some);
                }
                cur
            },
        };
        proof {
            assert(prev@[cur as int] is Some);
            assert(adjacent(s, nxt as int, cur as int));
            assert(adjacent(s, cur as int, nxt as int));
            lemma_edge_weight_symmetric(s[nxt as int], s[cur as int]);
            assert(edge_weight(s[nxt as int], s[cur as int]) >= 1);
            assert(dval(dist@[nxt as int]) < dval(dist@[cur as int]));
        }
        let ghost path_pre: Seq<usize> = path@;
        path.push(nxt);
        proof {
            assert(path_ints(path@) =~= path_ints(path_pre).push(nxt as int));
            assert(path_cost(s, path_ints(path@)) == path_cost(s, path_ints(path_pre))
                + edge_weight(s[cur as int], s[nxt as int])) by {
                let pi = path_ints(path@);
                assert(pi[pi.len() - 2] == cur as int);
                assert(pi[pi.len() - 1] == nxt as int);
                assert(pi.drop_last() =~= path_ints(path_pre));
            }
            lemma_edge_weight_symmetric(s[cur as int], s[nxt as int]);
            assert forall|k1: int, k2: int|
                0 <= k1 < k2 < path@.len() implies dval(dist@[(#[trigger] path@[k2]) as int])
                < dval(dist@[(#[trigger] path@[k1]) as int]) by {
                if k2 == path@.len() - 1 {
                    assert(path@[k1] == path_pre[k1]);
                    if k1 == path_pre.len() - 1 {
                        assert(path_pre[k1] == cur);
                    } else {
                        assert(dval(dist@[path_pre[path_pre.len() - 1] as int]) < dval(
                            dist@[path_pre[k1] as int],
                        ));
                    }
                } else {
                    assert(path@[k1] == path_pre[k1]);
                    assert(path@[k2] == path_pre[k2]);
                }
            }
        }
        cur = nxt;
    }
    proof {
        let pi = path_ints(path@);
        assert(is_path(s, pi, start as int, end as int)) by {
            assert(pi[0] == start as int);
            assert(pi[pi.len() - 1] == end as int);
        }
        assert(no_repeats(pi)) by {
            assert forall|k1: int, k2: int|
                0 <= k1 < pi.len() && 0 <= k2 < pi.len() && k1 != k2 implies #[trigger] pi[k1]
                != #[trigger] pi[k2] by {
                if k1 < k2 {
                    assert(dval(dist@[path@[k2] as int]) < dval(dist@[path@[k1] as int]));
                } else {
                    assert(dval(dist@[path@[k1] as int]) < dval(dist@[path@[k2] as int]));
                }
            }
        }
        assert(path_cost(s, pi) <= dval(dist@[start as int]));
    }
    path
}

/// Find the least-cost walk through the sector graph from `start` to
/// `end`, weighting each edge by centroid distance times the mean sector
/// cost. The search runs backwards from `end`, ordering its frontier by
/// settled cost plus straight-line distance to `start`, and relaxes until
/// the frontier empties, so the settled costs are exact. An invalid key and
/// an unreachable pair are distinct errors, never a panic.
#[verifier::spinoff_prover]
pub fn pathfind(g: &SectorGraph, start: usize, end: usize) -> (r: Result<Vec<usize>, GenError>)
    requires
        g.wf(),
    ensures
        match r {
            Ok(path) => {
                &&& start < g.sectors@.len()
                &&& end < g.sectors@.len()
                &&& is_path(g.sectors@, path_ints(path@), start as int, end as int)
                &&& no_repeats(path_ints(path@))
                &&& reachable(g.sectors@, start as int, end as int)
                &&& forall|q: Seq<int>|
                    is_path(g.sectors@, q, start as int, end as int) ==> path_cost(
                        g.sectors@,
                        path_ints(path@),
                    ) <= path_cost(g.sectors@, q)
            },
            Err(e) => {
                ||| (e == GenError::UnknownSector && (start >= g.sectors@.len() || end
                    >= g.sectors@.len()))
                ||| (e == GenError::NoPathFound && start < g.sectors@.len() && end
                    < g.sectors@.len() && !reachable(g.sectors@, start as int, end as int))
            },
        },
{
    let n = g.len();
    if start >= n || end >= n {
        return Err(GenError::UnknownSector);
    }
    let ghost s: Seq<Sector> = g.sectors@;
    let mut dist: Vec<Option<u64>> = Vec::new();
    let mut prev: Vec<Option<usize>> = Vec::new();
    let mut i: usize = 0;
    while i < n
        invariant
            0 <= i <= n,
            dist@.len() == i,
            prev@.len() == i,
            forall|v: int| 0 <= v < i ==> (#[trigger] dist@[v]) is None,
            forall|v: int| 0 <= v < i ==> (#[trigger] prev@[v]) is None,
        decreases n - i,
    {
        dist.push(None);
        prev.push(None);
        i = i + 1;
    }
    dist.set(end, Some(0));
    let mut queue: Vec<usize> = Vec::new();
    queue.push(end);
    let source_c = g.sectors[start].centroid;
    proof {
        assert(crate::map::wf_sector(s[start as int], start as int, n as int));
        crate::counting::lemma_none_count_bounds(dist@);
        assert forall|v: int|
            0 <= v < n implies ((#[trigger] dist@[v]) matches Some(d) ==> d <= (n as int
            - none_count(dist@)) * WEIGHT_LIMIT) by {
            if dist@[v] is Some {
                assert(v == end);
                assert((n as int - none_count(dist@)) * WEIGHT_LIMIT >= 0) by (nonlinear_arith)
                    requires
                        n as int - none_count(dist@) >= 0,
                ;
            }
        }
        assert forall|v: int|
            0 <= v < n && (#[trigger] dist@[v]) is Some implies (qcontains(queue@, v) || relaxed(
            s,
            dist@,
            v,
        )) by {
            assert(v == end);
            assert(queue@[0] as int == v);
        }
    }
    while queue.len() > 0
        invariant
            g.wf(),
            s == g.sectors@,
            n == s.len(),
            start < n,
            end < n,
            source_c == s[start as int].centroid,
            search_inv_core(s, dist@, prev@, queue@, end as int),
            search_inv_frontier(s, dist@, queue@),
        decreases cost_measure(dist@), queue@.len(),
    {
        let ghost queue0: Seq<usize> = queue@;
        proof {
            assert(crate::map::wf_sector(s[start as int], start as int, n as int));
        }
        let best_t = pick_frontier(g, &dist, &queue, source_c);
        let u = queue.swap_remove(best_t);
        proof {
            assert(u == queue0[best_t as int]);
            assert(dist@[u as int] is Some);
            assert((u as int) < n);
            assert(crate::map::wf_sector(s[u as int], u as int, n as int));
            assert forall|t2: int|
                0 <= t2 < queue@.len() implies ((#[trigger] queue@[t2]) as int) < n && dist@[
                queue@[t2] as int
            ] is Some by {
                if t2 == best_t {
                    assert(queue@[t2] == queue0[queue0.len() - 1]);
                } else {
                    assert(queue@[t2] == queue0[t2]);
                }
            }
            assert forall|x: int|
                0 <= x < n && (#[trigger] dist@[x]) is Some implies (qcontains(queue@, x)
                || relaxed(s, dist@, x) || x == u as int) by {
                if x != u as int && qcontains(queue0, x) {
                    lemma_swap_remove_keeps(queue0, best_t as int, x);
                    assert(queue@ =~= queue0.update(best_t as int, queue0[queue0.len() - 1])
                        .drop_last());
                }
            }
        }
        let du = match dist[u] {
            Some(d) => d,
            None => 0,
        };
        proof {
            assert(dist@[u as int] == Some(du));
        }
        let ghost cm0: int = cost_measure(dist@);
        let ghost qlen1: int = queue@.len() as int;
        let deg = g.sectors[u].neighbors.len();
        let mut k: usize = 0;
        while k < deg
            invariant
                g.wf(),
                s == g.sectors@,
                n == s.len(),
                end < n,
                (u as int) < n,
                deg == s[u as int].neighbors@.len(),
                0 <= k <= deg,
                dist@[u as int] == Some(du),
                search_inv_core(s, dist@, prev@, queue@, end as int),
                forall|v: int|
                    0 <= v < n && (#[trigger] dist@[v]) is Some ==> (qcontains(queue@, v)
                        || relaxed(s, dist@, v) || v == u as int),
                forall|k2: int|
                    0 <= k2 < k ==> {
                        let j = (#[trigger] s[u as int].neighbors@[k2]) as int;
                        dist@[j] is Some && dval(dist@[j]) <= du + edge_weight(s[u as int], s[j])
                    },
                cost_measure(dist@) <= cm0,
                cost_measure(dist@) == cm0 ==> queue@.len() == qlen1,
                queue@.len() >= qlen1,
            decreases deg - k,
        {
            relax_edge(g, &mut dist, &mut prev, &mut queue, end, u, du, k);
            k = k + 1;
        }
        proof {
            // After full relaxation of `u`, the frontier accounts for all.
            assert(relaxed(s, dist@, u as int));
            assert forall|x: int|
                0 <= x < n && (#[trigger] dist@[x]) is Some implies (qcontains(queue@, x)
                || relaxed(s, dist@, x)) by {}
            lemma_cost_measure_nonneg(dist@);
        }
    }
    // The frontier is empty: every settled sector is fully relaxed.
    proof {
        assert forall|v: int|
            0 <= v < n && (#[trigger] dist@[v]) is Some implies relaxed(s, dist@, v) by {
            assert(!qcontains(queue@, v));
        }
    }
    let start_set = match dist[start] {
        Some(_) => true,
        None => false,
    };
    if !start_set {
        proof {
            if reachable(s, start as int, end as int) {
                let p = choose|p: Seq<int>| is_path(s, p, start as int, end as int);
                lemma_path_reverse(s, p, start as int, end as int);
                lemma_relaxed_bound(s, dist@, end as int, p.reverse(), start as int);
            }
        }
        return Err(GenError::NoPathFound);
    }
    let path = reconstruct_path(g, &dist, &prev, start, end);
    proof {
        let pi = path_ints(path@);
        assert(reachable(s, start as int, end as int));
        assert forall|q: Seq<int>|
            is_path(s, q, start as int, end as int) implies path_cost(s, pi) <= path_cost(
            s,
            q,
        ) by {
            lemma_path_reverse(s, q, start as int, end as int);
            lemma_relaxed_bound(s, dist@, end as int, q.reverse(), start as int);
            lemma_cost_reverse(s, q);
        }
    }
    Ok(path)
}

/// Largest subdivision count the curve sampler accepts.
pub const SUBDIVISION_LIMIT: usize = 64;

/// Control point `i` of the clamped cubic B-spline through `path`: the
/// first and last path points are tripled so the curve passes through them.
pub open spec fn ctrl_point(path: Seq<Vec2i>, i: int) -> Vec2i {
    if i < 2 {
        path[0]
    } else if i - 2 < path.len() {
        path[i - 2]
    } else {
        path[path.len() - 1]
    }
}

/// The four uniform cubic B-spline basis numerators at parameter `u` of
/// `cap`; each is six times the usual basis value scaled by `cap^3`.
pub open spec fn basis0(u: int, cap: int) -> int {
    (cap - u) * (cap - u) * (cap - u)
}

pub open spec fn basis1(u: int, cap: int) -> int {
    3 * u * u * u - 6 * u * u * cap + 4 * cap * cap * cap
}

pub open spec fn basis2(u: int, cap: int) -> int {
    -3 * u * u * u + 3 * u * u * cap + 3 * u * cap * cap + cap * cap * cap
}

pub open spec fn basis3(u: int, cap: int) -> int {
    u * u * u
}

/// The x numerator of the spline point on segment `seg` at parameter `u`.
pub open spec fn bez_num_x(path: Seq<Vec2i>, seg: int, u: int, cap: int) -> int {
    basis0(u, cap) * ctrl_point(path, seg).x + basis1(u, cap) * ctrl_point(path, seg + 1).x
        + basis2(u, cap) * ctrl_point(path, seg + 2).x + basis3(u, cap) * ctrl_point(
        path,
        seg + 3,
    ).x
}

/// The y numerator of the spline point on segment `seg` at parameter `u`.
pub open spec fn bez_num_y(path: Seq<Vec2i>, seg: int, u: int, cap: int) -> int {
    basis0(u, cap) * ctrl_point(path, seg).y + basis1(u, cap) * ctrl_point(path, seg + 1).y
        + basis2(u, cap) * ctrl_point(path, seg + 2).y + basis3(u, cap) * ctrl_point(
        path,
        seg + 3,
    ).y
}

/// The spline point on segment `seg` at parameter `u` of `cap`, rounded
/// down in fixed-point coordinates.
pub open spec fn bez_point(path: Seq<Vec2i>, seg: int, u: int, cap: int) -> Vec2i {
    Vec2i {
        x: (bez_num_x(path, seg, u, cap) / (6 * cap * cap * cap)) as i64,
        y: (bez_num_y(path, seg, u, cap) / (6 * cap * cap * cap)) as i64,
    }
}

/// Sample `k` of the whole curve: `cap` samples per segment and one final
/// sample at the very end of the last segment.
pub open spec fn curve_sample(path: Seq<Vec2i>, cap: int, k: int) -> Vec2i {
    let nseg = path.len() + 1;
    if k < nseg * cap {
        bez_point(path, k / cap, k % cap, cap)
    } else {
        bez_point(path, nseg - 1, cap, cap)
    }
}

/// The basis numerators are non-negative on `[0, cap]` and sum to
/// `6 * cap^3`.
#[verifier::rlimit(50)]
proof fn lemma_basis(u: int, cap: int)
    requires
        0 <= u <= cap,
        1 <= cap,
    ensures
        basis0(u, cap) >= 0,
        basis1(u, cap) >= 0,
        basis2(u, cap) >= 0,
        basis3(u, cap) >= 0,
        basis0(u, cap) + basis1(u, cap) + basis2(u, cap) + basis3(u, cap) == 6 * cap * cap * cap,
{
    let t = cap - u;
    let b0 = basis0(u, cap);
    let b1 = basis1(u, cap);
    let b2 = basis2(u, cap);
    let b3 = basis3(u, cap);
    assert(b0 >= 0) by (nonlinear_arith)
        requires
            0 <= u <= cap,
            b0 == (cap - u) * (cap - u) * (cap - u),
    ;
    assert(b1 == cap * cap * cap + 3 * t * (cap * cap + cap * t - t * t)) by (nonlinear_arith)
        requires
            t == cap - u,
            b1 == 3 * u * u * u - 6 * u * u * cap + 4 * cap * cap * cap,
    ;
    assert(b2 == cap * cap * cap + 3 * u * (cap * cap + cap * u - u * u)) by (nonlinear_arith)
        requires
            t == cap - u,
            b2 == -3 * u * u * u + 3 * u * u * cap + 3 * u * cap * cap + cap * cap * cap,
    ;
    assert(cap * cap * cap + 3 * t * (cap * cap + cap * t - t * t) >= 0) by (nonlinear_arith)
        requires
            0 <= t <= cap,
            1 <= cap,
    ;
    assert(cap * cap * cap + 3 * u * (cap * cap + cap * u - u * u) >= 0) by (nonlinear_arith)
        requires
            0 <= u <= cap,
            1 <= cap,
    ;
    assert(b3 >= 0) by (nonlinear_arith)
        requires
            0 <= u,
            b3 == u * u * u,
    ;
    assert(b0 + b1 + b2 + b3 == 6 * cap * cap * cap) by (nonlinear_arith)
        requires
            b0 == (cap - u) * (cap - u) * (cap - u),
            b1 == 3 * u * u * u - 6 * u * u * cap + 4 * cap * cap * cap,
            b2 == -3 * u * u * u + 3 * u * u * cap + 3 * u * cap * cap + cap * cap * cap,
            b3 == u * u * u,
    ;
}

/// Every sampled coordinate is a convex combination of control-point
/// coordinates, so it stays inside the coordinate range.
proof fn lemma_bez_point_in_rect(path: Seq<Vec2i>, seg: int, u: int, cap: int)
    requires
        1 <= path.len(),
        forall|i: int| 0 <= i < path.len() ==> in_rect(#[trigger] path[i]),
        0 <= seg < path.len() + 1,
        0 <= u <= cap,
        1 <= cap <= 64,
    ensures
        in_rect(bez_point(path, seg, u, cap)),
        bez_num_x(path, seg, u, cap) >= 0,
        bez_num_y(path, seg, u, cap) >= 0,
        bez_num_x(path, seg, u, cap) <= 6 * cap * cap * cap * 0x8000_0000,
        bez_num_y(path, seg, u, cap) <= 6 * cap * cap * cap * 0x8000_0000,
{
    lemma_basis(u, cap);
    let den = 6 * cap * cap * cap;
    let c0 = ctrl_point(path, seg);
    let c1 = ctrl_point(path, seg + 1);
    let c2 = ctrl_point(path, seg + 2);
    let c3 = ctrl_point(path, seg + 3);
    assert(in_rect(path[0]));
    assert(in_rect(path[path.len() - 1]));
    assert(in_rect(c0) && in_rect(c1) && in_rect(c2) && in_rect(c3));
    let nx = bez_num_x(path, seg, u, cap);
    let ny = bez_num_y(path, seg, u, cap);
    lemma_term_bound(basis0(u, cap), c0.x as int);
    lemma_term_bound(basis1(u, cap), c1.x as int);
    lemma_term_bound(basis2(u, cap), c2.x as int);
    lemma_term_bound(basis3(u, cap), c3.x as int);
    lemma_term_bound(basis0(u, cap), c0.y as int);
    lemma_term_bound(basis1(u, cap), c1.y as int);
    lemma_term_bound(basis2(u, cap), c2.y as int);
    lemma_term_bound(basis3(u, cap), c3.y as int);
    assert((basis0(u, cap) + basis1(u, cap) + basis2(u, cap) + basis3(u, cap)) * 0x8000_0000
        == basis0(u, cap) * 0x8000_0000 + basis1(u, cap) * 0x8000_0000 + basis2(u, cap)
        * 0x8000_0000 + basis3(u, cap) * 0x8000_0000) by (nonlinear_arith);
    assert(nx == basis0(u, cap) * (c0.x as int) + basis1(u, cap) * (c1.x as int) + basis2(u, cap)
        * (c2.x as int) + basis3(u, cap) * (c3.x as int));
    assert(ny == basis0(u, cap) * (c0.y as int) + basis1(u, cap) * (c1.y as int) + basis2(u, cap)
        * (c2.y as int) + basis3(u, cap) * (c3.y as int));
    assert(0 <= nx && nx <= den * 0x8000_0000);
    assert(0 <= ny && ny <= den * 0x8000_0000);
    assert(den >= 6) by (nonlinear_arith)
        requires
            1 <= cap,
            den == 6 * cap * cap * cap,
    ;
    vstd::arithmetic::div_mod::lemma_div_pos_is_pos(nx, den);
    vstd::arithmetic::div_mod::lemma_div_pos_is_pos(ny, den);
    vstd::arithmetic::div_mod::lemma_div_is_ordered(nx, den * 0x8000_0000, den);
    vstd::arithmetic::div_mod::lemma_div_is_ordered(ny, den * 0x8000_0000, den);
    vstd::arithmetic::div_mod::lemma_div_by_multiple(0x8000_0000, den);
    assert((den * 0x8000_0000) / den == 0x8000_0000) by {
        assert(den * 0x8000_0000 == 0x8000_0000 * den) by (nonlinear_arith);
    }
}

/// A non-negative basis value times a bounded coordinate stays within the
/// basis value scaled by the coordinate limit.
proof fn lemma_term_bound(b: int, c: int)
    requires
        b >= 0,
        0 <= c <= 0x8000_0000,
    ensures
        0 <= b * c <= b * 0x8000_0000,
{
    assert(0 <= b * c <= b * 0x8000_0000) by (nonlinear_arith)
        requires
            b >= 0,
            0 <= c <= 0x8000_0000,
    ;
}

/// One control point, fetched from the tripled-endpoint control sequence.
fn ctrl_point_val(path: &Vec<Vec2i>, i: usize) -> (r: Vec2i)
    requires
        path@.len() >= 1,
        i < path@.len() + 4,
    ensures
        r == ctrl_point(path@, i as int),
{
    if i < 2 {
        path[0]
    } else if i - 2 < path.len() {
        path[i - 2]
    } else {
        path[path.len() - 1]
    }
}

/// One sample of the clamped cubic B-spline, computed exactly in
/// fixed-point integers.
fn bez_point_val(path: &Vec<Vec2i>, seg: usize, u: usize, cap: usize) -> (r: Vec2i)
    requires
        1 <= path@.len() <= 0x10_0000,
        forall|i: int| 0 <= i < path@.len() ==> in_rect(#[trigger] path@[i]),
        seg < path@.len() + 1,
        u <= cap,
        1 <= cap <= SUBDIVISION_LIMIT,
    ensures
        r == bez_point(path@, seg as int, u as int, cap as int),
        in_rect(r),
{
    proof {
        lemma_basis(u as int, cap as int);
        lemma_bez_point_in_rect(path@, seg as int, u as int, cap as int);
    }
    let c0 = ctrl_point_val(path, seg);
    let c1 = ctrl_point_val(path, seg + 1);
    let c2 = ctrl_point_val(path, seg + 2);
    let c3 = ctrl_point_val(path, seg + 3);
    let ui: i128 = u as i128;
    let capi: i128 = cap as i128;
    let ti: i128 = capi - ui;
    proof {
        assert(0 <= ui * ui <= 4096 && 0 <= capi * capi <= 4096 && 0 <= ti * ti <= 4096)
            by (nonlinear_arith)
            requires
                0 <= ui <= 64,
                0 <= capi <= 64,
                0 <= ti <= 64,
        ;
    }
    let u2: i128 = ui * ui;
    let cap2: i128 = capi * capi;
    let t2: i128 = ti * ti;
    proof {
        assert(0 <= u2 * ui <= 0x4_0000 && 0 <= cap2 * capi <= 0x4_0000 && 0 <= t2 * ti
            <= 0x4_0000 && 0 <= u2 * capi <= 0x4_0000 && 0 <= ui * cap2 <= 0x4_0000)
            by (nonlinear_arith)
            requires
                0 <= ui <= 64,
                0 <= capi <= 64,
                0 <= ti <= 64,
                0 <= u2 <= 4096,
                0 <= cap2 <= 4096,
                0 <= t2 <= 4096,
        ;
    }
    let u3: i128 = u2 * ui;
    let cap3: i128 = cap2 * capi;
    let t3: i128 = t2 * ti;
    let u2cap: i128 = u2 * capi;
    let ucap2: i128 = ui * cap2;
    let b0: i128 = t3;
    let b1: i128 = 3 * u3 - 6 * u2cap + 4 * cap3;
    let b2: i128 = -3 * u3 + 3 * u2cap + 3 * ucap2 + cap3;
    let b3: i128 = u3;
    let den: i128 = 6 * cap3;
    proof {
        assert(t3 == (capi - ui) * (capi - ui) * (capi - ui)) by (nonlinear_arith)
            requires
                ti == capi - ui,
                t2 == ti * ti,
                t3 == t2 * ti,
        ;
        assert(u3 == ui * ui * ui && u2cap == ui * ui * capi && ucap2 == ui * capi * capi && cap3
            == capi * capi * capi) by (nonlinear_arith)
            requires
                u2 == ui * ui,
                u3 == u2 * ui,
                cap2 == capi * capi,
                cap3 == cap2 * capi,
                u2cap == u2 * capi,
                ucap2 == ui * cap2,
        ;
        assert(b0 == basis0(u as int, cap as int));
        assert(b1 == 3 * (ui as int) * (ui as int) * (ui as int) - 6 * (ui as int) * (ui as int)
            * (capi as int) + 4 * (capi as int) * (capi as int) * (capi as int))
            by (nonlinear_arith)
            requires
                b1 == 3 * u3 - 6 * u2cap + 4 * cap3,
                u3 == (ui as int) * (ui as int) * (ui as int),
                u2cap == (ui as int) * (ui as int) * (capi as int),
                cap3 == (capi as int) * (capi as int) * (capi as int),
        ;
        assert(b1 == basis1(u as int, cap as int));
        assert(b2 == -3 * (ui as int) * (ui as int) * (ui as int) + 3 * (ui as int) * (ui as int)
            * (capi as int) + 3 * (ui as int) * (capi as int) * (capi as int) + (capi as int) * (
        capi as int) * (capi as int)) by (nonlinear_arith)
            requires
                b2 == -3 * u3 + 3 * u2cap + 3 * ucap2 + cap3,
                u3 == (ui as int) * (ui as int) * (ui as int),
                u2cap == (ui as int) * (ui as int) * (capi as int),
                ucap2 == (ui as int) * (capi as int) * (capi as int),
                cap3 == (capi as int) * (capi as int) * (capi as int),
        ;
        assert(b2 == basis2(u as int, cap as int));
        assert(b3 == basis3(u as int, cap as int));
        assert(den == 6 * (cap as int) * (cap as int) * (cap as int) && cap3 >= 1)
            by (nonlinear_arith)
            requires
                den == 6 * cap3,
                cap3 == (capi as int) * (capi as int) * (capi as int),
                capi == cap as int,
                1 <= capi,
        ;
        assert(b0 + b1 + b2 + b3 == den);
        assert(0 <= b0 <= den && 0 <= b1 <= den && 0 <= b2 <= den && 0 <= b3 <= den);
        lemma_term_bound(b0 as int, c0.x as int);
        lemma_term_bound(b1 as int, c1.x as int);
        lemma_term_bound(b2 as int, c2.x as int);
        lemma_term_bound(b3 as int, c3.x as int);
        lemma_term_bound(b0 as int, c0.y as int);
        lemma_term_bound(b1 as int, c1.y as int);
        lemma_term_bound(b2 as int, c2.y as int);
        lemma_term_bound(b3 as int, c3.y as int);
        assert(b0 * 0x8000_0000 <= den * 0x8000_0000 && b1 * 0x8000_0000 <= den * 0x8000_0000
            && b2 * 0x8000_0000 <= den * 0x8000_0000 && b3 * 0x8000_0000 <= den * 0x8000_0000)
            by (nonlinear_arith)
            requires
                0 <= b0 <= den,
                0 <= b1 <= den,
                0 <= b2 <= den,
                0 <= b3 <= den,
        ;
        assert(den <= 0x18_0000) by (nonlinear_arith)
            requires
                1 <= capi <= 64,
                den == 6 * capi * capi * capi,
        ;
    }
    let num_x: i128 = b0 * (c0.x as i128) + b1 * (c1.x as i128) + b2 * (c2.x as i128) + b3 * (
    c3.x as i128);
    let num_y: i128 = b0 * (c0.y as i128) + b1 * (c1.y as i128) + b2 * (c2.y as i128) + b3 * (
    c3.y as i128);
    proof {
        assert(num_x == bez_num_x(path@, seg as int, u as int, cap as int));
        assert(num_y == bez_num_y(path@, seg as int, u as int, cap as int));
    }
    let qx: i64 = ((num_x as u128) / (den as u128)) as i64;
    let qy: i64 = ((num_y as u128) / (den as u128)) as i64;
    Vec2i { x: qx, y: qy }
}

/// Smooth a walk of points into a curve: treat the points as the knots of
/// a clamped uniform cubic B-spline and sample every segment evenly. The
/// first and last sample are exactly the first and last input point.
pub fn bezier_path(path: &Vec<Vec2i>, subdivisions: usize) -> (r: Vec<Vec2i>)
    requires
        1 <= path@.len() <= 0x10_0000,
        1 <= subdivisions <= SUBDIVISION_LIMIT,
        forall|i: int| 0 <= i < path@.len() ==> in_rect(#[trigger] path@[i]),
    ensures
        r@.len() == (path@.len() + 1) * subdivisions + 1,
        forall|k: int|
            0 <= k < r@.len() ==> #[trigger] r@[k] == curve_sample(
                path@,
                subdivisions as int,
                k,
            ) && in_rect(r@[k]),
{
    let nseg = path.len() + 1;
    let cap = subdivisions;
    let mut r: Vec<Vec2i> = Vec::new();
    let mut seg: usize = 0;
    proof {
        assert(nseg * cap <= 0x10_0001 * 64) by (nonlinear_arith)
            requires
                nseg <= 0x10_0001,
                1 <= cap <= 64,
        ;
    }
    while seg < nseg
        invariant
            1 <= path@.len() <= 0x10_0000,
            forall|i: int| 0 <= i < path@.len() ==> in_rect(#[trigger] path@[i]),
            nseg == path@.len() + 1,
            1 <= cap <= SUBDIVISION_LIMIT,
            0 <= seg <= nseg,
            r@.len() == seg * cap,
            forall|k: int|
                0 <= k < r@.len() ==> #[trigger] r@[k] == curve_sample(path@, cap as int, k)
                    && in_rect(r@[k]),
        decreases nseg - seg,
    {
        let mut u: usize = 0;
        proof {
            assert((seg + 1) * cap <= 0x10_0001 * 64 && seg * cap + cap == (seg + 1) * cap)
                by (nonlinear_arith)
                requires
                    seg < nseg <= 0x10_0001,
                    1 <= cap <= 64,
            ;
        }
        while u < cap
            invariant
                1 <= path@.len() <= 0x10_0000,
                forall|i: int| 0 <= i < path@.len() ==> in_rect(#[trigger] path@[i]),
                nseg == path@.len() + 1,
                1 <= cap <= SUBDIVISION_LIMIT,
                0 <= seg < nseg,
                0 <= u <= cap,
                r@.len() == seg * cap + u,
                seg * cap + cap <= 0x10_0001 * 64,
                forall|k: int|
                    0 <= k < r@.len() ==> #[trigger] r@[k] == curve_sample(path@, cap as int, k)
                        && in_rect(r@[k]),
            decreases cap - u,
        {
            let p = bez_point_val(path, seg, u, cap);
            r.push(p);
            proof {
                let k: int = seg * cap + u;
                vstd::arithmetic::div_mod::lemma_fundamental_div_mod_converse(
                    k,
                    cap as int,
                    seg as int,
                    u as int,
                );
                assert(k < nseg * cap) by (nonlinear_arith)
                    requires
                        k == seg * cap + u,
                        0 <= u < cap,
                        0 <= seg < nseg,
                ;
                assert(curve_sample(path@, cap as int, k) == bez_point(
                    path@,
                    seg as int,
                    u as int,
                    cap as int,
                ));
            }
            u = u + 1;
        }
        seg = seg + 1;
    }
    let last = bez_point_val(path, nseg - 1, cap, cap);
    r.push(last);
    proof {
        let k: int = nseg * cap;
        assert(r@.len() == nseg * cap + 1);
        assert(r@[k] == bez_point(path@, nseg - 1, cap as int, cap as int));
        assert(curve_sample(path@, cap as int, k) == bez_point(
            path@,
            nseg - 1,
            cap as int,
            cap as int,
        ));
        assert((path@.len() + 1) * cap == nseg * cap);
    }
    r
}

/// The sample lies on the straight segment between `a` and `b`: it is the
/// rounded affine combination with weight `s` of `den`.
pub open spec fn on_segment(a: Vec2i, b: Vec2i, den: int, s: int, p: Vec2i) -> bool {
    &&& 0 <= s <= den
    &&& p.x == ((a.x * (den - s) + b.x * s) / den) as i64
    &&& p.y == ((a.y * (den - s) + b.y * s) / den) as i64
}

/// One sample of a two-point curve lies on the straight segment.
proof fn lemma_two_point_sample(path: Seq<Vec2i>, seg: int, u: int, cap: int)
    requires
        path.len() == 2,
        0 <= seg <= 2,
        0 <= u <= cap,
        1 <= cap <= 64,
    ensures
        exists|s: int|
            #[trigger] on_segment(
                path[0],
                path[1],
                6 * cap * cap * cap,
                s,
                bez_point(path, seg, u, cap),
            ),
{
    lemma_basis(u, cap);
    let a = path[0];
    let b = path[1];
    let den = 6 * cap * cap * cap;
    let b0 = basis0(u, cap);
    let b1 = basis1(u, cap);
    let b2 = basis2(u, cap);
    let b3 = basis3(u, cap);
    if seg == 0 {
        let s = b3;
        assert(bez_num_x(path, seg, u, cap) == a.x * (den - s) + b.x * s) by (nonlinear_arith)
            requires
                bez_num_x(path, seg, u, cap) == b0 * a.x + b1 * a.x + b2 * a.x + b3 * b.x,
                b0 + b1 + b2 + b3 == den,
                s == b3,
        ;
        assert(bez_num_y(path, seg, u, cap) == a.y * (den - s) + b.y * s) by (nonlinear_arith)
            requires
                bez_num_y(path, seg, u, cap) == b0 * a.y + b1 * a.y + b2 * a.y + b3 * b.y,
                b0 + b1 + b2 + b3 == den,
                s == b3,
        ;
        assert(on_segment(a, b, den, s, bez_point(path, seg, u, cap)));
    } else if seg == 1 {
        let s = b2 + b3;
        assert(bez_num_x(path, seg, u, cap) == a.x * (den - s) + b.x * s) by (nonlinear_arith)
            requires
                bez_num_x(path, seg, u, cap) == b0 * a.x + b1 * a.x + b2 * b.x + b3 * b.x,
                b0 + b1 + b2 + b3 == den,
                s == b2 + b3,
        ;
        assert(bez_num_y(path, seg, u, cap) == a.y * (den - s) + b.y * s) by (nonlinear_arith)
            requires
                bez_num_y(path, seg, u, cap) == b0 * a.y + b1 * a.y + b2 * b.y + b3 * b.y,
                b0 + b1 + b2 + b3 == den,
                s == b2 + b3,
        ;
        assert(on_segment(a, b, den, s, bez_point(path, seg, u, cap)));
    } else {
        let s = b1 + b2 + b3;
        assert(bez_num_x(path, seg, u, cap) == a.x * (den - s) + b.x * s) by (nonlinear_arith)
            requires
                bez_num_x(path, seg, u, cap) == b0 * a.x + b1 * b.x + b2 * b.x + b3 * b.x,
                b0 + b1 + b2 + b3 == den,
                s == b1 + b2 + b3,
        ;
        assert(bez_num_y(path, seg, u, cap) == a.y * (den - s) + b.y * s) by (nonlinear_arith)
            requires
                bez_num_y(path, seg, u, cap) == b0 * a.y + b1 * b.y + b2 * b.y + b3 * b.y,
                b0 + b1 + b2 + b3 == den,
                s == b1 + b2 + b3,
        ;
        assert(on_segment(a, b, den, s, bez_point(path, seg, u, cap)));
    }
}

/// A walk of two adjacent points smooths to the straight segment between
/// them: every curve sample is the rounded affine combination of the two
/// endpoints, and the curve starts and ends exactly on them.
pub proof fn lemma_two_point_curve(path: Seq<Vec2i>, cap: int, k: int)
    requires
        path.len() == 2,
        1 <= cap <= 64,
        0 <= k <= 3 * cap,
    ensures
        exists|s: int|
            #[trigger] on_segment(path[0], path[1], 6 * cap * cap * cap, s, curve_sample(path, cap, k)),
        k == 0 ==> curve_sample(path, cap, k) == path[0],
        k == 3 * cap ==> curve_sample(path, cap, k) == path[1],
{
    let den = 6 * cap * cap * cap;
    assert(den >= 6) by (nonlinear_arith)
        requires
            1 <= cap,
            den == 6 * cap * cap * cap,
    ;
    if k < 3 * cap {
        let seg = k / cap;
        let u = k % cap;
        vstd::arithmetic::div_mod::lemma_fundamental_div_mod(k, cap);
        vstd::arithmetic::div_mod::lemma_mod_division_less_than_divisor(k, cap);
        vstd::arithmetic::div_mod::lemma_div_pos_is_pos(k, cap);
        assert(seg <= 2) by (nonlinear_arith)
            requires
                k == seg * cap + u,
                0 <= u < cap,
                k < 3 * cap,
                seg >= 0,
        ;
        lemma_two_point_sample(path, seg, u, cap);
        assert(curve_sample(path, cap, k) == bez_point(path, seg, u, cap));
        let s_w = choose|s: int|
            #[trigger] on_segment(path[0], path[1], den, s, bez_point(path, seg, u, cap));
        assert(on_segment(path[0], path[1], den, s_w, curve_sample(path, cap, k)));
        if k == 0 {
            assert(seg == 0 && u == 0) by (nonlinear_arith)
                requires
                    k == seg * cap + u,
                    0 <= u < cap,
                    seg >= 0,
                    k == 0,
                    cap >= 1,
            ;
            lemma_basis(0, cap);
            assert(basis3(0, cap) == 0) by (nonlinear_arith)
                requires
                    basis3(0, cap) == 0 * 0 * 0,
            ;
            assert(bez_num_x(path, 0, 0, cap) == den * path[0].x) by (nonlinear_arith)
                requires
                    bez_num_x(path, 0, 0, cap) == basis0(0, cap) * path[0].x + basis1(0, cap)
                        * path[0].x + basis2(0, cap) * path[0].x + basis3(0, cap) * path[1].x,
                    basis0(0, cap) + basis1(0, cap) + basis2(0, cap) + basis3(0, cap) == den,
                    basis3(0, cap) == 0,
            ;
            assert(bez_num_y(path, 0, 0, cap) == den * path[0].y) by (nonlinear_arith)
                requires
                    bez_num_y(path, 0, 0, cap) == basis0(0, cap) * path[0].y + basis1(0, cap)
                        * path[0].y + basis2(0, cap) * path[0].y + basis3(0, cap) * path[1].y,
                    basis0(0, cap) + basis1(0, cap) + basis2(0, cap) + basis3(0, cap) == den,
                    basis3(0, cap) == 0,
            ;
            vstd::arithmetic::div_mod::lemma_div_multiples_vanish(path[0].x as int, den);
            vstd::arithmetic::div_mod::lemma_div_multiples_vanish(path[0].y as int, den);
        }
    } else {
        lemma_two_point_sample(path, 2, cap, cap);
        assert(curve_sample(path, cap, k) == bez_point(path, 2, cap, cap));
        let s_w = choose|s: int|
            #[trigger] on_segment(path[0], path[1], den, s, bez_point(path, 2, cap, cap));
        assert(on_segment(path[0], path[1], den, s_w, curve_sample(path, cap, k)));
        lemma_basis(cap, cap);
        assert(basis0(cap, cap) == 0) by (nonlinear_arith)
            requires
                basis0(cap, cap) == (cap - cap) * (cap - cap) * (cap - cap),
        ;
        assert(bez_num_x(path, 2, cap, cap) == den * path[1].x) by (nonlinear_arith)
            requires
                bez_num_x(path, 2, cap, cap) == basis0(cap, cap) * path[0].x + basis1(cap, cap)
                    * path[1].x + basis2(cap, cap) * path[1].x + basis3(cap, cap) * path[1].x,
                basis0(cap, cap) + basis1(cap, cap) + basis2(cap, cap) + basis3(cap, cap) == den,
                basis0(cap, cap) == 0,
        ;
        assert(bez_num_y(path, 2, cap, cap) == den * path[1].y) by (nonlinear_arith)
            requires
                bez_num_y(path, 2, cap, cap) == basis0(cap, cap) * path[0].y + basis1(cap, cap)
                    * path[1].y + basis2(cap, cap) * path[1].y + basis3(cap, cap) * path[1].y,
                basis0(cap, cap) + basis1(cap, cap) + basis2(cap, cap) + basis3(cap, cap) == den,
                basis0(cap, cap) == 0,
        ;
        vstd::arithmetic::div_mod::lemma_div_multiples_vanish(path[1].x as int, den);
        vstd::arithmetic::div_mod::lemma_div_multiples_vanish(path[1].y as int, den);
    }
}

/// A distinct-sector walk cannot be longer than the sector count.
proof fn lemma_distinct_path_len(p: Seq<int>, n: int)
    requires
        no_repeats(p),
        forall|k: int| 0 <= k < p.len() ==> 0 <= #[trigger] p[k] < n,
        n >= 0,
    ensures
        p.len() <= n,
{
    assert(p.no_duplicates());
    p.unique_seq_to_set();
    let range = vstd::set_lib::set_int_range(0, n);
    vstd::set_lib::lemma_int_range(0, n);
    assert forall|x: int| p.to_set().contains(x) implies range.contains(x) by {
        assert(p.contains(x));
        let k = choose|k: int| 0 <= k < p.len() && p[k] == x;
    }
    vstd::set_lib::lemma_len_subset(p.to_set(), range);
}

/// Total length of a polyline: the sum of rounded segment lengths.
pub open spec fn poly_length(pts: Seq<Vec2i>) -> int
    decreases pts.len(),
{
    if pts.len() <= 1 {
        0
    } else {
        poly_length(pts.drop_last()) + sqrt_floor(dist_sq(pts[pts.len() - 2], pts[pts.len() - 1]))
    }
}

/// The exact length of a polyline of bounded points.
fn poly_length_val(pts: &Vec<Vec2i>) -> (r: u64)
    requires
        forall|i: int| 0 <= i < pts@.len() ==> in_rect(#[trigger] pts@[i]),
        pts@.len() <= 0x800_0000,
    ensures
        r == poly_length(pts@),
{
    if pts.len() <= 1 {
        return 0;
    }
    let mut acc: u64 = 0;
    let mut i: usize = 1;
    while i < pts.len()
        invariant
            forall|k: int| 0 <= k < pts@.len() ==> in_rect(#[trigger] pts@[k]),
            2 <= pts@.len() <= 0x800_0000,
            1 <= i <= pts@.len(),
            acc == poly_length(pts@.subrange(0, i as int)),
            acc <= (i - 1) * 0x1_0000_0000,
        decreases pts@.len() - i,
    {
        let a = pts[i - 1];
        let b = pts[i];
        let dsq = dist_sq_val(a, b);
        let d = isqrt(dsq as u128);
        proof {
            assert(dist_sq(a, b) <= 0x8000_0000_0000_0000) by (nonlinear_arith)
                requires
                    -0x8000_0000 <= a.x - b.x <= 0x8000_0000,
                    -0x8000_0000 <= a.y - b.y <= 0x8000_0000,
                    dist_sq(a, b) == (a.x - b.x) * (a.x - b.x) + (a.y - b.y) * (a.y - b.y),
            ;
            assert(d <= 0x1_0000_0000) by (nonlinear_arith)
                requires
                    is_sqrt_floor(dsq as int, d as int),
                    dsq <= 0x8000_0000_0000_0000,
            ;
            assert((i - 1) * 0x1_0000_0000 + 0x1_0000_0000 == i * 0x1_0000_0000
                && i * 0x1_0000_0000 <= 0x800_0000 * 0x1_0000_0000) by (nonlinear_arith)
                requires
                    1 <= i <= 0x800_0000,
            ;
            let pre = pts@.subrange(0, i as int);
            let cur = pts@.subrange(0, i + 1);
            assert(cur.drop_last() =~= pre);
            assert(cur[cur.len() - 2] == pts@[i - 1]);
            assert(cur[cur.len() - 1] == pts@[i as int]);
        }
        acc = acc + d;
        i = i + 1;
    }
    proof {
        assert(pts@.subrange(0, pts@.len() as int) =~= pts@);
    }
    acc
}

/// A road connecting a city's sector to one of its resource nodes.
#[derive(Debug, Clone)]
pub struct Road {
    /// Key of the sector the road starts in: the owning city's sector.
    pub start_sector: usize,
    /// Key of the sector the road ends in: the node's host sector.
    pub end_sector: usize,
    /// Key of the resource node this road serves.
    pub node: usize,
    /// The sectors the road passes through, start to end.
    pub path: Vec<usize>,
    /// The smoothed curve through the path's centroids.
    pub curve: Vec<Vec2i>,
    /// The length of the curve.
    pub length: u64,
    /// Movement-speed multiplier on this road, in thousandths.
    pub speed_multiplier: u32,
}

/// The centroids of the sectors along a walk.
pub open spec fn path_centroids(s: Seq<Sector>, p: Seq<usize>) -> Seq<Vec2i> {
    p.map_values(|u: usize| s[u as int].centroid)
}

/// A finished road: its walk joins the owning city's sector to the node's
/// sector, repeats no sector, costs no more than any other walk between
/// the same endpoints, and its curve samples the smoothed centroid walk.
pub open spec fn road_ok(
    r: Road,
    g: SectorGraph,
    cities: Seq<crate::city::City>,
    nodes: Seq<crate::resource::ResourceNode>,
    subdivisions: int,
) -> bool {
    &&& r.node < nodes.len()
    &&& nodes[r.node as int].city < cities.len()
    &&& r.start_sector == cities[nodes[r.node as int].city as int].sector
    &&& r.end_sector == nodes[r.node as int].sector
    &&& is_path(g.sectors@, path_ints(r.path@), r.start_sector as int, r.end_sector as int)
    &&& no_repeats(path_ints(r.path@))
    &&& forall|q: Seq<int>|
        is_path(g.sectors@, q, r.start_sector as int, r.end_sector as int) ==> path_cost(
            g.sectors@,
            path_ints(r.path@),
        ) <= path_cost(g.sectors@, q)
    &&& r.curve@.len() == (r.path@.len() + 1) * subdivisions + 1
    &&& forall|k: int|
        0 <= k < r.curve@.len() ==> #[trigger] r.curve@[k] == curve_sample(
            path_centroids(g.sectors@, r.path@),
            subdivisions,
            k,
        )
    &&& r.length == poly_length(r.curve@)
    &&& r.speed_multiplier == 1000
}

/// Build the road for one (city, resource node) pair, or nothing when no
/// walk joins the pair.
#[verifier::rlimit(100)]
#[verifier::spinoff_prover]
fn build_road(
    g: &SectorGraph,
    cities: &Vec<crate::city::City>,
    nodes: &Vec<crate::resource::ResourceNode>,
    k: usize,
    subdivisions: usize,
) -> (r: Option<Road>)
    requires
        g.wf(),
        1 <= subdivisions <= SUBDIVISION_LIMIT,
        k < nodes@.len(),
        nodes@[k as int].city < cities@.len(),
        nodes@[k as int].sector < g.sectors@.len(),
        cities@[nodes@[k as int].city as int].sector < g.sectors@.len(),
    ensures
        match r {
            Some(rd) => rd.node == k && road_ok(rd, *g, cities@, nodes@, subdivisions as int),
            None => !reachable(
                g.sectors@,
                cities@[nodes@[k as int].city as int].sector as int,
                nodes@[k as int].sector as int,
            ),
        },
{
    let ghost s: Seq<Sector> = g.sectors@;
    let city_sector = cities[nodes[k].city].sector;
    let node_sector = nodes[k].sector;
    match pathfind(g, city_sector, node_sector) {
        Ok(path) => {
            proof {
                lemma_distinct_path_len(path_ints(path@), s.len() as int);
                assert(path_ints(path@).len() == path@.len());
                assert forall|k2: int|
                    0 <= k2 < path@.len() implies ((#[trigger] path@[k2]) as int) < s.len() by {
                    assert(path_ints(path@)[k2] == path@[k2] as int);
                }
            }
            let mut pts: Vec<Vec2i> = Vec::new();
            let mut t: usize = 0;
            while t < path.len()
                invariant
                    g.wf(),
                    s == g.sectors@,
                    forall|k2: int|
                        0 <= k2 < path@.len() ==> ((#[trigger] path@[k2]) as int) < s.len(),
                    0 <= t <= path@.len(),
                    pts@.len() == t,
                    forall|k2: int|
                        0 <= k2 < t ==> #[trigger] pts@[k2] == s[path@[k2] as int].centroid,
                decreases path@.len() - t,
            {
                let idx = path[t];
                proof {
                    assert(path_ints(path@)[t as int] == idx as int);
                    assert((idx as int) < s.len());
                    assert(crate::map::wf_sector(s[idx as int], idx as int, s.len() as int));
                }
                pts.push(g.sectors[idx].centroid);
                t = t + 1;
            }
            proof {
                assert(pts@ =~= path_centroids(s, path@));
                assert forall|i: int| 0 <= i < pts@.len() implies in_rect(#[trigger] pts@[i]) by {
                    assert(crate::map::wf_sector(
                        s[path@[i] as int],
                        path@[i] as int,
                        s.len() as int,
                    ));
                }
                assert((path@.len() + 1) * subdivisions + 1 <= 0x10_0001 * 64 + 1)
                    by (nonlinear_arith)
                    requires
                        path@.len() <= 0x10_0000,
                        1 <= subdivisions <= 64,
                ;
            }
            let curve = bezier_path(&pts, subdivisions);
            let length = poly_length_val(&curve);
            Some(
                Road {
                    start_sector: city_sector,
                    end_sector: node_sector,
                    node: k,
                    path,
                    curve,
                    length,
                    speed_multiplier: 1000,
                },
            )
        },
        Err(e) => None,
    }
}

/// Build one road for every (city, resource node) pair: find the least-cost
/// walk through the sector graph, smooth its centroids into a curve, and
/// measure the curve. A pair whose endpoints are not joined by any walk
/// yields no road and aborts nothing else; on a connected graph every node
/// gets its road, in node order.
pub fn spawn_node_roads(
    g: &SectorGraph,
    cities: &Vec<crate::city::City>,
    nodes: &Vec<crate::resource::ResourceNode>,
    subdivisions: usize,
) -> (r: Vec<Road>)
    requires
        g.wf(),
        1 <= subdivisions <= SUBDIVISION_LIMIT,
        forall|i: int|
            0 <= i < nodes@.len() ==> (#[trigger] nodes@[i]).city < cities@.len() && nodes@[
                i
            ].sector < g.sectors@.len(),
        forall|i: int| 0 <= i < cities@.len() ==> (#[trigger] cities@[i]).sector < g.sectors@.len(),
    ensures
        r@.len() <= nodes@.len(),
        forall|t: int|
            0 <= t < r@.len() ==> road_ok(#[trigger] r@[t], *g, cities@, nodes@, subdivisions as int),
        forall|k: int|
            0 <= k < nodes@.len() ==> (reachable(
                g.sectors@,
                cities@[(#[trigger] nodes@[k]).city as int].sector as int,
                nodes@[k].sector as int,
            ) <==> exists|t: int| 0 <= t < r@.len() && (#[trigger] r@[t]).node == k),
        connected(g.sectors@) ==> (r@.len() == nodes@.len() && forall|t: int|
            0 <= t < r@.len() ==> (#[trigger] r@[t]).node == t),
{
    let ghost s: Seq<Sector> = g.sectors@;
    let mut roads: Vec<Road> = Vec::new();
    let mut k: usize = 0;
    while k < nodes.len()
        invariant
            g.wf(),
            s == g.sectors@,
            1 <= subdivisions <= SUBDIVISION_LIMIT,
            forall|i: int|
                0 <= i < nodes@.len() ==> (#[trigger] nodes@[i]).city < cities@.len() && nodes@[
                    i
                ].sector < g.sectors@.len(),
            forall|i: int|
                0 <= i < cities@.len() ==> (#[trigger] cities@[i]).sector < g.sectors@.len(),
            0 <= k <= nodes@.len(),
            roads@.len() <= k,
            forall|t: int|
                0 <= t < roads@.len() ==> road_ok(
                    #[trigger] roads@[t],
                    *g,
                    cities@,
                    nodes@,
                    subdivisions as int,
                ),
            forall|t: int| 0 <= t < roads@.len() ==> ((#[trigger] roads@[t]).node as int) < k,
            forall|k2: int|
                0 <= k2 < k ==> (reachable(
                    s,
                    cities@[(#[trigger] nodes@[k2]).city as int].sector as int,
                    nodes@[k2].sector as int,
                ) <==> exists|t: int| 0 <= t < roads@.len() && (#[trigger] roads@[t]).node == k2),
            connected(s) ==> (roads@.len() == k && forall|t: int|
                0 <= t < roads@.len() ==> (#[trigger] roads@[t]).node == t),
        decreases nodes@.len() - k,
    {
        let ghost roads_pre: Seq<Road> = roads@;
        match build_road(g, cities, nodes, k, subdivisions) {
            Some(road) => {
                proof {
                    assert(is_path(
                        s,
                        path_ints(road.path@),
                        road.start_sector as int,
                        road.end_sector as int,
                    ));
                    assert(reachable(
                        s,
                        cities@[nodes@[k as int].city as int].sector as int,
                        nodes@[k as int].sector as int,
                    ));
                }
                roads.push(road);
                proof {
                    assert(roads@[roads@.len() - 1].node == k);
                }
            },
            None => {
                proof {
                    if connected(s) {
                        assert(reachable(
                            s,
                            cities@[nodes@[k as int].city as int].sector as int,
                            nodes@[k as int].sector as int,
                        ));
                    }
                }
            },
        }
        proof {
            assert forall|k2: int|
                0 <= k2 < k + 1 implies (reachable(
                s,
                cities@[(#[trigger] nodes@[k2]).city as int].sector as int,
                nodes@[k2].sector as int,
            ) <==> exists|t: int|
                0 <= t < roads@.len() && (#[trigger] roads@[t]).node == k2) by {
                if k2 < k {
                    if exists|t: int|
                        0 <= t < roads_pre.len() && (#[trigger] roads_pre[t]).node == k2 {
                        let t = choose|t: int|
                            0 <= t < roads_pre.len() && (#[trigger] roads_pre[t]).node == k2;
                        assert(roads@[t].node == k2);
                    }
                    if exists|t: int| 0 <= t < roads@.len() && (#[trigger] roads@[t]).node == k2 {
                        let t = choose|t: int|
                            0 <= t < roads@.len() && (#[trigger] roads@[t]).node == k2;
                        assert(t < roads_pre.len());
                        assert(roads_pre[t].node == k2);
                    }
                }
            }
        }
        k = k + 1;
    }
    roads
}

/// A settled cost plus the heuristic stays within one machine word.
proof fn lemma_f_bound(s: Seq<Sector>, dist: Seq<Option<u64>>, v: int, n: int)
    requires
        0 <= v < n,
        n == s.len(),
        n <= 0x10_0000,
        dist.len() == n,
        dist[v] is Some,
        forall|x: int|
            0 <= x < n ==> ((#[trigger] dist[x]) matches Some(d) ==> d <= (n - none_count(dist))
                * WEIGHT_LIMIT),
    ensures
        dval(dist[v]) + 0x1_0000_0000 < 0xffff_ffff_ffff_ffff,
{
    crate::counting::lemma_none_count_bounds(dist);
    assert((n - none_count(dist)) * WEIGHT_LIMIT <= 0x10_0000 * WEIGHT_LIMIT)
        by (nonlinear_arith)
        requires
            0 <= n - none_count(dist) <= n,
            n <= 0x10_0000,
            WEIGHT_LIMIT == 0x800_0000_0000,
    ;
}

} // verus!
