//! Single-pair shortest paths.
//!
//! The algorithm finalizes nodes one at a time, always the unfinished node
//! with the smallest tentative distance, relaxing its outgoing edges, and
//! stops early once the target is about to be finalized. Predecessor links
//! record, for every improved node, the finalized neighbor it was improved
//! from; walking them backward from the target yields the reported path.

use crate::graph::Graph;
use crate::paths::lemma_sum_weights_nonneg;
use crate::paths::lemma_sum_weights_prepend;
use crate::paths::sum_weights;
use crate::paths::weighted_path_ok;
use crate::seqs::count_true;
use crate::seqs::filled_vec;
use crate::seqs::lemma_count_true_le;
use crate::seqs::lemma_count_true_update;
use vstd::prelude::*;

verus! {

/// Edge `e` out of node `i` cannot improve its target: the target's
/// tentative distance is already at most `dist[i]` plus the edge weight.
pub open spec fn edge_relaxed<T>(g: Graph<T>, dist: Seq<usize>, i: int, e: int) -> bool {
    (dist[g.edges_of(i)[e].into as int] as int) <= dist[i] + g.edges_of(i)[e].weight
}

/// Every outgoing edge of every finalized node has been relaxed.
pub open spec fn all_relaxed<T>(g: Graph<T>, dist: Seq<usize>, done: Seq<bool>) -> bool {
    forall|i: int, e: int|
        0 <= i < g.node_cnt() && done[i] && 0 <= e < g.edges_of(i).len() ==> #[trigger] edge_relaxed(
            g,
            dist,
            i,
            e,
        )
}

/// In a state where the start is finalized at distance 0, every finalized
/// node's edges are relaxed, and the target's tentative distance is at most
/// that of every unfinished node, the target's tentative distance bounds the
/// weight of every walk from the start from below. Stated with the endpoint
/// free so that the induction can peel the walk from the back: either the
/// bound already holds, or the walk so far ends in a finalized node whose
/// tentative distance the walk's weight covers.
proof fn lemma_lower_bound_aux<T>(
    g: Graph<T>,
    dist: Seq<usize>,
    done: Seq<bool>,
    start: usize,
    to: usize,
    q: Seq<usize>,
    ws: Seq<usize>,
)
    requires
        g.wf(),
        dist.len() == g.node_cnt(),
        done.len() == g.node_cnt(),
        (start as int) < g.node_cnt(),
        (to as int) < g.node_cnt(),
        dist[start as int] == 0,
        done[start as int],
        all_relaxed(g, dist, done),
        forall|x: int| 0 <= x < g.node_cnt() && !done[x] ==> dist[to as int] <= #[trigger] dist[x],
        weighted_path_ok(g, q, ws),
        q.first() == start,
    ensures
        dist[to as int] as int <= sum_weights(ws) || (done[q.last() as int] && dist[q.last() as int]
            as int <= sum_weights(ws)),
    decreases q.len(),
{
    if q.len() == 1 {
        assert(ws.len() == 0);
    } else {
        let q0 = q.drop_last();
        let ws0 = ws.drop_last();
        assert(weighted_path_ok(g, q0, ws0)) by {
            assert forall|i: int| 0 <= i < ws0.len() implies g.has_edge(
                q0[i] as int,
                q0[i + 1] as int,
                (#[trigger] ws0[i]) as int,
            ) by {
                assert(g.has_edge(q[i] as int, q[i + 1] as int, ws[i] as int));
            }
        }
        lemma_lower_bound_aux(g, dist, done, start, to, q0, ws0);
        let u = q0.last();
        let v = q.last();
        let w = ws.last();
        assert(g.has_edge(u as int, v as int, w as int)) by {
            assert(g.has_edge(
                q[ws.len() - 1] as int,
                q[ws.len() as int] as int,
                ws[ws.len() - 1] as int,
            ));
        }
        assert(sum_weights(ws) == sum_weights(ws0) + w);
        if dist[to as int] as int <= sum_weights(ws0) {
        } else {
            // The shorter walk ends in the finalized node `u`, and the final
            // edge (u -> v, w) has been relaxed.
            let e = choose|e: int|
                0 <= e < g.edges_of(u as int).len() && (#[trigger] g.edges_of(u as int)[e]).into
                    == v as int && g.edges_of(u as int)[e].weight == w as int;
            assert(edge_relaxed(g, dist, u as int, e));
            assert(dist[v as int] as int <= dist[u as int] + w);
            if !done[v as int] {
                assert(dist[to as int] <= dist[v as int]);
            }
        }
    }
}

/// The tentative distance of the target bounds every walk's weight.
proof fn lemma_lower_bound<T>(
    g: Graph<T>,
    dist: Seq<usize>,
    done: Seq<bool>,
    start: usize,
    to: usize,
    q: Seq<usize>,
    ws: Seq<usize>,
)
    requires
        g.wf(),
        dist.len() == g.node_cnt(),
        done.len() == g.node_cnt(),
        (start as int) < g.node_cnt(),
        (to as int) < g.node_cnt(),
        dist[start as int] == 0,
        done[start as int],
        all_relaxed(g, dist, done),
        forall|x: int| 0 <= x < g.node_cnt() && !done[x] ==> dist[to as int] <= #[trigger] dist[x],
        weighted_path_ok(g, q, ws),
        q.first() == start,
        q.last() == to,
    ensures
        dist[to as int] as int <= sum_weights(ws),
{
    lemma_lower_bound_aux(g, dist, done, start, to, q, ws);
}

/// One predecessor link is sound: it leads from a settled node over a real
/// edge whose relaxation produced the target's tentative distance, and it was
/// recorded strictly earlier (by `rank`) than the target was settled, if it
/// ever was.
pub open spec fn pred_link_ok<T>(
    g: Graph<T>,
    dist: Seq<usize>,
    done: Seq<bool>,
    rank: Map<usize, int>,
    kctr: int,
    start: usize,
    v: int,
    u: usize,
) -> bool {
    &&& v != start as int
    &&& (u as int) < g.node_cnt()
    &&& done[u as int]
    &&& dist[u as int] < usize::MAX
    &&& dist[v] < usize::MAX
    &&& exists|w: int| g.has_edge(u as int, v, w) && dist[v] as int == dist[u as int] + w
    &&& rank.contains_key(u)
    &&& 0 <= rank[u] < kctr
    &&& (done[v] ==> rank[u] < rank[v as usize])
}

/// The measure that predecessor links strictly decrease: a settled node's
/// rank, and the current counter (above every rank) for unsettled ones.
pub open spec fn settle_measure(done: Seq<bool>, rank: Map<usize, int>, kctr: int, x: usize) -> int {
    if done[x as int] {
        rank[x]
    } else {
        kctr
    }
}

/// The working state of the shortest-path search: array sizes, the seeded
/// start, settled nodes carry finite, mutually minimal distances and
/// settlement ranks, and every finite distance away from the start is
/// explained by a sound predecessor link.
pub open spec fn state_inv<T>(
    g: Graph<T>,
    dist: Seq<usize>,
    prevs: Seq<Option<usize>>,
    done: Seq<bool>,
    rank: Map<usize, int>,
    kctr: int,
    start: usize,
) -> bool {
    &&& dist.len() == g.node_cnt()
    &&& prevs.len() == g.node_cnt()
    &&& done.len() == g.node_cnt()
    &&& (start as int) < g.node_cnt()
    &&& dist[start as int] == 0
    &&& prevs[start as int] is None
    &&& kctr >= 0
    &&& (forall|v: int| 0 <= v < dist.len() && #[trigger] done[v] ==> dist[v] < usize::MAX)
    &&& (forall|v: int|
        0 <= v < dist.len() && #[trigger] done[v] ==> rank.contains_key(v as usize) && 0 <= rank[v as usize]
            < kctr)
    &&& (forall|i: int, j: int|
        0 <= i < dist.len() && 0 <= j < dist.len() && done[i] && !done[j] ==> #[trigger] dist[i]
            <= #[trigger] dist[j])
    &&& (forall|v: int|
        0 <= v < dist.len() && v != start as int && (#[trigger] dist[v]) < usize::MAX ==> prevs[v] is Some)
    &&& (forall|v: int|
        0 <= v < dist.len() ==> ((#[trigger] prevs[v]) matches Some(u) ==> pred_link_ok(
            g,
            dist,
            done,
            rank,
            kctr,
            start,
            v,
            u,
        )))
}

/// The unfinished node with the smallest tentative distance, or the length
/// of the arrays when every unfinished node still reads `usize::MAX`.
fn min_unfinished(dist: &Vec<usize>, done: &Vec<bool>) -> (best: usize)
    requires
        dist@.len() == done@.len(),
    ensures
        best as int <= dist@.len(),
        best as int == dist@.len() ==> (forall|j: int|
            0 <= j < dist@.len() && !(#[trigger] done@[j]) ==> dist@[j] == usize::MAX),
        (best as int) < dist@.len() ==> (!done@[best as int] && dist@[best as int] < usize::MAX
            && (forall|j: int|
            0 <= j < dist@.len() && !(#[trigger] done@[j]) ==> dist@[best as int] <= dist@[j])),
{
    let n = dist.len();
    let mut best: usize = n;
    let mut best_d: usize = usize::MAX;
    let mut i: usize = 0;
    while i < n
        invariant
            i <= n,
            best <= n,
            n == dist@.len(),
            dist@.len() == done@.len(),
            best == n ==> best_d == usize::MAX,
            best < n ==> ((best as int) < i && !done@[best as int] && dist@[best as int] == best_d
                && best_d < usize::MAX),
            forall|j: int| 0 <= j < i && !(#[trigger] done@[j]) ==> best_d <= dist@[j],
        decreases n - i,
    {
        if !done[i] && dist[i] < best_d {
            best = i;
            best_d = dist[i];
        }
        i += 1;
    }
    best
}

impl<T> Graph<T> {
    /// Relaxes every outgoing edge of the just-settled node `best`, whose
    /// distance `best_d` is already minimal among the unsettled ones,
    /// updating tentative distances and predecessor links.
    #[verifier::loop_isolation(false)]
    fn relax_from(
        &self,
        best: usize,
        best_d: usize,
        dist: &mut Vec<usize>,
        prevs: &mut Vec<Option<usize>>,
        done: &Vec<bool>,
        Ghost(rank): Ghost<Map<usize, int>>,
        Ghost(kctr): Ghost<int>,
        Ghost(start_id): Ghost<usize>,
    )
        requires
            self.wf(),
            state_inv(*self, old(dist)@, old(prevs)@, done@, rank, kctr, start_id),
            (best as int) < self.node_cnt(),
            done@[best as int],
            old(dist)@[best as int] == best_d,
            best_d < usize::MAX,
            forall|v: int|
                0 <= v < self.node_cnt() && #[trigger] done@[v] ==> old(dist)@[v] <= best_d,
            forall|i2: int, e: int|
                0 <= i2 < self.node_cnt() && done@[i2] && i2 != best as int && 0 <= e
                    < self.edges_of(i2).len() ==> #[trigger] edge_relaxed(*self, old(dist)@, i2, e),
        ensures
            state_inv(*self, final(dist)@, final(prevs)@, done@, rank, kctr, start_id),
            all_relaxed(*self, final(dist)@, done@),
    {
        let ghost g = *self;
        let ghost n = self.node_cnt();
        let es_len = self.nodes[best].edges.len();
        let mut j: usize = 0;
        while j < es_len
            invariant
                j <= es_len,
                state_inv(g, dist@, prevs@, done@, rank, kctr, start_id),
                dist@[best as int] == best_d,
                forall|v: int| 0 <= v < n && #[trigger] done@[v] ==> dist@[v] <= best_d,
                forall|i2: int, e: int|
                    0 <= i2 < n && done@[i2] && i2 != best as int && 0 <= e < g.edges_of(i2).len()
                        ==> #[trigger] edge_relaxed(g, dist@, i2, e),
                forall|e: int| 0 <= e < j ==> #[trigger] edge_relaxed(g, dist@, best as int, e),
            decreases es_len - j,
        {
            let e_to = self.nodes[best].edges[j].into;
            let e_w = self.nodes[best].edges[j].weight;
            proof {
                assert(g.has_edge(best as int, e_to as int, e_w as int)) by {
                    assert(g.edges_of(best as int)[j as int].into == e_to);
                }
                assert((e_to as int) < n);
            }
            if e_w <= usize::MAX - best_d {
                let cand = best_d + e_w;
                if cand < dist[e_to] {
                    let ghost dist_before = dist@;
                    let ghost prevs_before = prevs@;
                    proof {
                        assert(!done@[e_to as int]);
                        assert(e_to != start_id);
                    }
                    dist[e_to] = cand;
                    prevs[e_to] = Some(best);
                    proof {
                        assert forall|i2: int, e: int|
                            0 <= i2 < n && done@[i2] && i2 != best as int && 0 <= e < g.edges_of(
                                i2,
                            ).len() implies #[trigger] edge_relaxed(g, dist@, i2, e) by {
                            assert(edge_relaxed(g, dist_before, i2, e));
                            assert(dist@[i2] == dist_before[i2]);
                        }
                        assert forall|e: int| 0 <= e < j + 1 implies #[trigger] edge_relaxed(
                            g,
                            dist@,
                            best as int,
                            e,
                        ) by {
                            if e < j {
                                assert(edge_relaxed(g, dist_before, best as int, e));
                            }
                        }
                        assert forall|v: int|
                            0 <= v < n implies ((#[trigger] prevs@[v]) matches Some(u)
                            ==> pred_link_ok(g, dist@, done@, rank, kctr, start_id, v, u)) by {
                            if v == e_to as int {
                                assert(g.has_edge(best as int, v, e_w as int) && dist@[v] as int
                                    == dist@[best as int] + e_w);
                            } else {
                                if prevs@[v] is Some {
                                    let u = prevs_before[v]->0;
                                    assert(pred_link_ok(
                                        g,
                                        dist_before,
                                        done@,
                                        rank,
                                        kctr,
                                        start_id,
                                        v,
                                        u,
                                    ));
                                    assert(done@[u as int]);
                                    assert(u != e_to);
                                    let w0 = choose|w0: int|
                                        g.has_edge(u as int, v, w0) && dist_before[v] as int
                                            == dist_before[u as int] + w0;
                                    assert(g.has_edge(u as int, v, w0) && dist@[v] as int == dist@[u
                                        as int] + w0);
                                }
                            }
                        }
                    }
                } else {
                    proof {
                        assert(edge_relaxed(g, dist@, best as int, j as int));
                    }
                }
            } else {
                proof {
                    assert(dist@[e_to as int] <= usize::MAX);
                    assert(edge_relaxed(g, dist@, best as int, j as int));
                }
            }
            j += 1;
        }
        proof {
            assert forall|i2: int, e: int|
                0 <= i2 < n && done@[i2] && 0 <= e < g.edges_of(i2).len() implies #[trigger] edge_relaxed(
                g,
                dist@,
                i2,
                e,
            ) by {
                if i2 == best as int {
                    assert(edge_relaxed(g, dist@, best as int, e));
                }
            }
            assert(all_relaxed(g, dist@, done@));
        }
    }
}


impl<T> Graph<T> {
    /// Shortest path from `start_id` to `to_id` (both must exist).
    ///
    /// Returns `Some((d, p))` where `p` is a walk from `start_id` to `to_id`
    /// whose edge weights sum to exactly `d`, and no walk between the two
    /// weighs less; asking for a node's distance to itself yields
    /// `Some((0, [start_id]))`. Returns `None` exactly when no walk of
    /// weight below `usize::MAX` joins the two nodes — in particular when
    /// the target is unreachable.
    #[verifier::loop_isolation(false)]
    pub fn dijkstra_dist(&self, start_id: usize, to_id: usize) -> (r: Option<(usize, Vec<usize>)>)
        requires
            self.wf(),
            (start_id as int) < self.node_cnt(),
            (to_id as int) < self.node_cnt(),
        ensures
            match r {
                Some(dp) => {
                    &&& dp.1@.len() >= 1
                    &&& dp.1@.no_duplicates()
                    &&& dp.1@.first() == start_id
                    &&& dp.1@.last() == to_id
                    &&& dp.0 < usize::MAX
                    &&& exists|ws: Seq<usize>|
                        weighted_path_ok(*self, dp.1@, ws) && sum_weights(ws) == dp.0 as int
                    &&& forall|q: Seq<usize>, ws: Seq<usize>|
                        #[trigger] weighted_path_ok(*self, q, ws) && q.first() == start_id
                            && q.last() == to_id ==> dp.0 as int <= sum_weights(ws)
                    &&& (start_id == to_id ==> dp.0 == 0 && dp.1@ =~= seq![start_id])
                },
                None => forall|q: Seq<usize>, ws: Seq<usize>|
                    #[trigger] weighted_path_ok(*self, q, ws) && q.first() == start_id && q.last()
                        == to_id ==> sum_weights(ws) >= usize::MAX as int,
            },
    {
        let ghost g = *self;
        if start_id == to_id {
            let mut p_out: Vec<usize> = Vec::new();
            p_out.push(start_id);
            proof {
                assert(p_out@ =~= seq![start_id]);
                assert(weighted_path_ok(g, seq![start_id], Seq::<usize>::empty()));
                assert(sum_weights(Seq::<usize>::empty()) == 0);
                assert forall|q: Seq<usize>, ws: Seq<usize>| #[trigger] weighted_path_ok(g, q, ws)
                    && q.first() == start_id && q.last() == to_id implies 0 <= sum_weights(ws) by {
                    lemma_sum_weights_nonneg(ws);
                }
            }
            return Some((0, p_out));
        }
        let n = self.nodes.len();
        let mut dist: Vec<usize> = filled_vec(n, usize::MAX);
        let mut prevs: Vec<Option<usize>> = filled_vec(n, None);
        let mut done: Vec<bool> = filled_vec(n, false);
        let ghost mut rank: Map<usize, int> = Map::empty();
        let ghost mut kctr: int = 0;
        dist[start_id] = 0;
        let mut finished = false;
        while !finished
            invariant
                state_inv(g, dist@, prevs@, done@, rank, kctr, start_id),
                all_relaxed(g, dist@, done@),
                kctr == 0 ==> (forall|v: int| 0 <= v < n ==> !(#[trigger] done@[v])) && (forall|
                    v: int|
                    0 <= v < n && v != start_id as int ==> (#[trigger] dist@[v]) == usize::MAX),
                kctr > 0 ==> done@[start_id as int],
                finished ==> ((dist@[to_id as int] < usize::MAX && (forall|x: int|
                    0 <= x < n && !(#[trigger] done@[x]) ==> dist@[to_id as int] <= dist@[x]))
                    || (forall|x: int|
                    0 <= x < n && !(#[trigger] done@[x]) ==> dist@[x] == usize::MAX)),
            decreases n - count_true(done@), (if finished {
                0int
            } else {
                1int
            }),
        {
            proof {
                lemma_count_true_le(done@);
            }
            let best = min_unfinished(&dist, &done);
            if best == n {
                // Every remaining node is unreachable: nothing left to settle.
                finished = true;
            } else if best == to_id {
                // The target would be settled next: its distance is final.
                finished = true;
            } else {
                let best_d = dist[best];
                let ghost done_before = done@;
                done[best] = true;
                proof {
                    let rank_before = rank;
                    let kctr_before = kctr;
                    rank = rank.insert(best, kctr_before);
                    kctr = kctr_before + 1;
                    lemma_count_true_update(done_before, best as int);
                    if kctr_before == 0 {
                        assert(best == start_id);
                    }
                    assert forall|v: int| 0 <= v < n && #[trigger] done@[v] implies
                        rank.contains_key(v as usize) && 0 <= rank[v as usize] < kctr by {
                        if v != best as int {
                            assert(done_before[v]);
                        }
                    }
                    assert forall|i: int, j: int|
                        0 <= i < n && 0 <= j < n && done@[i] && !done@[j] implies #[trigger] dist@[i]
                        <= #[trigger] dist@[j] by {
                        if i != best as int {
                            assert(done_before[i] && !done_before[j]);
                        }
                    }
                    assert forall|v: int|
                        0 <= v < n implies ((#[trigger] prevs@[v]) matches Some(u)
                        ==> pred_link_ok(g, dist@, done@, rank, kctr, start_id, v, u)) by {
                        if prevs@[v] is Some {
                            let u = prevs@[v]->0;
                            assert(pred_link_ok(
                                g,
                                dist@,
                                done_before,
                                rank_before,
                                kctr_before,
                                start_id,
                                v,
                                u,
                            ));
                            assert(u != best);
                        }
                    }
                    assert(state_inv(g, dist@, prevs@, done@, rank, kctr, start_id));
                }
                self.relax_from(
                    best,
                    best_d,
                    &mut dist,
                    &mut prevs,
                    &done,
                    Ghost(rank),
                    Ghost(kctr),
                    Ghost(start_id),
                );
                proof {
                    lemma_count_true_le(done@);
                }
            }
        }
        proof {
            // The start is settled: were it not, its distance would read
            // `usize::MAX`, yet it is zero.
            assert(done@[start_id as int]) by {
                if !done@[start_id as int] {
                    if dist@[to_id as int] < usize::MAX && (forall|x: int|
                        0 <= x < n && !(#[trigger] done@[x]) ==> dist@[to_id as int] <= dist@[x]) {
                        assert(kctr > 0);
                    } else {
                        assert(dist@[start_id as int] == usize::MAX);
                    }
                }
            }
            assert forall|x: int| 0 <= x < n && !(#[trigger] done@[x]) implies dist@[to_id as int]
                <= dist@[x] by {
                if !(dist@[to_id as int] < usize::MAX && (forall|y: int|
                    0 <= y < n && !(#[trigger] done@[y]) ==> dist@[to_id as int] <= dist@[y])) {
                    assert(dist@[x] == usize::MAX);
                }
            }
        }
        if dist[to_id] == usize::MAX {
            proof {
                assert forall|q: Seq<usize>, ws: Seq<usize>| #[trigger] weighted_path_ok(g, q, ws)
                    && q.first() == start_id && q.last() == to_id implies sum_weights(ws)
                    >= usize::MAX as int by {
                    lemma_lower_bound(g, dist@, done@, start_id, to_id, q, ws);
                }
            }
            return None;
        }
        // Walk the predecessor links backward from the target, then reverse.
        let d = dist[to_id];
        let p_out = self.build_path(
            start_id,
            to_id,
            d,
            &dist,
            &prevs,
            &done,
            Ghost(rank),
            Ghost(kctr),
        );
        proof {
            assert forall|q: Seq<usize>, ws: Seq<usize>| #[trigger] weighted_path_ok(g, q, ws)
                && q.first() == start_id && q.last() == to_id implies d as int <= sum_weights(
                ws,
            ) by {
                lemma_lower_bound(g, dist@, done@, start_id, to_id, q, ws);
            }
        }
        Some((d, p_out))
    }
}
impl<T> Graph<T> {
    /// Rebuilds the reported walk by following predecessor links backward
    /// from the target, then reversing. The settlement ranks strictly
    /// decrease along the links, so the walk terminates, repeats no node,
    /// and telescopes to exactly the target's tentative distance.
    #[verifier::loop_isolation(false)]
    fn build_path(
        &self,
        start_id: usize,
        to_id: usize,
        d: usize,
        dist: &Vec<usize>,
        prevs: &Vec<Option<usize>>,
        done: &Vec<bool>,
        Ghost(rank): Ghost<Map<usize, int>>,
        Ghost(kctr): Ghost<int>,
    ) -> (p_out: Vec<usize>)
        requires
            self.wf(),
            state_inv(*self, dist@, prevs@, done@, rank, kctr, start_id),
            (to_id as int) < self.node_cnt(),
            dist@[to_id as int] == d,
            d < usize::MAX,
        ensures
            p_out@.len() >= 1,
            p_out@.no_duplicates(),
            p_out@.first() == start_id,
            p_out@.last() == to_id,
            exists|ws: Seq<usize>|
                weighted_path_ok(*self, p_out@, ws) && sum_weights(ws) == d as int,
    {
        let ghost g = *self;
        let ghost n = self.node_cnt();
        let mut rev: Vec<usize> = Vec::new();
        let mut cur: usize = to_id;
        rev.push(to_id);
        let ghost mut ws_acc: Seq<usize> = Seq::empty();
        proof {
            assert(rev@ =~= seq![to_id]);
            assert(rev@.reverse() =~= seq![to_id]);
            assert(weighted_path_ok(g, rev@.reverse(), ws_acc));
            assert(sum_weights(ws_acc) == 0);
        }
        while prevs[cur].is_some()
            invariant
                (cur as int) < n,
                rev@.len() >= 1,
                rev@.last() == cur,
                dist@[cur as int] < usize::MAX,
                weighted_path_ok(g, rev@.reverse(), ws_acc),
                rev@.reverse().first() == cur,
                rev@.reverse().last() == to_id,
                sum_weights(ws_acc) == d - dist@[cur as int],
                forall|i: int, j: int|
                    0 <= i < j < rev@.len() ==> settle_measure(done@, rank, kctr, #[trigger] rev@[j])
                        < settle_measure(done@, rank, kctr, #[trigger] rev@[i]),
            decreases settle_measure(done@, rank, kctr, cur),
        {
            let p = prevs[cur].unwrap();
            let ghost old_rev = rev@;
            let ghost old_cur = cur;
            let ghost old_ws = ws_acc;
            proof {
                assert(pred_link_ok(g, dist@, done@, rank, kctr, start_id, old_cur as int, p));
            }
            cur = p;
            rev.push(p);
            proof {
                let w = choose|w: int|
                    g.has_edge(p as int, old_cur as int, w) && dist@[old_cur as int] as int
                        == dist@[p as int] + w;
                let k = choose|k: int|
                    0 <= k < g.edges_of(p as int).len() && (#[trigger] g.edges_of(p as int)[k]).into
                        == old_cur as int && g.edges_of(p as int)[k].weight == w;
                assert(0 <= w <= usize::MAX);
                let wu = w as usize;
                ws_acc = seq![wu] + old_ws;
                lemma_sum_weights_prepend(wu, old_ws);
                assert(rev@ == old_rev.push(p));
                assert(rev@.reverse() =~= seq![p] + old_rev.reverse());
                let oldq = old_rev.reverse();
                let newq = rev@.reverse();
                assert(newq.first() == p);
                assert(newq.last() == to_id);
                assert(weighted_path_ok(g, newq, ws_acc)) by {
                    assert forall|t: int| 0 <= t < ws_acc.len() implies g.has_edge(
                        newq[t] as int,
                        newq[t + 1] as int,
                        (#[trigger] ws_acc[t]) as int,
                    ) by {
                        if t == 0 {
                            assert(newq[0] == p && newq[1] == old_cur && ws_acc[0] == wu);
                            assert(g.has_edge(p as int, old_cur as int, wu as int));
                        } else {
                            assert(newq[t] == oldq[t - 1] && newq[t + 1] == oldq[t] && ws_acc[t]
                                == old_ws[t - 1]);
                            assert(g.has_edge(
                                oldq[t - 1] as int,
                                oldq[t] as int,
                                old_ws[t - 1] as int,
                            ));
                        }
                    }
                }
            }
        }
        proof {
            // A node with no predecessor but a finite distance is the start.
            assert(cur == start_id);
            assert(rev@.reverse().first() == start_id);
            assert(sum_weights(ws_acc) == d);
            // The settling measure strictly decreases along the chain, so no
            // node repeats: the reported path is simple.
            assert(rev@.no_duplicates()) by {
                assert forall|i: int, j: int| 0 <= i < j < rev@.len() implies rev@[i] != rev@[j] by {
                    assert(settle_measure(done@, rank, kctr, rev@[j]) < settle_measure(
                        done@,
                        rank,
                        kctr,
                        rev@[i],
                    ));
                }
            }
        }
        let m = rev.len();
        let mut p_out: Vec<usize> = Vec::new();
        let mut i2: usize = 0;
        while i2 < m
            invariant
                i2 <= m,
                p_out@.len() == i2,
                forall|t: int| 0 <= t < i2 ==> #[trigger] p_out@[t] == rev@[m - 1 - t],
            decreases m - i2,
        {
            p_out.push(rev[m - 1 - i2]);
            i2 += 1;
        }
        proof {
            assert(p_out@ =~= rev@.reverse());
            assert(p_out@.no_duplicates()) by {
                assert forall|i: int, j: int| 0 <= i < j < p_out@.len() implies p_out@[i]
                    != p_out@[j] by {
                    assert(p_out@[i] == rev@[rev@.len() - 1 - i]);
                    assert(p_out@[j] == rev@[rev@.len() - 1 - j]);
                }
            }
            assert(weighted_path_ok(g, p_out@, ws_acc) && sum_weights(ws_acc) == d as int);
        }
        p_out
    }
}

} // verus!
