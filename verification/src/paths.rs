//! Paths through the graph and reachability, the vocabulary in which the
//! traversal and shortest-path contracts are stated.

use crate::graph::Graph;
use vstd::prelude::*;

verus! {

/// `p` is a walk through `g`: nonempty, every id valid, and every pair of
/// consecutive nodes joined by some edge.
pub open spec fn path_ok<T>(g: Graph<T>, p: Seq<usize>) -> bool {
    &&& p.len() >= 1
    &&& forall|i: int| 0 <= i < p.len() ==> ((#[trigger] p[i]) as int) < g.node_cnt()
    &&& forall|i: int|
        0 <= i < p.len() - 1 ==> g.connected(#[trigger] p[i] as int, p[i + 1] as int)
}

/// `p` is a walk through `g` and `ws` picks, for each step, the weight of an
/// edge joining the pair.
pub open spec fn weighted_path_ok<T>(g: Graph<T>, p: Seq<usize>, ws: Seq<usize>) -> bool {
    &&& p.len() >= 1
    &&& ws.len() == p.len() - 1
    &&& forall|i: int| 0 <= i < p.len() ==> ((#[trigger] p[i]) as int) < g.node_cnt()
    &&& forall|i: int|
        0 <= i < ws.len() ==> g.has_edge(p[i] as int, p[i + 1] as int, (#[trigger] ws[i]) as int)
}

/// Total weight of a step sequence.
pub open spec fn sum_weights(ws: Seq<usize>) -> int
    decreases ws.len(),
{
    if ws.len() == 0 {
        0
    } else {
        sum_weights(ws.drop_last()) + ws.last()
    }
}

/// Some walk leads from `a` to `b`.
pub open spec fn reachable<T>(g: Graph<T>, a: usize, b: usize) -> bool {
    exists|p: Seq<usize>| path_ok(g, p) && p.first() == a && p.last() == b
}

pub proof fn lemma_sum_weights_nonneg(ws: Seq<usize>)
    ensures
        sum_weights(ws) >= 0,
    decreases ws.len(),
{
    if ws.len() > 0 {
        lemma_sum_weights_nonneg(ws.drop_last());
    }
}

pub proof fn lemma_sum_weights_prepend(w: usize, ws: Seq<usize>)
    ensures
        sum_weights(seq![w] + ws) == w + sum_weights(ws),
    decreases ws.len(),
{
    if ws.len() == 0 {
        assert((seq![w] + ws) =~= seq![w]);
        assert(seq![w].drop_last() =~= Seq::<usize>::empty());
        assert(sum_weights(Seq::<usize>::empty()) == 0);
        assert(seq![w].last() == w);
    } else {
        assert((seq![w] + ws).drop_last() =~= seq![w] + ws.drop_last());
        assert((seq![w] + ws).last() == ws.last());
        lemma_sum_weights_prepend(w, ws.drop_last());
    }
}

/// Every node lies on a trivial walk to itself.
pub proof fn lemma_reachable_refl<T>(g: Graph<T>, a: usize)
    requires
        (a as int) < g.node_cnt(),
    ensures
        reachable(g, a, a),
{
    let p = seq![a];
    assert(path_ok(g, p) && p.first() == a && p.last() == a);
}

/// Following one more edge keeps a node reachable.
pub proof fn lemma_reachable_step<T>(g: Graph<T>, a: usize, b: usize, c: usize)
    requires
        reachable(g, a, b),
        g.connected(b as int, c as int),
        (c as int) < g.node_cnt(),
    ensures
        reachable(g, a, c),
{
    let p = choose|p: Seq<usize>| path_ok(g, p) && p.first() == a && p.last() == b;
    let q = p.push(c);
    assert forall|i: int| 0 <= i < q.len() - 1 implies g.connected(
        #[trigger] q[i] as int,
        q[i + 1] as int,
    ) by {
        if i < p.len() - 1 {
            assert(g.connected(p[i] as int, p[i + 1] as int));
        }
    }
    assert(path_ok(g, q) && q.first() == a && q.last() == c);
}

} // verus!
