//! Tree-style rendering of the graph on standard output.
//!
//! Every node is printed exactly once: nodes not reached from an earlier
//! tree start a new one at the left margin, and an edge whose target was
//! already printed is annotated as a back edge instead of being descended
//! into, so the walk terminates even on cyclic graphs. The edge order is the
//! stored (target, weight) order, so the output is deterministic.

use crate::graph::Graph;
use crate::paths::path_ok;
use crate::seqs::count_true;
use crate::seqs::filled_vec;
use crate::seqs::lemma_count_true_le;
use crate::seqs::lemma_count_true_pointwise;
use crate::seqs::lemma_count_true_update;
use std::io::Write;
use vstd::prelude::*;

verus! {

/// Relies on `writeln!` to `std::io::stdout` for the top line of a node box.
#[verifier::external_body]
fn emit_box_top(indent: usize) {
    let _ = writeln!(std::io::stdout(), "{:1$}┌─────────┐", "", indent);
}

/// Relies on `writeln!` to `std::io::stdout` for a node box's id line.
#[verifier::external_body]
fn emit_box_id(indent: usize, id: usize) {
    let _ = writeln!(std::io::stdout(), "{:1$}│ Node {2:2} │", "", indent, id);
}

/// Relies on `writeln!` to `std::io::stdout` for a node box's value line.
#[verifier::external_body]
fn emit_box_value(indent: usize, text: &str) {
    let _ = writeln!(std::io::stdout(), "{:1$}│ {2:<7} │", "", indent, text);
}

/// Relies on `writeln!` to `std::io::stdout` for the bottom line of a box.
#[verifier::external_body]
fn emit_box_bottom(indent: usize) {
    let _ = writeln!(std::io::stdout(), "{:1$}└─────────┘", "", indent);
}

/// Relies on `writeln!` to `std::io::stdout` for an edge line.
#[verifier::external_body]
fn emit_edge(indent: usize, weight: usize, target: usize) {
    let _ = writeln!(std::io::stdout(), "{:1$}├─[{2}]─> Node {3}", "", indent, weight, target);
}

/// Relies on `writeln!` to `std::io::stdout` for an edge line whose target
/// was already printed: the cycle indicator.
#[verifier::external_body]
fn emit_back_edge(indent: usize, weight: usize, target: usize) {
    let _ = writeln!(
        std::io::stdout(),
        "{:1$}├─[{2}]─> Back to Node {3}",
        "",
        indent,
        weight,
        target,
    );
}

/// Relies on `writeln!` to `std::io::stdout` for the mark under a node
/// without outgoing edges.
#[verifier::external_body]
fn emit_leaf(indent: usize) {
    let _ = writeln!(std::io::stdout(), "{:1$}└─", "", indent);
}

/// Relies on the stored value's `Debug` impl, through `format!`, for the
/// text inside a node's box.
#[verifier::external_body]
fn value_text<T: core::fmt::Debug>(v: &T) -> (s: String) {
    format!("{:?}", v)
}

/// `p` is a walk all of whose nodes are unmarked in `marks`.
pub open spec fn unmarked_path_ok<T>(g: Graph<T>, marks: Seq<bool>, p: Seq<usize>) -> bool {
    &&& path_ok(g, p)
    &&& forall|i: int| 0 <= i < p.len() ==> !marks[(#[trigger] p[i]) as int]
}

/// A walk of unmarked nodes leads from `a` to `v`: this is reachability
/// restricted to the nodes not yet shown, the set that one rendering pass
/// starting at `a` prints.
pub open spec fn reach_unshown<T>(g: Graph<T>, marks: Seq<bool>, a: int, v: int) -> bool {
    exists|p: Seq<usize>|
        unmarked_path_ok(g, marks, p) && p.first() as int == a && p.last() as int == v
}

/// An unmarked node lies on a trivial unmarked walk to itself.
proof fn lemma_unshown_refl<T>(g: Graph<T>, marks: Seq<bool>, a: usize)
    requires
        (a as int) < g.node_cnt(),
        !marks[a as int],
    ensures
        reach_unshown(g, marks, a as int, a as int),
{
    let p = seq![a];
    assert(unmarked_path_ok(g, marks, p) && p.first() as int == a as int && p.last() as int
        == a as int);
}

/// One edge between unmarked nodes is an unmarked walk.
proof fn lemma_unshown_edge<T>(g: Graph<T>, marks: Seq<bool>, a: usize, t: usize)
    requires
        (a as int) < g.node_cnt(),
        (t as int) < g.node_cnt(),
        !marks[a as int],
        !marks[t as int],
        g.connected(a as int, t as int),
    ensures
        reach_unshown(g, marks, a as int, t as int),
{
    let p = seq![a, t];
    assert(unmarked_path_ok(g, marks, p) && p.first() as int == a as int && p.last() as int
        == t as int) by {
        assert(p[0] == a && p[1] == t);
    }
}

/// Unmarked walks compose, the second one taken under a larger marking.
proof fn lemma_unshown_concat<T>(
    g: Graph<T>,
    m0: Seq<bool>,
    m1: Seq<bool>,
    a: int,
    b: int,
    v: int,
)
    requires
        m0.len() == g.node_cnt(),
        m1.len() == g.node_cnt(),
        forall|i: int| 0 <= i < m0.len() ==> ((#[trigger] m0[i]) ==> m1[i]),
        reach_unshown(g, m0, a, b),
        reach_unshown(g, m1, b, v),
    ensures
        reach_unshown(g, m0, a, v),
{
    let p = choose|p: Seq<usize>|
        unmarked_path_ok(g, m0, p) && p.first() as int == a && p.last() as int == b;
    let q = choose|q: Seq<usize>|
        unmarked_path_ok(g, m1, q) && q.first() as int == b && q.last() as int == v;
    let r = p + q.drop_first();
    assert(r.first() == p.first());
    assert(r.last() as int == v) by {
        if q.len() == 1 {
            assert(r =~= p);
        } else {
            assert(r.last() == q.drop_first().last());
        }
    }
    assert(unmarked_path_ok(g, m0, r)) by {
        assert forall|i: int| 0 <= i < r.len() implies !m0[(#[trigger] r[i]) as int] by {
            if i < p.len() {
                assert(r[i] == p[i]);
            } else {
                assert(r[i] == q[i - p.len() + 1]);
                assert(!m1[r[i] as int]);
            }
        }
        assert forall|i: int| 0 <= i < r.len() implies ((#[trigger] r[i]) as int) < g.node_cnt() by {
            if i < p.len() {
                assert(r[i] == p[i]);
            } else {
                assert(r[i] == q[i - p.len() + 1]);
            }
        }
        assert forall|i: int| 0 <= i < r.len() - 1 implies g.connected(
            #[trigger] r[i] as int,
            r[i + 1] as int,
        ) by {
            if i < p.len() - 1 {
                assert(r[i] == p[i] && r[i + 1] == p[i + 1]);
                assert(g.connected(p[i] as int, p[i + 1] as int));
            } else if i == p.len() - 1 {
                assert(r[i] == p.last() && p.last() as int == b && q.first() as int == b);
                assert(r[i + 1] == q[1]);
                assert(g.connected(q[0] as int, q[1] as int));
            } else {
                assert(r[i] == q[i - p.len() + 1] && r[i + 1] == q[i - p.len() + 2]);
                assert(g.connected(q[i - p.len() + 1] as int, q[i - p.len() + 2] as int));
            }
        }
    }
}

/// A marking that contains the walk's start and is closed under the edges of
/// its newly marked nodes contains the walk's end.
proof fn lemma_unshown_closed_covers<T>(g: Graph<T>, m0: Seq<bool>, mf: Seq<bool>, p: Seq<usize>)
    requires
        g.wf(),
        m0.len() == g.node_cnt(),
        mf.len() == g.node_cnt(),
        forall|i: int| 0 <= i < m0.len() ==> ((#[trigger] m0[i]) ==> mf[i]),
        unmarked_path_ok(g, m0, p),
        mf[p.first() as int],
        forall|u: int, e: int|
            0 <= u < g.node_cnt() && mf[u] && !m0[u] && 0 <= e < g.edges_of(u).len() ==> mf[(
            #[trigger] g.edges_of(u)[e]).into as int],
    ensures
        mf[p.last() as int],
    decreases p.len(),
{
    if p.len() > 1 {
        let p0 = p.drop_last();
        assert(unmarked_path_ok(g, m0, p0)) by {
            assert forall|i: int| 0 <= i < p0.len() - 1 implies g.connected(
                #[trigger] p0[i] as int,
                p0[i + 1] as int,
            ) by {
                assert(g.connected(p[i] as int, p[i + 1] as int));
            }
        }
        lemma_unshown_closed_covers(g, m0, mf, p0);
        let u = p0.last();
        let v = p.last();
        assert(g.connected(u as int, v as int)) by {
            assert(g.connected(p[p.len() - 2] as int, p[p.len() - 1] as int));
        }
        let w = choose|w: int| g.has_edge(u as int, v as int, w);
        let e = choose|e: int|
            0 <= e < g.edges_of(u as int).len() && (#[trigger] g.edges_of(u as int)[e]).into
                == v as int && g.edges_of(u as int)[e].weight == w;
        assert(mf[g.edges_of(u as int)[e].into as int]);
    }
}

impl<T: core::fmt::Debug> Graph<T> {
    /// Writes a human-readable tree of the whole graph to standard output.
    #[verifier::loop_isolation(false)]
    pub fn show(&self)
        requires
            self.wf(),
    {
        let n = self.nodes.len();
        let mut shown: Vec<bool> = filled_vec(n, false);
        let mut id: usize = 0;
        while id < n
            invariant
                id <= n,
                shown@.len() == n,
            decreases n - id,
        {
            if !shown[id] {
                proof {
                    lemma_count_true_le(shown@);
                }
                self.show_node(id, &mut shown, 0);
            }
            id += 1;
        }
    }

    /// Prints node `id`'s box and its outgoing edges, descending into
    /// targets not yet shown and marking the rest as back edges.
    ///
    /// On return the marking is exactly the old one plus every node that an
    /// all-unshown walk reaches from `id`; the newly shown nodes have all
    /// their edges handled (each target shown by the time the pass is over).
    #[verifier::loop_isolation(false)]
    fn show_node(&self, id: usize, shown: &mut Vec<bool>, depth: usize)
        requires
            self.wf(),
            (id as int) < self.node_cnt(),
            old(shown)@.len() == self.node_cnt(),
            !old(shown)@[id as int],
            depth as int <= count_true(old(shown)@),
        ensures
            final(shown)@.len() == old(shown)@.len(),
            forall|i: int|
                0 <= i < old(shown)@.len() ==> (old(shown)@[i] ==> #[trigger] final(shown)@[i]),
            final(shown)@[id as int],
            count_true(final(shown)@) > count_true(old(shown)@),
            forall|v: int|
                0 <= v < old(shown)@.len() ==> ((#[trigger] final(shown)@[v]) <==> (old(shown)@[v]
                    || reach_unshown(*self, old(shown)@, id as int, v))),
            forall|u: int, e: int|
                0 <= u < self.node_cnt() && final(shown)@[u] && !old(shown)@[u] && 0 <= e
                    < self.edges_of(u).len() ==> final(shown)@[(#[trigger] self.edges_of(
                u,
            )[e]).into as int],
        decreases self.node_cnt() - count_true(shown@),
    {
        let ghost g = *self;
        let ghost n = self.node_cnt();
        let ghost shown0 = shown@;
        shown[id] = true;
        let ghost shown1 = shown@;
        proof {
            lemma_count_true_update(shown0, id as int);
            lemma_unshown_refl(g, shown0, id);
        }
        let indent = if depth <= usize::MAX / 4 {
            4 * depth
        } else {
            usize::MAX
        };
        emit_box_top(indent);
        emit_box_id(indent, id);
        let text = value_text(&self.nodes[id].value);
        emit_box_value(indent, text.as_str());
        emit_box_bottom(indent);
        let es_len = self.nodes[id].edges.len();
        if es_len == 0 {
            emit_leaf(indent);
            proof {
                // A node without edges reaches only itself through unshown
                // nodes: a longer walk would need a first edge.
                assert forall|v: int|
                    0 <= v < n && reach_unshown(g, shown0, id as int, v) implies shown@[v] by {
                    let pw = choose|pw: Seq<usize>|
                        unmarked_path_ok(g, shown0, pw) && pw.first() as int == id as int
                            && pw.last() as int == v;
                    if pw.len() > 1 {
                        assert(g.connected(pw[0] as int, pw[1] as int));
                        let w = choose|w: int| g.has_edge(id as int, pw[1] as int, w);
                        assert(false);
                    }
                }
            }
        } else {
            let mut k: usize = 0;
            while k < es_len
                invariant
                    k <= es_len,
                    shown@.len() == n,
                    forall|i: int| 0 <= i < n ==> (shown0[i] ==> #[trigger] shown@[i]),
                    shown@[id as int],
                    count_true(shown@) > count_true(shown0),
                    forall|v: int|
                        0 <= v < n && #[trigger] shown@[v] ==> (shown0[v] || reach_unshown(
                            g,
                            shown0,
                            id as int,
                            v,
                        )),
                    forall|u: int, e: int|
                        0 <= u < n && shown@[u] && !shown1[u] && 0 <= e < g.edges_of(u).len()
                            ==> shown@[(#[trigger] g.edges_of(u)[e]).into as int],
                    forall|e: int|
                        0 <= e < k ==> shown@[(#[trigger] g.edges_of(id as int)[e]).into as int],
                decreases es_len - k,
            {
                let t = self.nodes[id].edges[k].into;
                let w = self.nodes[id].edges[k].weight;
                proof {
                    assert(self.edges_of(id as int)[k as int].into == t);
                    assert((t as int) < n);
                    assert(g.has_edge(id as int, t as int, w as int)) by {
                        assert(g.edges_of(id as int)[k as int].weight == w);
                    }
                }
                if shown[t] {
                    emit_back_edge(indent, w, t);
                } else {
                    emit_edge(indent, w, t);
                    let ghost shown_k = shown@;
                    let nn = self.nodes.len();
                    proof {
                        lemma_count_true_le(shown@);
                        assert(shown@.len() == nn as int);
                        assert(depth < nn);
                    }
                    self.show_node(t, shown, depth + 1);
                    proof {
                        lemma_count_true_pointwise(shown_k, shown@);
                        // `t` was unshown, so one edge from `id` reaches it,
                        // and whatever the nested pass marked is reachable
                        // from `t` through nodes unshown at its start.
                        lemma_unshown_edge(g, shown0, id, t);
                        assert forall|v: int|
                            0 <= v < n && #[trigger] shown@[v] implies (shown0[v] || reach_unshown(
                            g,
                            shown0,
                            id as int,
                            v,
                        )) by {
                            if !shown_k[v] {
                                assert(reach_unshown(g, shown_k, t as int, v));
                                lemma_unshown_concat(g, shown0, shown_k, id as int, t as int, v);
                            }
                        }
                        assert forall|u: int, e: int|
                            0 <= u < n && shown@[u] && !shown1[u] && 0 <= e < g.edges_of(
                                u,
                            ).len() implies shown@[(#[trigger] g.edges_of(u)[e]).into as int] by {
                            if shown_k[u] {
                                assert(shown_k[g.edges_of(u)[e].into as int]);
                            }
                        }
                    }
                }
                k += 1;
            }
            proof {
                // Every edge of a newly shown node has been handled, so the
                // marking is closed; an unshown walk from `id` then stays
                // inside it, which yields the reverse inclusion.
                assert forall|u: int, e: int|
                    0 <= u < n && shown@[u] && !shown0[u] && 0 <= e < g.edges_of(
                        u,
                    ).len() implies shown@[(#[trigger] g.edges_of(u)[e]).into as int] by {
                    if u == id as int {
                        assert(shown@[g.edges_of(id as int)[e].into as int]);
                    }
                }
                assert forall|v: int|
                    0 <= v < n && reach_unshown(g, shown0, id as int, v) implies shown@[v] by {
                    let pw = choose|pw: Seq<usize>|
                        unmarked_path_ok(g, shown0, pw) && pw.first() as int == id as int
                            && pw.last() as int == v;
                    lemma_unshown_closed_covers(g, shown0, shown@, pw);
                }
            }
        }
    }
}

} // verus!
