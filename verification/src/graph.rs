//! The graph storage model: nodes in a vector (a node's id is its index),
//! each owning a strictly sorted list of outgoing (target, weight) edges.

use vstd::prelude::*;

verus! {

/// A directed, weighted edge, owned by its source node.
#[derive(Clone, Copy)]
pub struct GraphEdge {
    /// The id of the node this edge points to.
    pub into: usize,
    /// The weight of this edge.
    pub weight: usize,
}

/// A node: its dense id, one caller-chosen value, and the outgoing edges,
/// kept strictly sorted by (target, weight) so that duplicates cannot occur
/// and every enumeration is deterministic.
pub struct GraphNode<T> {
    pub id: usize,
    pub value: T,
    pub edges: Vec<GraphEdge>,
}

/// The error returned when an edge endpoint does not name an existing node.
#[derive(Clone, Copy, Debug, PartialEq, Eq, Structural)]
pub enum GraphError {
    UnknownNode(usize),
}

/// A directed, weighted graph. Node ids form the contiguous range
/// `[0, node_cnt())` in insertion order; nodes and edges are append-only.
pub struct Graph<T> {
    pub nodes: Vec<GraphNode<T>>,
}

/// Strict order on edges: by target id, then by weight.
pub open spec fn edge_lt(a: GraphEdge, b: GraphEdge) -> bool {
    a.into < b.into || (a.into == b.into && a.weight < b.weight)
}

/// Whether the edge list holds the pair (`to`, `w`).
pub open spec fn edge_in(es: Seq<GraphEdge>, to: int, w: int) -> bool {
    exists|k: int| 0 <= k < es.len() && (#[trigger] es[k]).into == to && es[k].weight == w
}

/// Every target exists, and the list is strictly sorted by (target, weight),
/// which also rules out duplicate pairs.
pub open spec fn edge_list_wf(es: Seq<GraphEdge>, n: int) -> bool {
    &&& forall|k: int| 0 <= k < es.len() ==> ((#[trigger] es[k]).into as int) < n
    &&& forall|k: int, l: int| 0 <= k < l < es.len() ==> edge_lt(#[trigger] es[k], #[trigger] es[l])
}

impl<T> GraphNode<T> {
    fn new(id: usize, value: T) -> (node: GraphNode<T>)
        ensures
            node.id == id,
            node.value == value,
            node.edges@.len() == 0,
    {
        GraphNode { id, value, edges: Vec::new() }
    }
}

impl<T> Graph<T> {
    /// Number of nodes.
    pub open spec fn node_cnt(&self) -> int {
        self.nodes@.len() as int
    }

    /// The outgoing edge list of node `i`.
    pub open spec fn edges_of(&self, i: int) -> Seq<GraphEdge> {
        self.nodes@[i].edges@
    }

    /// The value stored at node `i`.
    pub open spec fn value_of(&self, i: int) -> T {
        self.nodes@[i].value
    }

    /// The edge (`from` -> `to`, `w`) is present.
    pub open spec fn has_edge(&self, from: int, to: int, w: int) -> bool {
        0 <= from < self.node_cnt() && edge_in(self.edges_of(from), to, w)
    }

    /// Some edge leads from `from` to `to`, of whatever weight.
    pub open spec fn connected(&self, from: int, to: int) -> bool {
        exists|w: int| self.has_edge(from, to, w)
    }

    /// Structural invariant: ids match positions and every edge list is
    /// well formed. Established by `new` and preserved by every mutation.
    pub open spec fn wf(&self) -> bool {
        &&& forall|i: int|
            0 <= i < self.node_cnt() ==> (#[trigger] self.nodes@[i].id) as int == i
        &&& forall|i: int|
            0 <= i < self.node_cnt() ==> edge_list_wf(
                #[trigger] self.edges_of(i),
                self.node_cnt(),
            )
    }

    /// Creates an empty graph.
    pub fn new() -> (g: Graph<T>)
        ensures
            g.wf(),
            g.node_cnt() == 0,
    {
        Graph { nodes: Vec::new() }
    }

    /// Appends a node holding `value` and returns its id, which equals the
    /// node count before the call. Never fails; earlier nodes are untouched.
    pub fn add_node(&mut self, value: T) -> (id: usize)
        requires
            old(self).wf(),
        ensures
            final(self).wf(),
            id as int == old(self).node_cnt(),
            final(self).node_cnt() == old(self).node_cnt() + 1,
            forall|i: int|
                0 <= i < old(self).node_cnt() ==> final(self).nodes@[i] == old(self).nodes@[i],
            final(self).edges_of(id as int).len() == 0,
            final(self).value_of(id as int) == value,
    {
        let id = self.nodes.len();
        let node = GraphNode::new(id, value);
        self.nodes.push(node);
        proof {
            assert forall|i: int| 0 <= i < self.node_cnt() implies edge_list_wf(
                #[trigger] self.edges_of(i),
                self.node_cnt(),
            ) by {
                if i < id as int {
                    assert(self.edges_of(i) == old(self).edges_of(i));
                    assert(edge_list_wf(old(self).edges_of(i), old(self).node_cnt()));
                }
            }
        }
        id
    }

    /// The node with the given id, if it exists.
    pub fn get_node(&self, id: usize) -> (r: Option<&GraphNode<T>>)
        ensures
            (id as int) < self.node_cnt() ==> r == Some(&self.nodes@[id as int]),
            (id as int) >= self.node_cnt() ==> r.is_none(),
    {
        if id < self.nodes.len() {
            Some(&self.nodes[id])
        } else {
            None
        }
    }

    /// Number of nodes in the graph.
    pub fn node_count(&self) -> (n: usize)
        ensures
            n as int == self.node_cnt(),
    {
        self.nodes.len()
    }

    /// Number of outgoing edges of node `id`.
    pub fn out_degree(&self, id: usize) -> (d: usize)
        requires
            (id as int) < self.node_cnt(),
        ensures
            d as int == self.edges_of(id as int).len(),
    {
        self.nodes[id].edges.len()
    }

    /// Inserts the directed edge (`from_id` -> `to_id`) of weight `weight`.
    ///
    /// Fails, naming the offending endpoint and leaving the graph untouched,
    /// when either endpoint id is out of range (`from_id` is reported first).
    /// On success the pair joins `from_id`'s outgoing set; re-adding a pair
    /// that is already present leaves the graph exactly as it was.
    pub fn add_edge(&mut self, from_id: usize, to_id: usize, weight: usize) -> (r: Result<
        (),
        GraphError,
    >)
        requires
            old(self).wf(),
        ensures
            final(self).wf(),
            (from_id as int) >= old(self).node_cnt() ==> (r == Err::<(), GraphError>(
                GraphError::UnknownNode(from_id),
            ) && *final(self) == *old(self)),
            ((from_id as int) < old(self).node_cnt() && (to_id as int) >= old(self).node_cnt())
                ==> (r == Err::<(), GraphError>(GraphError::UnknownNode(to_id)) && *final(self)
                == *old(self)),
            ((from_id as int) < old(self).node_cnt() && (to_id as int) < old(self).node_cnt())
                ==> ({
                &&& r == Ok::<(), GraphError>(())
                &&& final(self).node_cnt() == old(self).node_cnt()
                &&& forall|i: int|
                    0 <= i < old(self).node_cnt() && i != from_id as int
                        ==> final(self).nodes@[i] == old(self).nodes@[i]
                &&& final(self).nodes@[from_id as int].id == old(self).nodes@[from_id as int].id
                &&& final(self).value_of(from_id as int) == old(self).value_of(from_id as int)
                &&& forall|v: int, w: int|
                    final(self).has_edge(from_id as int, v, w) <==> (old(self).has_edge(
                        from_id as int,
                        v,
                        w,
                    ) || (v == to_id as int && w == weight as int))
                &&& edge_in(old(self).edges_of(from_id as int), to_id as int, weight as int)
                    ==> *final(self) == *old(self)
                &&& !edge_in(old(self).edges_of(from_id as int), to_id as int, weight as int)
                    ==> final(self).edges_of(from_id as int).len() == old(self).edges_of(
                    from_id as int,
                ).len() + 1
            }),
    {
        let n = self.nodes.len();
        if from_id >= n {
            return Err(GraphError::UnknownNode(from_id));
        }
        if to_id >= n {
            return Err(GraphError::UnknownNode(to_id));
        }
        let ghost old_es = self.edges_of(from_id as int);
        let es_len = self.nodes[from_id].edges.len();
        let mut pos: usize = 0;
        while pos < es_len && (self.nodes[from_id].edges[pos].into < to_id || (
        self.nodes[from_id].edges[pos].into == to_id && self.nodes[from_id].edges[pos].weight
            < weight))
            invariant
                *self == *old(self),
                (from_id as int) < self.node_cnt(),
                es_len as int == old_es.len(),
                old_es == self.edges_of(from_id as int),
                pos <= es_len,
                forall|k: int|
                    0 <= k < pos ==> edge_lt(
                        #[trigger] old_es[k],
                        (GraphEdge { into: to_id, weight }),
                    ),
            decreases es_len - pos,
        {
            pos += 1;
        }
        if pos < es_len && self.nodes[from_id].edges[pos].into == to_id
            && self.nodes[from_id].edges[pos].weight == weight {
            // The pair is already present: duplicate suppression, no change.
            proof {
                assert(edge_in(old_es, to_id as int, weight as int));
                assert forall|v: int, w: int|
                    self.has_edge(from_id as int, v, w) <==> (old(self).has_edge(
                        from_id as int,
                        v,
                        w,
                    ) || (v == to_id as int && w == weight as int)) by {
                    if v == to_id as int && w == weight as int {
                        assert(self.has_edge(from_id as int, v, w));
                    }
                }
            }
            return Ok(());
        }
        // Insert the new pair at `pos`, keeping the list strictly sorted.
        let edge = GraphEdge { into: to_id, weight };
        proof {
            assert(edge_list_wf(old_es, old(self).node_cnt()));
            if pos < es_len {
                // The scan stopped strictly before the new pair's slot mate.
                assert(edge_lt(edge, old_es[pos as int]));
            }
            // The pair was absent: anything before `pos` is smaller, anything
            // at or after `pos` is larger.
            assert forall|k: int| pos <= k < old_es.len() implies edge_lt(
                edge,
                #[trigger] old_es[k],
            ) by {
                if k > pos {
                    assert(edge_lt(old_es[pos as int], old_es[k]));
                }
            }
            assert(!edge_in(old_es, to_id as int, weight as int)) by {
                if edge_in(old_es, to_id as int, weight as int) {
                    let k = choose|k: int|
                        0 <= k < old_es.len() && (#[trigger] old_es[k]).into == to_id as int
                            && old_es[k].weight == weight as int;
                    if k < pos as int {
                        assert(edge_lt(old_es[k], edge));
                    } else {
                        assert(edge_lt(edge, old_es[k]));
                    }
                }
            }
        }
        self.nodes[from_id].edges.insert(pos, edge);
        proof {
            let new_es = self.edges_of(from_id as int);
            assert(new_es == old_es.insert(pos as int, edge));
            assert forall|k: int, l: int| 0 <= k < l < new_es.len() implies edge_lt(
                #[trigger] new_es[k],
                #[trigger] new_es[l],
            ) by {
                let ko = if k < pos as int {
                    k
                } else {
                    k - 1
                };
                let lo = if l < pos as int {
                    l
                } else {
                    l - 1
                };
                if k != pos as int && l != pos as int {
                    assert(new_es[k] == old_es[ko] && new_es[l] == old_es[lo]);
                    assert(edge_lt(old_es[ko], old_es[lo]));
                }
            }
            assert forall|k: int| 0 <= k < new_es.len() implies ((#[trigger] new_es[k]).into
                as int) < self.node_cnt() by {
                if k != pos as int {
                    let ko = if k < pos as int {
                        k
                    } else {
                        k - 1
                    };
                    assert(new_es[k] == old_es[ko]);
                }
            }
            assert(edge_list_wf(new_es, self.node_cnt()));
            assert forall|i: int| 0 <= i < self.node_cnt() implies edge_list_wf(
                #[trigger] self.edges_of(i),
                self.node_cnt(),
            ) by {
                if i != from_id as int {
                    assert(self.nodes@[i] == old(self).nodes@[i]);
                    assert(edge_list_wf(old(self).edges_of(i), old(self).node_cnt()));
                }
            }
            assert forall|i: int| 0 <= i < self.node_cnt() implies (#[trigger] self.nodes@[i].id)
                as int == i by {
                if i != from_id as int {
                    assert(self.nodes@[i] == old(self).nodes@[i]);
                }
            }
            assert forall|v: int, w: int|
                self.has_edge(from_id as int, v, w) <==> (old(self).has_edge(from_id as int, v, w)
                    || (v == to_id as int && w == weight as int)) by {
                if old(self).has_edge(from_id as int, v, w) {
                    let k = choose|k: int|
                        0 <= k < old_es.len() && (#[trigger] old_es[k]).into == v && old_es[k].weight
                            == w;
                    let kn = if k < pos as int {
                        k
                    } else {
                        k + 1
                    };
                    assert(new_es[kn] == old_es[k]);
                    assert(self.has_edge(from_id as int, v, w));
                }
                if v == to_id as int && w == weight as int {
                    assert(new_es[pos as int] == edge);
                    assert(self.has_edge(from_id as int, v, w));
                }
                if self.has_edge(from_id as int, v, w) && !(v == to_id as int && w
                    == weight as int) {
                    let k = choose|k: int|
                        0 <= k < new_es.len() && (#[trigger] new_es[k]).into == v && new_es[k].weight
                            == w;
                    let ko = if k < pos as int {
                        k
                    } else {
                        k - 1
                    };
                    assert(k != pos as int);
                    assert(new_es[k] == old_es[ko]);
                    assert(old(self).has_edge(from_id as int, v, w));
                }
            }
        }
        Ok(())
    }
}

impl<T> Default for Graph<T> {
    /// The default graph is the empty one.
    fn default() -> (g: Graph<T>)
        ensures
            g.wf(),
            g.node_cnt() == 0,
    {
        Graph::new()
    }
}

} // verus!
