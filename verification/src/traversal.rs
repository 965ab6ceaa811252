//! Depth-first and breadth-first traversal.
//!
//! Both traversals are specified by recursive spec functions that mirror the
//! executable algorithms exactly, so each exec function can promise that its
//! result *equals* the spec-level sequence: repeated calls on an unmodified
//! graph are thereby proved to return identical sequences. The completeness
//! lemmas at the end close the circle: every id reachable from the start
//! appears in that sequence, so each traversal emits exactly the reachable
//! ids, each of them once.

use crate::graph::Graph;
use crate::graph::GraphEdge;
use crate::paths::path_ok;
use crate::paths::reachable;
use crate::paths::lemma_reachable_refl;
use crate::paths::lemma_reachable_step;
use crate::seqs::filled_vec;
use crate::seqs::lemma_contains_split;
use crate::seqs::lemma_nodup_bounded_len;
use vstd::prelude::*;

verus! {

/// Shared well-formedness of a traversal state: the graph invariant, every
/// pending or emitted id in range, and no id emitted twice.
pub open spec fn trav_inv<T>(g: Graph<T>, pending: Seq<usize>, path: Seq<usize>) -> bool {
    &&& g.wf()
    &&& forall|k: int| 0 <= k < pending.len() ==> ((#[trigger] pending[k]) as int) < g.node_cnt()
    &&& forall|k: int| 0 <= k < path.len() ==> ((#[trigger] path[k]) as int) < g.node_cnt()
    &&& path.no_duplicates()
}

/// Pushes the targets of `es` onto `stack`, last edge first, skipping targets
/// already in `path` — exactly what the depth-first loop does, so that the
/// smallest pending target ends on top.
pub open spec fn rev_push(stack: Seq<usize>, es: Seq<GraphEdge>, path: Seq<usize>) -> Seq<usize>
    decreases es.len(),
{
    if es.len() == 0 {
        stack
    } else {
        let t = es.last().into;
        let stack2 = if path.contains(t) {
            stack
        } else {
            stack.push(t)
        };
        rev_push(stack2, es.drop_last(), path)
    }
}

/// One depth-first step: pop the top of the stack; emit it and push its
/// still-unvisited targets unless it was already emitted.
pub open spec fn dfs_rec<T>(g: Graph<T>, stack: Seq<usize>, path: Seq<usize>) -> Seq<usize>
    decreases g.node_cnt() - path.len(), stack.len(),
        when trav_inv(g, stack, path)
{
    if stack.len() == 0 {
        path
    } else {
        let top = stack.last();
        let rest = stack.drop_last();
        if path.contains(top) {
            dfs_rec(g, rest, path)
        } else {
            let path2 = path.push(top);
            proof {
                lemma_nodup_bounded_len(path2, g.node_cnt());
            }
            dfs_rec(g, rev_push(rest, g.edges_of(top as int), path2), path2)
        }
    }
}

/// The sequence of node ids that a depth-first traversal from `start` emits.
pub open spec fn dfs_seq<T>(g: Graph<T>, start: usize) -> Seq<usize> {
    dfs_rec(g, seq![start], Seq::empty())
}

/// Appends the targets of `es` to `queue`, first edge first, skipping targets
/// already emitted or already waiting — exactly what the breadth-first loop
/// does, marking nodes visited as they are enqueued.
pub open spec fn fifo_push(queue: Seq<usize>, es: Seq<GraphEdge>, path: Seq<usize>) -> Seq<usize>
    decreases es.len(),
{
    if es.len() == 0 {
        queue
    } else {
        let t = es.first().into;
        let queue2 = if path.contains(t) || queue.contains(t) {
            queue
        } else {
            queue.push(t)
        };
        fifo_push(queue2, es.drop_first(), path)
    }
}

/// Well-formedness of a breadth-first state: on top of `trav_inv`, no id sits
/// both among the emitted and the waiting ones, nor twice in the queue.
pub open spec fn bfs_inv<T>(g: Graph<T>, queue: Seq<usize>, path: Seq<usize>) -> bool {
    &&& trav_inv(g, queue, path)
    &&& (path + queue).no_duplicates()
}

/// One breadth-first step: dequeue the front, emit it, and enqueue its not
/// yet visited targets in edge order.
pub open spec fn bfs_rec<T>(g: Graph<T>, queue: Seq<usize>, path: Seq<usize>) -> Seq<usize>
    decreases g.node_cnt() - path.len(),
        when bfs_inv(g, queue, path)
{
    if queue.len() == 0 {
        path
    } else {
        let x = queue.first();
        let path2 = path.push(x);
        proof {
            assert(!path.contains(x)) by {
                if path.contains(x) {
                    let j = choose|j: int| 0 <= j < path.len() && path[j] == x;
                    assert((path + queue)[j] == x);
                    assert((path + queue)[path.len() as int] == x);
                }
            }
            lemma_nodup_bounded_len(path2, g.node_cnt());
        }
        bfs_rec(g, fifo_push(queue.drop_first(), g.edges_of(x as int), path2), path2)
    }
}

/// The sequence of node ids that a breadth-first traversal from `start`
/// emits: level order, by ascending neighbor id within each level.
pub open spec fn bfs_seq<T>(g: Graph<T>, start: usize) -> Seq<usize> {
    bfs_rec(g, seq![start], Seq::empty())
}

impl<T> Graph<T> {
    /// Depth-first traversal from `start_id` (which must exist), exploring
    /// the lowest-numbered unvisited neighbor first.
    ///
    /// The result equals `dfs_seq`, a function of the graph and the start id
    /// alone; it begins with `start_id`, repeats no id, and contains only
    /// ids reachable from `start_id`.
    #[verifier::loop_isolation(false)]
    pub fn dfs(&self, start_id: usize) -> (path: Vec<usize>)
        requires
            self.wf(),
            (start_id as int) < self.node_cnt(),
        ensures
            path@ == dfs_seq(*self, start_id),
            path@.no_duplicates(),
            path@.len() >= 1,
            path@[0] == start_id,
            forall|k: int| 0 <= k < path@.len() ==> ((#[trigger] path@[k]) as int) < self.node_cnt(),
            forall|k: int| 0 <= k < path@.len() ==> reachable(*self, start_id, #[trigger] path@[k]),
    {
        let ghost g = *self;
        let n = self.nodes.len();
        let mut path: Vec<usize> = Vec::new();
        let mut visited: Vec<bool> = filled_vec(n, false);
        let mut stack: Vec<usize> = Vec::new();
        stack.push(start_id);
        proof {
            lemma_reachable_refl(g, start_id);
        }
        while stack.len() > 0
            invariant
                visited@.len() == n,
                forall|i: int| 0 <= i < n ==> (visited@[i] <==> path@.contains(i as usize)),
                trav_inv(g, stack@, path@),
                dfs_rec(g, stack@, path@) == dfs_seq(g, start_id),
                forall|k: int|
                    0 <= k < stack@.len() ==> reachable(g, start_id, #[trigger] stack@[k]),
                forall|k: int| 0 <= k < path@.len() ==> reachable(g, start_id, #[trigger] path@[k]),
                path@.len() == 0 ==> stack@ == seq![start_id],
                path@.len() >= 1 ==> path@[0] == start_id,
            decreases g.node_cnt() - path@.len(), stack@.len(),
        {
            let ghost stack_before = stack@;
            let ghost path_before = path@;
            let top = stack.pop().unwrap();
            if visited[top] {
                proof {
                    assert(path_before.contains(top));
                    assert(dfs_rec(g, stack@, path@) == dfs_rec(g, stack_before, path_before));
                }
            } else {
                visited[top] = true;
                path.push(top);
                let ghost path2 = path@;
                let ghost rest = stack@;
                let ghost es = self.edges_of(top as int);
                proof {
                    assert(!path_before.contains(top));
                    assert(path2 == path_before.push(top));
                    lemma_nodup_bounded_len(path2, g.node_cnt());
                    assert(path2.contains(top)) by {
                        assert(path2.last() == top);
                    }
                    assert forall|x: usize| #[trigger] path2.contains(x) && x != top implies
                        path_before.contains(x) by {
                        let j = choose|j: int| 0 <= j < path2.len() && path2[j] == x;
                        assert(path_before[j] == x);
                    }
                    assert forall|x: usize| path_before.contains(x) implies path2.contains(x) by {
                        let j = choose|j: int| 0 <= j < path_before.len() && path_before[j] == x;
                        assert(path2[j] == x);
                    }
                }
                let es_len = self.nodes[top].edges.len();
                proof {
                    assert(es.subrange(0, es_len as int) =~= es);
                }
                let mut k = es_len;
                while k > 0
                    invariant
                        k <= es_len,
                        visited@.len() == n,
                        forall|i: int| 0 <= i < n ==> (visited@[i] <==> path2.contains(i as usize)),
                        path@ == path2,
                        forall|j: int|
                            0 <= j < stack@.len() ==> ((#[trigger] stack@[j]) as int)
                                < g.node_cnt(),
                        forall|j: int|
                            0 <= j < stack@.len() ==> reachable(g, start_id, #[trigger] stack@[j]),
                        rev_push(stack@, es.subrange(0, k as int), path2) == rev_push(
                            rest,
                            es,
                            path2,
                        ),
                    decreases k,
                {
                    k -= 1;
                    let ghost stack_k = stack@;
                    let t = self.nodes[top].edges[k].into;
                    let w = self.nodes[top].edges[k].weight;
                    if !visited[t] {
                        stack.push(t);
                        proof {
                            assert(g.has_edge(top as int, t as int, w as int));
                            assert(g.connected(top as int, t as int));
                            assert(reachable(g, start_id, top));
                            lemma_reachable_step(g, start_id, top, t);
                        }
                    }
                    proof {
                        let sub1 = es.subrange(0, k as int + 1);
                        assert(sub1.last() == es[k as int]);
                        assert(sub1.drop_last() =~= es.subrange(0, k as int));
                        assert(rev_push(stack@, es.subrange(0, k as int), path2) == rev_push(
                            stack_k,
                            sub1,
                            path2,
                        ));
                    }
                }
                proof {
                    assert(es.subrange(0, es_len as int) =~= es);
                    assert(rev_push(stack@, es.subrange(0, 0), path2) == stack@);
                    assert(stack@ == rev_push(rest, es, path2));
                    assert(dfs_rec(g, stack_before, path_before) == dfs_rec(g, stack@, path2));
                }
            }
        }
        proof {
            assert(dfs_rec(g, stack@, path@) == path@);
        }
        path
    }

    /// Breadth-first traversal from `start_id` (which must exist): level
    /// order, visiting neighbors in ascending id order within each level.
    ///
    /// The result equals `bfs_seq`, a function of the graph and the start id
    /// alone; it begins with `start_id`, repeats no id, and contains only
    /// ids reachable from `start_id`.
    #[verifier::loop_isolation(false)]
    pub fn bfs(&self, start_id: usize) -> (path: Vec<usize>)
        requires
            self.wf(),
            (start_id as int) < self.node_cnt(),
        ensures
            path@ == bfs_seq(*self, start_id),
            path@.no_duplicates(),
            path@.len() >= 1,
            path@[0] == start_id,
            forall|k: int| 0 <= k < path@.len() ==> ((#[trigger] path@[k]) as int) < self.node_cnt(),
            forall|k: int| 0 <= k < path@.len() ==> reachable(*self, start_id, #[trigger] path@[k]),
    {
        let ghost g = *self;
        let n = self.nodes.len();
        let mut path: Vec<usize> = Vec::new();
        let mut visited: Vec<bool> = filled_vec(n, false);
        // The queue lives in `queue[head..]`; emitted ids stay in the prefix.
        let mut queue: Vec<usize> = Vec::new();
        let mut head: usize = 0;
        queue.push(start_id);
        visited[start_id] = true;
        proof {
            lemma_reachable_refl(g, start_id);
            assert(queue@ =~= seq![start_id]);
            assert forall|i: int| 0 <= i < n implies (visited@[i] <==> queue@.contains(
                i as usize,
            )) by {
                if queue@.contains(i as usize) {
                    let j = choose|j: int| 0 <= j < queue@.len() && queue@[j] == i as usize;
                    assert(j == 0);
                }
                if i == start_id as int {
                    assert(queue@[0] == start_id);
                }
            }
            assert(queue@.subrange(0, queue@.len() as int) =~= seq![start_id]);
            assert(path@ =~= Seq::<usize>::empty());
        }
        while head < queue.len()
            invariant
                head <= queue@.len(),
                path@ =~= queue@.subrange(0, head as int),
                visited@.len() == n,
                forall|i: int| 0 <= i < n ==> (visited@[i] <==> queue@.contains(i as usize)),
                queue@.no_duplicates(),
                forall|j: int| 0 <= j < queue@.len() ==> ((#[trigger] queue@[j]) as int) < g.node_cnt(),
                forall|j: int| 0 <= j < queue@.len() ==> reachable(g, start_id, #[trigger] queue@[j]),
                queue@.len() >= 1 && queue@[0] == start_id,
                bfs_rec(g, queue@.subrange(head as int, queue@.len() as int), path@) == bfs_seq(
                    g,
                    start_id,
                ),
            decreases g.node_cnt() - head,
        {
            let ghost queue_before = queue@;
            let ghost path_before = path@;
            let ghost suffix_before = queue@.subrange(head as int, queue@.len() as int);
            let x = queue[head];
            head += 1;
            path.push(x);
            let ghost path2 = path@;
            let ghost es = self.edges_of(x as int);
            proof {
                lemma_nodup_bounded_len(queue_before, g.node_cnt());
                assert(suffix_before.first() == x);
                assert(path2 =~= queue_before.subrange(0, head as int));
                assert(queue_before.subrange(head as int, queue_before.len() as int)
                    =~= suffix_before.drop_first());
            }
            let es_len = self.nodes[x].edges.len();
            proof {
                assert(es.subrange(0, es_len as int) =~= es);
            }
            let mut k: usize = 0;
            while k < es_len
                invariant
                    k <= es_len,
                    head <= queue@.len(),
                    visited@.len() == n,
                    forall|i: int| 0 <= i < n ==> (visited@[i] <==> queue@.contains(i as usize)),
                    queue@.no_duplicates(),
                    forall|j: int|
                        0 <= j < queue@.len() ==> ((#[trigger] queue@[j]) as int) < g.node_cnt(),
                    forall|j: int|
                        0 <= j < queue@.len() ==> reachable(g, start_id, #[trigger] queue@[j]),
                    queue@.len() >= 1 && queue@[0] == start_id,
                    queue@.subrange(0, head as int) =~= path2,
                    fifo_push(
                        queue@.subrange(head as int, queue@.len() as int),
                        es.subrange(k as int, es_len as int),
                        path2,
                    ) == fifo_push(suffix_before.drop_first(), es, path2),
                decreases es_len - k,
            {
                let ghost queue_k = queue@;
                let ghost suffix_k = queue@.subrange(head as int, queue@.len() as int);
                let t = self.nodes[x].edges[k].into;
                let w = self.nodes[x].edges[k].weight;
                proof {
                    assert(g.has_edge(x as int, t as int, w as int));
                    lemma_contains_split(queue_k, head as int, t);
                }
                if !visited[t] {
                    visited[t] = true;
                    queue.push(t);
                    proof {
                        lemma_reachable_step(g, start_id, x, t);
                        assert(queue@ == queue_k.push(t));
                        assert forall|i: int, j: int| 0 <= i < j < queue@.len() implies queue@[i]
                            != queue@[j] by {
                            if j < queue_k.len() {
                                assert(queue_k[i] != queue_k[j]);
                            } else {
                                if queue@[i] == t {
                                    assert(queue_k.contains(t));
                                }
                            }
                        }
                        assert forall|i: int| 0 <= i < n implies (visited@[i] <==> queue@.contains(
                            i as usize,
                        )) by {
                            if i == t as int {
                                assert(queue@.last() == t);
                            } else {
                                if queue@.contains(i as usize) {
                                    let j = choose|j: int|
                                        0 <= j < queue@.len() && queue@[j] == i as usize;
                                    assert(queue_k[j] == i as usize);
                                }
                                if queue_k.contains(i as usize) {
                                    let j = choose|j: int|
                                        0 <= j < queue_k.len() && queue_k[j] == i as usize;
                                    assert(queue@[j] == i as usize);
                                }
                            }
                        }
                        assert(queue@.subrange(0, head as int) =~= path2);
                        assert(queue@.subrange(head as int, queue@.len() as int) =~= suffix_k.push(
                            t,
                        ));
                    }
                }
                k += 1;
                proof {
                    let sub_old = es.subrange(k as int - 1, es_len as int);
                    assert(sub_old.first() == es[k as int - 1]);
                    assert(sub_old.drop_first() =~= es.subrange(k as int, es_len as int));
                    assert(fifo_push(
                        queue@.subrange(head as int, queue@.len() as int),
                        es.subrange(k as int, es_len as int),
                        path2,
                    ) == fifo_push(suffix_k, sub_old, path2));
                }
            }
            proof {
                let suffix_new = queue@.subrange(head as int, queue@.len() as int);
                assert(es.subrange(es_len as int, es_len as int) =~= Seq::<GraphEdge>::empty());
                assert(fifo_push(suffix_new, Seq::empty(), path2) == suffix_new);
                assert((path_before + suffix_before) =~= queue_before);
                assert(bfs_inv(g, suffix_before, path_before));
                assert(bfs_rec(g, suffix_before, path_before) == bfs_rec(g, suffix_new, path2));
            }
        }
        proof {
            assert(queue@.subrange(head as int, queue@.len() as int) =~= Seq::<usize>::empty());
            assert(path@ =~= queue@);
            assert((path@ + Seq::<usize>::empty()) =~= path@);
            assert(bfs_inv(g, Seq::empty(), path@));
            assert(bfs_rec(g, Seq::<usize>::empty(), path@) == path@);
        }
        path
    }
}

/// Pushing targets never loses what was already on the stack.
proof fn lemma_rev_push_super(stack: Seq<usize>, es: Seq<GraphEdge>, path: Seq<usize>, x: usize)
    requires
        stack.contains(x),
    ensures
        rev_push(stack, es, path).contains(x),
    decreases es.len(),
{
    if es.len() > 0 {
        let t = es.last().into;
        let stack2 = if path.contains(t) {
            stack
        } else {
            stack.push(t)
        };
        assert(stack2.contains(x)) by {
            let j = choose|j: int| 0 <= j < stack.len() && stack[j] == x;
            assert(stack2[j] == x);
        }
        lemma_rev_push_super(stack2, es.drop_last(), path, x);
    }
}

/// Every edge target ends up either on the stack or among the emitted ids.
proof fn lemma_rev_push_target(stack: Seq<usize>, es: Seq<GraphEdge>, path: Seq<usize>, k: int)
    requires
        0 <= k < es.len(),
    ensures
        rev_push(stack, es, path).contains(es[k].into) || path.contains(es[k].into),
    decreases es.len(),
{
    let t = es.last().into;
    let stack2 = if path.contains(t) {
        stack
    } else {
        stack.push(t)
    };
    if k == es.len() - 1 {
        if !path.contains(t) {
            assert(stack2.last() == t);
            lemma_rev_push_super(stack2, es.drop_last(), path, t);
        }
    } else {
        assert(es.drop_last()[k] == es[k]);
        lemma_rev_push_target(stack2, es.drop_last(), path, k);
    }
}

/// Pushing bounded targets onto a bounded stack keeps every entry bounded.
proof fn lemma_rev_push_bounds(stack: Seq<usize>, es: Seq<GraphEdge>, path: Seq<usize>, n: int)
    requires
        forall|j: int| 0 <= j < stack.len() ==> ((#[trigger] stack[j]) as int) < n,
        forall|k: int| 0 <= k < es.len() ==> ((#[trigger] es[k]).into as int) < n,
    ensures
        forall|j: int|
            0 <= j < rev_push(stack, es, path).len() ==> ((#[trigger] rev_push(stack, es, path)[j])
                as int) < n,
    decreases es.len(),
{
    if es.len() > 0 {
        let t = es.last().into;
        let stack2 = if path.contains(t) {
            stack
        } else {
            stack.push(t)
        };
        assert forall|j: int| 0 <= j < stack2.len() implies ((#[trigger] stack2[j]) as int) < n by {
            if j < stack.len() {
            } else {
                assert(stack2[j] == t);
            }
        }
        lemma_rev_push_bounds(stack2, es.drop_last(), path, n);
        assert(rev_push(stack, es, path) == rev_push(stack2, es.drop_last(), path));
    }
}

/// Everything pending or already emitted appears in the traversal's result.
proof fn lemma_dfs_rec_super<T>(g: Graph<T>, stack: Seq<usize>, path: Seq<usize>, x: usize)
    requires
        trav_inv(g, stack, path),
        stack.contains(x) || path.contains(x),
    ensures
        dfs_rec(g, stack, path).contains(x),
    decreases g.node_cnt() - path.len(), stack.len(),
{
    if stack.len() == 0 {
    } else {
        let top = stack.last();
        let rest = stack.drop_last();
        if path.contains(top) {
            assert(rest.contains(x) || path.contains(x)) by {
                if stack.contains(x) && !path.contains(x) {
                    let j = choose|j: int| 0 <= j < stack.len() && stack[j] == x;
                    assert(rest[j] == x);
                }
            }
            lemma_dfs_rec_super(g, rest, path, x);
        } else {
            let path2 = path.push(top);
            let es = g.edges_of(top as int);
            let stack2 = rev_push(rest, es, path2);
            lemma_nodup_bounded_len(path2, g.node_cnt());
            assert(trav_inv(g, stack2, path2)) by {
                lemma_rev_push_bounds(rest, es, path2, g.node_cnt());
            }
            assert(stack2.contains(x) || path2.contains(x)) by {
                if x == top {
                    assert(path2.last() == top);
                } else if path.contains(x) {
                    let j = choose|j: int| 0 <= j < path.len() && path[j] == x;
                    assert(path2[j] == x);
                } else {
                    let j = choose|j: int| 0 <= j < stack.len() && stack[j] == x;
                    assert(stack[stack.len() - 1] == top);
                    assert(j != stack.len() - 1);
                    assert(rest[j] == x);
                    lemma_rev_push_super(rest, es, path2, x);
                }
            }
            lemma_dfs_rec_super(g, stack2, path2, x);
        }
    }
}

/// The depth-first result is closed under edges: the targets of everything
/// it contains are contained too.
proof fn lemma_dfs_rec_closed<T>(g: Graph<T>, stack: Seq<usize>, path: Seq<usize>, u: usize, k: int)
    requires
        trav_inv(g, stack, path),
        dfs_rec(g, stack, path).contains(u),
        (u as int) < g.node_cnt(),
        0 <= k < g.edges_of(u as int).len(),
        !path.contains(u),
    ensures
        dfs_rec(g, stack, path).contains(g.edges_of(u as int)[k].into),
    decreases g.node_cnt() - path.len(), stack.len(),
{
    if stack.len() == 0 {
        assert(dfs_rec(g, stack, path) == path);
    } else {
        let top = stack.last();
        let rest = stack.drop_last();
        if path.contains(top) {
            lemma_dfs_rec_closed(g, rest, path, u, k);
        } else {
            let path2 = path.push(top);
            let es = g.edges_of(top as int);
            let stack2 = rev_push(rest, es, path2);
            lemma_nodup_bounded_len(path2, g.node_cnt());
            assert(trav_inv(g, stack2, path2)) by {
                lemma_rev_push_bounds(rest, es, path2, g.node_cnt());
            }
            if u == top {
                lemma_rev_push_target(rest, es, path2, k);
                lemma_dfs_rec_super(g, stack2, path2, g.edges_of(u as int)[k].into);
            } else {
                assert(!path2.contains(u)) by {
                    if path2.contains(u) {
                        let j = choose|j: int| 0 <= j < path2.len() && path2[j] == u;
                        assert(path[j] == u);
                    }
                }
                lemma_dfs_rec_closed(g, stack2, path2, u, k);
            }
        }
    }
}

/// A set of ids that holds `a` and is closed under edges holds the endpoint
/// of every walk out of `a`.
proof fn lemma_closed_covers_walk<T>(g: Graph<T>, r: Seq<usize>, p: Seq<usize>)
    requires
        g.wf(),
        path_ok(g, p),
        r.contains(p.first()),
        forall|u: usize, k: int|
            #[trigger] r.contains(u) && (u as int) < g.node_cnt() && 0 <= k < g.edges_of(
                u as int,
            ).len() ==> r.contains(#[trigger] g.edges_of(u as int)[k].into),
    ensures
        r.contains(p.last()),
    decreases p.len(),
{
    if p.len() > 1 {
        let p0 = p.drop_last();
        assert(path_ok(g, p0)) by {
            assert forall|i: int| 0 <= i < p0.len() - 1 implies g.connected(
                #[trigger] p0[i] as int,
                p0[i + 1] as int,
            ) by {
                assert(g.connected(p[i] as int, p[i + 1] as int));
            }
        }
        lemma_closed_covers_walk(g, r, p0);
        let u = p0.last();
        let v = p.last();
        assert(g.connected(u as int, v as int)) by {
            assert(g.connected(p[p.len() - 2] as int, p[p.len() - 1] as int));
        }
        let w = choose|w: int| g.has_edge(u as int, v as int, w);
        let k = choose|k: int|
            0 <= k < g.edges_of(u as int).len() && (#[trigger] g.edges_of(u as int)[k]).into
                == v as int && g.edges_of(u as int)[k].weight == w;
        assert(r.contains(g.edges_of(u as int)[k].into));
    }
}

/// Depth-first completeness: every id reachable from the start appears in
/// the traversal. Together with `dfs`'s contract, the traversal emits
/// exactly the ids reachable from the start, each once.
pub proof fn lemma_dfs_complete<T>(g: Graph<T>, start: usize, x: usize)
    requires
        g.wf(),
        (start as int) < g.node_cnt(),
        reachable(g, start, x),
    ensures
        dfs_seq(g, start).contains(x),
{
    let r = dfs_seq(g, start);
    let stack0 = seq![start];
    let path0 = Seq::<usize>::empty();
    assert(trav_inv(g, stack0, path0));
    assert(stack0.contains(start)) by {
        assert(stack0[0] == start);
    }
    assert forall|u: usize, k: int|
        #[trigger] r.contains(u) && (u as int) < g.node_cnt() && 0 <= k < g.edges_of(
            u as int,
        ).len() implies r.contains(#[trigger] g.edges_of(u as int)[k].into) by {
        lemma_dfs_rec_closed(g, stack0, path0, u, k);
    }
    lemma_dfs_rec_super(g, stack0, path0, start);
    let p = choose|p: Seq<usize>| path_ok(g, p) && p.first() == start && p.last() == x;
    lemma_closed_covers_walk(g, r, p);
}

/// Enqueuing targets never loses what was already in the queue.
proof fn lemma_fifo_push_super(queue: Seq<usize>, es: Seq<GraphEdge>, path: Seq<usize>, x: usize)
    requires
        queue.contains(x),
    ensures
        fifo_push(queue, es, path).contains(x),
    decreases es.len(),
{
    if es.len() > 0 {
        let t = es.first().into;
        let queue2 = if path.contains(t) || queue.contains(t) {
            queue
        } else {
            queue.push(t)
        };
        assert(queue2.contains(x)) by {
            let j = choose|j: int| 0 <= j < queue.len() && queue[j] == x;
            assert(queue2[j] == x);
        }
        lemma_fifo_push_super(queue2, es.drop_first(), path, x);
    }
}

/// Every edge target ends up either in the queue or among the emitted ids.
proof fn lemma_fifo_push_target(queue: Seq<usize>, es: Seq<GraphEdge>, path: Seq<usize>, k: int)
    requires
        0 <= k < es.len(),
    ensures
        fifo_push(queue, es, path).contains(es[k].into) || path.contains(es[k].into),
    decreases es.len(),
{
    let t = es.first().into;
    let queue2 = if path.contains(t) || queue.contains(t) {
        queue
    } else {
        queue.push(t)
    };
    if k == 0 {
        if !path.contains(t) {
            if queue.contains(t) {
                lemma_fifo_push_super(queue2, es.drop_first(), path, t);
            } else {
                assert(queue2.last() == t);
                lemma_fifo_push_super(queue2, es.drop_first(), path, t);
            }
        }
    } else {
        assert(es.drop_first()[k - 1] == es[k]);
        lemma_fifo_push_target(queue2, es.drop_first(), path, k - 1);
    }
}

/// Enqueuing bounded targets keeps every entry bounded.
proof fn lemma_fifo_push_bounds(queue: Seq<usize>, es: Seq<GraphEdge>, path: Seq<usize>, n: int)
    requires
        forall|j: int| 0 <= j < queue.len() ==> ((#[trigger] queue[j]) as int) < n,
        forall|k: int| 0 <= k < es.len() ==> ((#[trigger] es[k]).into as int) < n,
    ensures
        forall|j: int|
            0 <= j < fifo_push(queue, es, path).len() ==> ((#[trigger] fifo_push(queue, es, path)[j])
                as int) < n,
    decreases es.len(),
{
    if es.len() > 0 {
        let t = es.first().into;
        let queue2 = if path.contains(t) || queue.contains(t) {
            queue
        } else {
            queue.push(t)
        };
        assert forall|j: int| 0 <= j < queue2.len() implies ((#[trigger] queue2[j]) as int) < n by {
            if j < queue.len() {
            } else {
                assert(queue2[j] == t);
            }
        }
        lemma_fifo_push_bounds(queue2, es.drop_first(), path, n);
        assert(fifo_push(queue, es, path) == fifo_push(queue2, es.drop_first(), path));
    }
}

/// Enqueuing keeps the emitted-plus-waiting ids free of duplicates.
proof fn lemma_fifo_push_nodup(queue: Seq<usize>, es: Seq<GraphEdge>, path: Seq<usize>)
    requires
        (path + queue).no_duplicates(),
    ensures
        (path + fifo_push(queue, es, path)).no_duplicates(),
    decreases es.len(),
{
    if es.len() > 0 {
        let t = es.first().into;
        let queue2 = if path.contains(t) || queue.contains(t) {
            queue
        } else {
            queue.push(t)
        };
        assert((path + queue2).no_duplicates()) by {
            if !path.contains(t) && !queue.contains(t) {
                let c = path + queue;
                let c2 = path + queue2;
                assert(c2 =~= c.push(t));
                assert(!c.contains(t)) by {
                    if c.contains(t) {
                        let j = choose|j: int| 0 <= j < c.len() && c[j] == t;
                        if j < path.len() {
                            assert(path[j] == t);
                        } else {
                            assert(queue[j - path.len()] == t);
                        }
                    }
                }
                assert forall|i: int, j: int| 0 <= i < j < c2.len() implies c2[i] != c2[j] by {
                    if j < c.len() {
                        assert(c[i] != c[j]);
                    } else {
                        assert(c2[j] == t);
                        if c2[i] == t {
                            assert(c.contains(t));
                        }
                    }
                }
            }
        }
        lemma_fifo_push_nodup(queue2, es.drop_first(), path);
    }
}

/// Everything waiting or already emitted appears in the traversal's result.
proof fn lemma_bfs_rec_super<T>(g: Graph<T>, queue: Seq<usize>, path: Seq<usize>, x: usize)
    requires
        bfs_inv(g, queue, path),
        queue.contains(x) || path.contains(x),
    ensures
        bfs_rec(g, queue, path).contains(x),
    decreases g.node_cnt() - path.len(),
{
    if queue.len() == 0 {
    } else {
        let top = queue.first();
        let rest = queue.drop_first();
        let path2 = path.push(top);
        let es = g.edges_of(top as int);
        let queue2 = fifo_push(rest, es, path2);
        assert(!path.contains(top)) by {
            if path.contains(top) {
                let j = choose|j: int| 0 <= j < path.len() && path[j] == top;
                assert((path + queue)[j] == top);
                assert((path + queue)[path.len() as int] == top);
            }
        }
        lemma_nodup_bounded_len(path2, g.node_cnt());
        assert(bfs_inv(g, queue2, path2)) by {
            lemma_fifo_push_bounds(rest, es, path2, g.node_cnt());
            assert((path2 + rest) =~= (path + queue));
            lemma_fifo_push_nodup(rest, es, path2);
        }
        assert(queue2.contains(x) || path2.contains(x)) by {
            if x == top {
                assert(path2.last() == top);
            } else if path.contains(x) {
                let j = choose|j: int| 0 <= j < path.len() && path[j] == x;
                assert(path2[j] == x);
            } else {
                let j = choose|j: int| 0 <= j < queue.len() && queue[j] == x;
                assert(j != 0);
                assert(rest[j - 1] == x);
                lemma_fifo_push_super(rest, es, path2, x);
            }
        }
        lemma_bfs_rec_super(g, queue2, path2, x);
    }
}

/// The breadth-first result is closed under edges.
proof fn lemma_bfs_rec_closed<T>(g: Graph<T>, queue: Seq<usize>, path: Seq<usize>, u: usize, k: int)
    requires
        bfs_inv(g, queue, path),
        bfs_rec(g, queue, path).contains(u),
        (u as int) < g.node_cnt(),
        0 <= k < g.edges_of(u as int).len(),
        !path.contains(u),
    ensures
        bfs_rec(g, queue, path).contains(g.edges_of(u as int)[k].into),
    decreases g.node_cnt() - path.len(),
{
    if queue.len() == 0 {
        assert(bfs_rec(g, queue, path) == path);
    } else {
        let top = queue.first();
        let rest = queue.drop_first();
        let path2 = path.push(top);
        let es = g.edges_of(top as int);
        let queue2 = fifo_push(rest, es, path2);
        assert(!path.contains(top)) by {
            if path.contains(top) {
                let j = choose|j: int| 0 <= j < path.len() && path[j] == top;
                assert((path + queue)[j] == top);
                assert((path + queue)[path.len() as int] == top);
            }
        }
        lemma_nodup_bounded_len(path2, g.node_cnt());
        assert(bfs_inv(g, queue2, path2)) by {
            lemma_fifo_push_bounds(rest, es, path2, g.node_cnt());
            assert((path2 + rest) =~= (path + queue));
            lemma_fifo_push_nodup(rest, es, path2);
        }
        if u == top {
            lemma_fifo_push_target(rest, es, path2, k);
            lemma_bfs_rec_super(g, queue2, path2, g.edges_of(u as int)[k].into);
        } else {
            assert(!path2.contains(u)) by {
                if path2.contains(u) {
                    let j = choose|j: int| 0 <= j < path2.len() && path2[j] == u;
                    assert(path[j] == u);
                }
            }
            lemma_bfs_rec_closed(g, queue2, path2, u, k);
        }
    }
}

/// Breadth-first completeness: every id reachable from the start appears in
/// the traversal. Together with `bfs`'s contract, the traversal emits
/// exactly the ids reachable from the start, each once.
pub proof fn lemma_bfs_complete<T>(g: Graph<T>, start: usize, x: usize)
    requires
        g.wf(),
        (start as int) < g.node_cnt(),
        reachable(g, start, x),
    ensures
        bfs_seq(g, start).contains(x),
{
    let r = bfs_seq(g, start);
    let queue0 = seq![start];
    let path0 = Seq::<usize>::empty();
    assert(bfs_inv(g, queue0, path0)) by {
        assert((path0 + queue0) =~= queue0);
    }
    assert(queue0.contains(start)) by {
        assert(queue0[0] == start);
    }
    assert forall|u: usize, k: int|
        #[trigger] r.contains(u) && (u as int) < g.node_cnt() && 0 <= k < g.edges_of(
            u as int,
        ).len() implies r.contains(#[trigger] g.edges_of(u as int)[k].into) by {
        lemma_bfs_rec_closed(g, queue0, path0, u, k);
    }
    lemma_bfs_rec_super(g, queue0, path0, start);
    let p = choose|p: Seq<usize>| path_ok(g, p) && p.first() == start && p.last() == x;
    lemma_closed_covers_walk(g, r, p);
}

} // verus!
