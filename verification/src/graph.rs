use vstd::prelude::*;

verus! {

/// A finite directed graph over the vertices `0 .. adj.len()`, stored as an
/// adjacency list: `adj[u]` holds the outgoing edges of `u` as
/// `(neighbor, weight)` pairs.
pub struct Graph {
    pub adj: Vec<Vec<(usize, u64)>>,
}

impl Graph {
    /// Number of vertices.
    pub open spec fn vertex_count(self) -> nat {
        self.adj@.len()
    }

    /// Every edge points at a vertex of the graph.
    pub open spec fn wf(self) -> bool {
        forall|u: int, i: int|
            0 <= u < self.adj@.len() && 0 <= i < self.adj@[u]@.len()
                ==> (#[trigger] self.adj@[u]@[i]).0 < self.adj@.len()
    }

    /// There is an edge from `u` to `v`, of some weight.
    pub open spec fn has_edge(self, u: usize, v: usize) -> bool {
        u < self.adj@.len() && exists|i: int|
            0 <= i < self.adj@[u as int]@.len()
                && (#[trigger] self.adj@[u as int]@[i]).0 == v
    }
}

/// `p` steps only along edges of `g`.
pub open spec fn path_ok(g: Graph, p: Seq<usize>) -> bool {
    forall|k: int| 0 <= k < p.len() - 1 ==> g.has_edge(#[trigger] p[k], p[k + 1])
}

/// `p` is a walk through `g` that starts at `s` and ends at `e`.
pub open spec fn connects(g: Graph, s: usize, e: usize, p: Seq<usize>) -> bool {
    &&& p.len() >= 1
    &&& p[0] == s
    &&& p[p.len() - 1] == e
    &&& path_ok(g, p)
}

/// `e` can be reached from `s` by some walk through `g`.
pub open spec fn reachable(g: Graph, s: usize, e: usize) -> bool {
    exists|p: Seq<usize>| connects(g, s, e, p)
}

/// The vertices strictly between the two endpoints of a walk.
pub open spec fn interior(p: Seq<usize>) -> Seq<usize> {
    if p.len() < 2 {
        Seq::empty()
    } else {
        p.subrange(1, p.len() - 1)
    }
}

/// `u` has an edge to `v` of weight exactly `w`.
pub open spec fn edge_with(g: Graph, u: usize, v: usize, w: u64) -> bool {
    u < g.adj@.len() && exists|i: int|
        0 <= i < g.adj@[u as int]@.len() && #[trigger] g.adj@[u as int]@[i] == (v, w)
}

/// `ws` lists the weight of each step of the walk `p`.
pub open spec fn walk_costs(g: Graph, p: Seq<usize>, ws: Seq<u64>) -> bool {
    ws.len() + 1 == p.len() && forall|k: int|
        0 <= k < ws.len() ==> #[trigger] edge_with(g, p[k], p[k + 1], ws[k])
}

/// The total weight of a list of step weights.
pub open spec fn weight_sum(ws: Seq<u64>) -> int
    decreases ws.len(),
{
    if ws.len() == 0 {
        0
    } else {
        weight_sum(ws.drop_last()) + ws.last()
    }
}

pub proof fn lemma_weight_sum_push(ws: Seq<u64>, w: u64)
    ensures
        weight_sum(ws.push(w)) == weight_sum(ws) + w,
{
    assert(ws.push(w).drop_last() =~= ws);
}

/// Extending a walk by one edge keeps it a walk.
pub proof fn lemma_connects_extend(g: Graph, s: usize, u: usize, v: usize, p: Seq<usize>)
    requires
        connects(g, s, u, p),
        g.has_edge(u, v),
    ensures
        connects(g, s, v, p.push(v)),
{
    let q = p.push(v);
    assert forall|k: int| 0 <= k < q.len() - 1 implies g.has_edge(#[trigger] q[k], q[k + 1]) by {
        if k < p.len() - 1 {
            assert(g.has_edge(p[k], p[k + 1]));
        }
    }
}

proof fn lemma_closed_walk(g: Graph, s: usize, e: usize, closed: Set<usize>, p: Seq<usize>)
    requires
        connects(g, s, e, p),
        closed.contains(s),
        forall|u: usize, v: usize|
            closed.contains(u) && #[trigger] g.has_edge(u, v) ==> closed.contains(v),
    ensures
        closed.contains(e),
    decreases p.len(),
{
    if p.len() == 1 {
        assert(e == s);
    } else {
        let q = p.drop_last();
        let m = p[p.len() - 2];
        assert(path_ok(g, q)) by {
            assert forall|k: int| 0 <= k < q.len() - 1 implies g.has_edge(
                #[trigger] q[k],
                q[k + 1],
            ) by {
                assert(g.has_edge(p[k], p[k + 1]));
            }
        }
        assert(connects(g, s, m, q));
        lemma_closed_walk(g, s, m, closed, q);
        assert(g.has_edge(m, e));
    }
}

/// A set of vertices that contains `s` and is closed under the edges of `g`
/// contains everything reachable from `s`; so a vertex outside it is
/// unreachable from `s`.
pub proof fn lemma_closed_set_unreachable(g: Graph, s: usize, e: usize, closed: Set<usize>)
    requires
        closed.contains(s),
        !closed.contains(e),
        forall|u: usize, v: usize|
            closed.contains(u) && #[trigger] g.has_edge(u, v) ==> closed.contains(v),
    ensures
        !reachable(g, s, e),
{
    if reachable(g, s, e) {
        let p = choose|p: Seq<usize>| connects(g, s, e, p);
        lemma_closed_walk(g, s, e, closed, p);
    }
}

} // verus!
