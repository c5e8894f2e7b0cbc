use vstd::prelude::*;
use crate::graph::{Graph, connects, edge_with, interior, reachable, walk_costs, weight_sum};
use crate::graph::{lemma_closed_set_unreachable, lemma_connects_extend, lemma_weight_sum_push};

verus! {

/// The single failure of both search engines: the frontier was exhausted
/// without ever reaching the end vertex.
#[derive(Debug, PartialEq, Eq, Structural)]
pub struct PathNotFound;

/// Following predecessor links from `v` reaches a vertex with no recorded
/// predecessor within `fuel` steps.
pub open spec fn leads_to_root(pred: Seq<Option<usize>>, v: usize, fuel: nat) -> bool
    decreases fuel,
{
    v < pred.len() && match pred[v as int] {
        Option::None => true,
        Option::Some(u) => fuel > 0 && leads_to_root(pred, u, (fuel - 1) as nat),
    }
}

/// The predecessor chain of `v` terminates: it is acyclic and stays inside
/// the map.
pub open spec fn rooted(pred: Seq<Option<usize>>, v: usize) -> bool {
    exists|fuel: nat| leads_to_root(pred, v, fuel)
}

/// The chain of predecessors of `v`, listed from its root to `v` itself,
/// followed with bounded lookahead.
pub open spec fn pred_chain(pred: Seq<Option<usize>>, v: usize, fuel: nat) -> Seq<usize>
    decreases fuel,
{
    if v < pred.len() {
        match pred[v as int] {
            Option::None => seq![v],
            Option::Some(u) => if fuel > 0 {
                pred_chain(pred, u, (fuel - 1) as nat).push(v)
            } else {
                seq![v]
            },
        }
    } else {
        seq![v]
    }
}

/// The chain of predecessors of `v`, listed from its root to `v` itself.
/// Meaningful whenever `rooted(pred, v)` holds.
pub open spec fn chain(pred: Seq<Option<usize>>, v: usize) -> Seq<usize> {
    pred_chain(pred, v, choose|fuel: nat| leads_to_root(pred, v, fuel))
}

pub proof fn lemma_leads_mono(pred: Seq<Option<usize>>, v: usize, f1: nat, f2: nat)
    requires
        leads_to_root(pred, v, f1),
        f1 <= f2,
    ensures
        leads_to_root(pred, v, f2),
    decreases f1,
{
    match pred[v as int] {
        Option::None => {},
        Option::Some(u) => {
            lemma_leads_mono(pred, u, (f1 - 1) as nat, (f2 - 1) as nat);
        },
    }
}

proof fn lemma_chain_stable(pred: Seq<Option<usize>>, v: usize, f1: nat, f2: nat)
    requires
        leads_to_root(pred, v, f1),
        f1 <= f2,
    ensures
        pred_chain(pred, v, f2) == pred_chain(pred, v, f1),
    decreases f1,
{
    match pred[v as int] {
        Option::None => {},
        Option::Some(u) => {
            lemma_chain_stable(pred, u, (f1 - 1) as nat, (f2 - 1) as nat);
        },
    }
}

/// Any terminating lookahead computes the canonical chain.
pub proof fn lemma_chain_fuel(pred: Seq<Option<usize>>, v: usize, fuel: nat)
    requires
        leads_to_root(pred, v, fuel),
    ensures
        chain(pred, v) == pred_chain(pred, v, fuel),
{
    let cf = choose|f: nat| leads_to_root(pred, v, f);
    if cf <= fuel {
        lemma_chain_stable(pred, v, cf, fuel);
    } else {
        lemma_chain_stable(pred, v, fuel, cf);
    }
}

/// A chain always ends at the vertex it was asked about.
pub proof fn lemma_chain_last(pred: Seq<Option<usize>>, v: usize, fuel: nat)
    ensures
        pred_chain(pred, v, fuel).len() >= 1,
        pred_chain(pred, v, fuel)[pred_chain(pred, v, fuel).len() - 1] == v,
{
}

/// One step of the canonical chain.
pub proof fn lemma_chain_unfold(pred: Seq<Option<usize>>, v: usize, u: usize, fuel: nat)
    requires
        leads_to_root(pred, v, fuel),
        pred[v as int] == Some(u),
    ensures
        rooted(pred, u),
        chain(pred, v) == chain(pred, u).push(v),
        chain(pred, v).len() >= 2,
    decreases fuel,
{
    assert(leads_to_root(pred, u, (fuel - 1) as nat));
    lemma_chain_fuel(pred, v, fuel);
    lemma_chain_fuel(pred, u, (fuel - 1) as nat);
    lemma_chain_last(pred, u, (fuel - 1) as nat);
}

/// The chain of a vertex with no predecessor is that vertex alone.
pub proof fn lemma_chain_root(pred: Seq<Option<usize>>, v: usize)
    requires
        v < pred.len(),
        pred[v as int] is None,
    ensures
        rooted(pred, v),
        chain(pred, v) == seq![v],
{
    assert(leads_to_root(pred, v, 0));
    lemma_chain_fuel(pred, v, 0);
}

/// Rewriting the predecessor of a vertex that a chain never passes through
/// leaves that chain unchanged.
proof fn lemma_chain_avoids_update(
    pred: Seq<Option<usize>>,
    w: usize,
    nv: Option<usize>,
    x: usize,
    fuel: nat,
)
    requires
        leads_to_root(pred, x, fuel),
        w < pred.len(),
        forall|i: int|
            0 <= i < pred_chain(pred, x, fuel).len() ==> pred_chain(pred, x, fuel)[i] != w,
    ensures
        leads_to_root(pred.update(w as int, nv), x, fuel),
        pred_chain(pred.update(w as int, nv), x, fuel) == pred_chain(pred, x, fuel),
    decreases fuel,
{
    lemma_chain_last(pred, x, fuel);
    match pred[x as int] {
        Option::None => {},
        Option::Some(u) => {
            lemma_chain_last(pred, u, (fuel - 1) as nat);
            assert forall|i: int|
                0 <= i < pred_chain(pred, u, (fuel - 1) as nat).len() implies (#[trigger] pred_chain(
                pred,
                u,
                (fuel - 1) as nat,
            )[i]) != w by {
                assert(pred_chain(pred, x, fuel)[i] != w);
            }
            lemma_chain_avoids_update(pred, w, nv, u, (fuel - 1) as nat);
        },
    }
}

/// After a predecessor entry is rewritten, every vertex whose chain used to
/// terminate still terminates, provided the rewritten vertex itself does
/// under the new map.
proof fn lemma_rooted_after_update(
    pred: Seq<Option<usize>>,
    w: usize,
    nv: Option<usize>,
    x: usize,
    fuel: nat,
    fw: nat,
)
    requires
        leads_to_root(pred, x, fuel),
        w < pred.len(),
        leads_to_root(pred.update(w as int, nv), w, fw),
    ensures
        leads_to_root(pred.update(w as int, nv), x, fuel + fw),
    decreases fuel,
{
    let pred2 = pred.update(w as int, nv);
    if x == w {
        lemma_leads_mono(pred2, w, fw, fuel + fw);
    } else {
        match pred[x as int] {
            Option::None => {},
            Option::Some(u) => {
                lemma_rooted_after_update(pred, w, nv, u, (fuel - 1) as nat, fw);
                lemma_leads_mono(pred2, u, ((fuel - 1) as nat) + fw, (fuel + fw - 1) as nat);
            },
        }
    }
}

/// When every recorded predecessor is a visited vertex, the chain of a
/// visited vertex passes through visited vertices only.
proof fn lemma_chain_elems_visited(
    pred: Seq<Option<usize>>,
    visited: Seq<bool>,
    x: usize,
    fuel: nat,
)
    requires
        visited.len() == pred.len(),
        forall|y: int|
            0 <= y < pred.len() && (#[trigger] pred[y]) is Some ==> pred[y]->0 < pred.len()
                && visited[pred[y]->0 as int],
        x < pred.len(),
        visited[x as int],
        leads_to_root(pred, x, fuel),
    ensures
        forall|i: int|
            0 <= i < pred_chain(pred, x, fuel).len() ==> (#[trigger] pred_chain(pred, x, fuel)[i])
                < pred.len() && visited[pred_chain(pred, x, fuel)[i] as int],
    decreases fuel,
{
    match pred[x as int] {
        Option::None => {},
        Option::Some(u) => {
            lemma_chain_elems_visited(pred, visited, u, (fuel - 1) as nat);
            let cu = pred_chain(pred, u, (fuel - 1) as nat);
            let cx = pred_chain(pred, x, fuel);
            assert(cx == cu.push(x));
            assert forall|i: int| 0 <= i < cx.len() implies (#[trigger] cx[i]) < pred.len()
                && visited[cx[i] as int] by {
                if i < cu.len() {
                    assert(cu[i] < pred.len() && visited[cu[i] as int]);
                }
            }
        },
    }
}

/// When every recorded predecessor sits at most as far from the start as
/// the vertex it leads to, a chain never passes a vertex placed farther than
/// its own end, and passes recorded vertices only.
proof fn lemma_chain_elems_dist(
    pred: Seq<Option<usize>>,
    dist: Seq<Option<u64>>,
    x: usize,
    fuel: nat,
)
    requires
        dist.len() == pred.len(),
        forall|y: int|
            0 <= y < pred.len() && (#[trigger] pred[y]) is Some ==> pred[y]->0 < pred.len()
                && dist[y] is Some && dist[pred[y]->0 as int] is Some && dist[pred[y]->0 as int]->0
                <= dist[y]->0,
        x < pred.len(),
        dist[x as int] is Some,
        leads_to_root(pred, x, fuel),
    ensures
        forall|i: int|
            0 <= i < pred_chain(pred, x, fuel).len() ==> (#[trigger] pred_chain(pred, x, fuel)[i])
                < pred.len() && dist[pred_chain(pred, x, fuel)[i] as int] is Some
                && dist[pred_chain(pred, x, fuel)[i] as int]->0 <= dist[x as int]->0,
    decreases fuel,
{
    match pred[x as int] {
        Option::None => {},
        Option::Some(u) => {
            lemma_chain_elems_dist(pred, dist, u, (fuel - 1) as nat);
            let cu = pred_chain(pred, u, (fuel - 1) as nat);
            let cx = pred_chain(pred, x, fuel);
            assert(cx == cu.push(x));
            assert forall|i: int|
                0 <= i < cx.len() implies (#[trigger] cx[i]) < pred.len() && dist[cx[i] as int] is Some
                && dist[cx[i] as int]->0 <= dist[x as int]->0 by {
                if i < cu.len() {
                    assert(dist[cu[i] as int]->0 <= dist[u as int]->0);
                }
            }
        },
    }
}

/// How many vertices have no recorded distance yet.
pub closed spec fn count_undiscovered(s: Seq<Option<u64>>) -> nat
    decreases s.len(),
{
    if s.len() == 0 {
        0
    } else {
        count_undiscovered(s.drop_last()) + if s.last() is Some {
            0nat
        } else {
            1nat
        }
    }
}

proof fn lemma_count_undiscovered_discover(s: Seq<Option<u64>>, i: int, d: u64)
    requires
        0 <= i < s.len(),
        s[i] is None,
    ensures
        count_undiscovered(s.update(i, Some(d))) < count_undiscovered(s),
    decreases s.len(),
{
    let s2 = s.update(i, Some(d));
    if i == s.len() - 1 {
        assert(s2.drop_last() =~= s.drop_last());
    } else {
        assert(s2.drop_last() =~= s.drop_last().update(i, Some(d)));
        lemma_count_undiscovered_discover(s.drop_last(), i, d);
    }
}

proof fn lemma_count_undiscovered_improve(s: Seq<Option<u64>>, i: int, d: u64)
    requires
        0 <= i < s.len(),
        s[i] is Some,
    ensures
        count_undiscovered(s.update(i, Some(d))) == count_undiscovered(s),
    decreases s.len(),
{
    let s2 = s.update(i, Some(d));
    if i == s.len() - 1 {
        assert(s2.drop_last() =~= s.drop_last());
    } else {
        assert(s2.drop_last() =~= s.drop_last().update(i, Some(d)));
        lemma_count_undiscovered_improve(s.drop_last(), i, d);
    }
}

/// In a predecessor map whose entries record real graph edges and whose
/// parents all trace back to `start`, the chain of any recorded vertex is a
/// walk of the graph from `start` to that vertex.
proof fn lemma_chain_connects(
    g: Graph,
    pred: Seq<Option<usize>>,
    start: usize,
    v: usize,
    fuel: nat,
)
    requires
        start < pred.len(),
        pred[start as int] is None,
        forall|x: int|
            0 <= x < pred.len() && (#[trigger] pred[x]) is Some ==> pred[x]->0 < pred.len()
                && g.has_edge(pred[x]->0, x as usize) && (pred[x]->0 == start || pred[pred[x]->0 as int] is Some),
        v < pred.len(),
        v == start || pred[v as int] is Some,
        leads_to_root(pred, v, fuel),
    ensures
        connects(g, start, v, chain(pred, v)),
    decreases fuel,
{
    match pred[v as int] {
        Option::None => {
            lemma_chain_root(pred, v);
        },
        Option::Some(u) => {
            lemma_chain_connects(g, pred, start, u, (fuel - 1) as nat);
            lemma_chain_unfold(pred, v, u, fuel);
            lemma_connects_extend(g, start, u, v, chain(pred, u));
        },
    }
}

/// Walks the predecessor map backward from `end` and returns the vertices
/// strictly between the root of the chain and `end`, in walk order from the
/// root toward `end`.  Mirrors how both search engines read the map they
/// build: the root (the search's start vertex) and `end` itself are both
/// left out of the result.
pub fn get_path_from_connections(end: usize, connections: &Vec<Option<usize>>) -> (r: Result<
    Vec<usize>,
    PathNotFound,
>)
    requires
        end < connections@.len(),
        rooted(connections@, end),
    ensures
        r is Ok,
        r->Ok_0@ == interior(chain(connections@, end)),
{
    let ghost cfull = chain(connections@, end);
    let ghost mut fuel: nat = choose|f: nat| leads_to_root(connections@, end, f);
    let ghost mut j: int = cfull.len() - 1;
    let mut ret: Vec<usize> = Vec::new();
    let mut c: usize = end;
    proof {
        lemma_chain_fuel(connections@, end, fuel);
        lemma_chain_last(connections@, end, fuel);
        assert(cfull.subrange(0, cfull.len() as int) =~= cfull);
    }
    while connections[c].is_some()
        invariant
            c < connections@.len(),
            leads_to_root(connections@, c, fuel),
            cfull == chain(connections@, end),
            0 <= j < cfull.len(),
            cfull[j] == c,
            chain(connections@, c) == cfull.subrange(0, j + 1),
            cfull.len() >= 2 ==> ret@.len() == cfull.len() - 1 - (if j == 0 { 1int } else { j }),
            cfull.len() < 2 ==> ret@.len() == 0,
            forall|k: int| 0 <= k < ret@.len() ==> ret@[k] == cfull[cfull.len() - 2 - k],
        decreases fuel,
    {
        let n = connections[c].unwrap();
        proof {
            lemma_chain_unfold(connections@, c, n, fuel);
            let fn2 = choose|f: nat| leads_to_root(connections@, n, f);
            lemma_chain_fuel(connections@, n, fn2);
            // the chain of `n` is the next shorter prefix
            assert(chain(connections@, n) =~= cfull.subrange(0, j));
            lemma_chain_last(connections@, n, fn2);
            assert(cfull[j - 1] == n);
        }
        if connections[n].is_some() {
            proof {
                // `n` is not the root, so its chain has at least two entries
                assert(leads_to_root(connections@, n, (fuel - 1) as nat));
                lemma_chain_unfold(connections@, n, connections@[n as int]->0, (fuel - 1) as nat);
            }
            ret.push(n);
        } else {
            proof {
                lemma_chain_root(connections@, n);
                assert(cfull.subrange(0, j) =~= seq![n]);
            }
        }
        c = n;
        proof {
            fuel = (fuel - 1) as nat;
            j = j - 1;
        }
    }
    proof {
        lemma_chain_root(connections@, c);
        assert(cfull.subrange(0, j + 1) =~= seq![c]);
    }
    // reverse the collected chain into root-to-end order
    let mut out: Vec<usize> = Vec::new();
    let mut i: usize = ret.len();
    while i > 0
        invariant
            i <= ret@.len(),
            out@.len() == ret@.len() - i,
            forall|k: int| 0 <= k < out@.len() ==> out@[k] == ret@[ret@.len() - 1 - k],
        decreases i,
    {
        i = i - 1;
        let x = ret[i];
        out.push(x);
    }
    proof {
        assert(out@ =~= interior(cfull));
    }
    Ok(out)
}

fn filled<T: Copy>(n: usize, val: T) -> (r: Vec<T>)
    ensures
        r@.len() == n,
        forall|i: int| 0 <= i < n ==> r@[i] == val,
{
    let mut r: Vec<T> = Vec::new();
    let mut i: usize = 0;
    while i < n
        invariant
            i <= n,
            r@.len() == i,
            forall|k: int| 0 <= k < i ==> r@[k] == val,
        decreases n - i,
    {
        r.push(val);
        i = i + 1;
    }
    r
}

/// How many entries of a visited table are still clear.
pub closed spec fn count_unvisited(s: Seq<bool>) -> nat
    decreases s.len(),
{
    if s.len() == 0 {
        0
    } else {
        count_unvisited(s.drop_last()) + if s.last() {
            0nat
        } else {
            1nat
        }
    }
}

proof fn lemma_count_unvisited_update(s: Seq<bool>, i: int)
    requires
        0 <= i < s.len(),
        !s[i],
    ensures
        count_unvisited(s.update(i, true)) < count_unvisited(s),
    decreases s.len(),
{
    let s2 = s.update(i, true);
    if i == s.len() - 1 {
        assert(s2.drop_last() =~= s.drop_last());
    } else {
        assert(s2.drop_last() =~= s.drop_last().update(i, true));
        lemma_count_unvisited_update(s.drop_last(), i);
    }
}

/// Depth-first traversal from `start` to `end` over the edges of `g`,
/// ignoring weights.  Returns the intermediate vertices of some walk from
/// `start` to `end` (endpoints excluded), or `PathNotFound` exactly when no
/// walk exists.  The path is not required to be shortest.
pub fn depth_first_search(g: &Graph, start: usize, end: usize) -> (r: Result<
    Vec<usize>,
    PathNotFound,
>)
    requires
        g.wf(),
        start < g.vertex_count(),
        end < g.vertex_count(),
    ensures
        match r {
            Ok(p) => reachable(*g, start, end) && (exists|full: Seq<usize>|
                connects(*g, start, end, full) && p@ == interior(full)) && (start == end
                ==> p@ == Seq::<usize>::empty()),
            Err(_) => !reachable(*g, start, end),
        },
        start == end ==> r is Ok,
{
    let n = g.adj.len();
    let mut stack: Vec<usize> = Vec::new();
    let mut visited: Vec<bool> = filled(n, false);
    let mut connections: Vec<Option<usize>> = filled(n, None);
    stack.push(start);
    while stack.len() > 0
        invariant
            g.wf(),
            start < n,
            end < n,
            n == g.adj@.len(),
            visited@.len() == n,
            connections@.len() == n,
            connections@[start as int] is None,
            !visited@[start as int] ==> stack@ =~= seq![start] && (forall|v: int|
                0 <= v < n ==> !visited@[v] && connections@[v] is None),
            start == end ==> stack@ =~= seq![start],
            !visited@[end as int],
            forall|i: int|
                0 <= i < stack@.len() ==> (#[trigger] stack@[i]) < n && (stack@[i] == start
                    || connections@[stack@[i] as int] is Some),
            forall|x: int|
                0 <= x < n && (#[trigger] connections@[x]) is Some ==> connections@[x]->0 < n
                    && g.has_edge(connections@[x]->0, x as usize) && (connections@[x]->0 == start
                    || connections@[connections@[x]->0 as int] is Some)
                    && visited@[connections@[x]->0 as int],
            forall|x: int|
                0 <= x < n && (#[trigger] connections@[x]) is Some ==> rooted(
                    connections@,
                    x as usize,
                ),
            forall|u: usize, v: usize|
                u < n && visited@[u as int] && #[trigger] g.has_edge(u, v) ==> visited@[v as int]
                    || stack@.contains(v),
        decreases count_unvisited(visited@), stack@.len(),
    {
        let ghost old_stack = stack@;
        let ghost old_visited = visited@;
        let current = stack.pop().unwrap();
        if current == end {
            proof {
                if connections@[end as int] is None {
                    lemma_chain_root(connections@, end);
                }
                let f = choose|f: nat| leads_to_root(connections@, end, f);
                lemma_chain_connects(*g, connections@, start, end, f);
                if start == end {
                    lemma_chain_root(connections@, end);
                }
            }
            let res = get_path_from_connections(end, &connections);
            proof {
                let full = chain(connections@, end);
                assert(connects(*g, start, end, full));
                assert(reachable(*g, start, end));
            }
            return res;
        }
        proof {
            assert(start != end);
            if !visited@[start as int] {
                assert(old_stack[0] == start);
                assert(current == start);
            }
        }
        if !visited[current] {
            visited[current] = true;
            proof {
                lemma_count_unvisited_update(old_visited, current as int);
                // the popped copy of `current` is no longer needed: it is visited now
                assert forall|u: usize, v: usize|
                    u < n && visited@[u as int] && #[trigger] g.has_edge(u, v) implies visited@[v as int]
                    || stack@.contains(v) || g.has_edge(current, v) by {
                    if u != current && !visited@[v as int] {
                        assert(old_visited[u as int]);
                        assert(old_visited[v as int] || old_stack.contains(v));
                        assert(v != current);
                        let i = choose|i: int| 0 <= i < old_stack.len() && old_stack[i] == v;
                        assert(old_stack[old_stack.len() - 1] == current);
                        assert(i < old_stack.len() - 1);
                        assert(stack@[i] == v);
                    }
                }
            }
            let deg = g.adj[current].len();
            let mut i: usize = 0;
            while i < deg
                invariant
                    g.wf(),
                    start < n,
                    end < n,
                    n == g.adj@.len(),
                    visited@.len() == n,
                    connections@.len() == n,
                    current < n,
                    current != end,
                    visited@[current as int],
                    visited@[start as int],
                    deg == g.adj@[current as int]@.len(),
                    i <= deg,
                    count_unvisited(visited@) < count_unvisited(old_visited),
                    current == start || connections@[current as int] is Some,
                    connections@[start as int] is None,
                    !visited@[end as int],
                    forall|j: int|
                        0 <= j < stack@.len() ==> (#[trigger] stack@[j]) < n && (stack@[j] == start
                            || connections@[stack@[j] as int] is Some),
                    forall|x: int|
                        0 <= x < n && (#[trigger] connections@[x]) is Some ==> connections@[x]->0
                            < n && g.has_edge(connections@[x]->0, x as usize) && (connections@[x]->0
                            == start || connections@[connections@[x]->0 as int] is Some)
                            && visited@[connections@[x]->0 as int],
                    forall|x: int|
                        0 <= x < n && (#[trigger] connections@[x]) is Some ==> rooted(
                            connections@,
                            x as usize,
                        ),
                    forall|u: usize, v: usize|
                        u < n && visited@[u as int] && #[trigger] g.has_edge(u, v) ==> visited@[v
                            as int] || stack@.contains(v) || g.has_edge(current, v),
                    forall|j: int|
                        0 <= j < i ==> {
                            let t = (#[trigger] g.adj@[current as int]@[j]).0;
                            visited@[t as int] || stack@.contains(t)
                        },
                decreases deg - i,
            {
                let e = g.adj[current][i];
                let v = e.0;
                proof {
                    assert(g.adj@[current as int]@[i as int].0 == v);
                    assert(v < n);
                    assert(g.has_edge(current, v));
                }
                if !visited[v] {
                    let ghost p_old = connections@;
                    let ghost p_new = connections@.update(v as int, Some(current));
                    let ghost pre_push = stack@;
                    stack.push(v);
                    connections[v] = Some(current);
                    proof {
                        assert(connections@ == p_new);
                        assert(v != current);
                        // `current` is either the start or a recorded vertex, so its
                        // chain terminates under the old map
                        if p_old[current as int] is None {
                            lemma_chain_root(p_old, current);
                        }
                        let fc = choose|f: nat| leads_to_root(p_old, current, f);
                        lemma_chain_elems_visited(p_old, visited@, current, fc);
                        lemma_chain_avoids_update(p_old, v, Some(current), current, fc);
                        assert(leads_to_root(p_new, current, fc));
                        assert(leads_to_root(p_new, v, fc + 1));
                        assert forall|x: int|
                            0 <= x < n && (#[trigger] p_new[x]) is Some implies rooted(
                            p_new,
                            x as usize,
                        ) by {
                            if x == v {
                                assert(leads_to_root(p_new, v, fc + 1));
                            } else {
                                assert(p_old[x] is Some);
                                let fx = choose|f: nat| #[trigger] leads_to_root(p_old, x as usize, f);
                                lemma_rooted_after_update(
                                    p_old,
                                    v,
                                    Some(current),
                                    x as usize,
                                    fx,
                                    fc + 1,
                                );
                            }
                        }
                        assert forall|x: int|
                            0 <= x < n && (#[trigger] p_new[x]) is Some implies p_new[x]->0 < n
                            && g.has_edge(p_new[x]->0, x as usize) && (p_new[x]->0 == start
                            || p_new[p_new[x]->0 as int] is Some) && visited@[p_new[x]->0 as int] by {
                            if x == v {
                                assert(p_new[x]->0 == current);
                            } else {
                                assert(p_old[x] is Some);
                                let u = p_old[x]->0;
                                assert(u == start || p_old[u as int] is Some);
                                if u != v {
                                    assert(p_new[u as int] == p_old[u as int]);
                                }
                            }
                        }
                        // pushing kept every earlier stack entry
                        assert forall|w: usize| pre_push.contains(w) implies stack@.contains(
                            w,
                        ) by {
                            let wi = choose|wi: int|
                                0 <= wi < pre_push.len() && pre_push[wi] == w;
                            assert(stack@[wi] == w);
                        }
                        assert(stack@[stack@.len() - 1] == v);
                    }
                }
                i = i + 1;
            }
            proof {
                // every successor of `current` is now discovered or pending
                assert forall|u: usize, v: usize|
                    u < n && visited@[u as int] && #[trigger] g.has_edge(u, v) implies visited@[v
                    as int] || stack@.contains(v) by {
                    if !visited@[v as int] && !stack@.contains(v) {
                        assert(g.has_edge(current, v));
                        let j = choose|j: int|
                            0 <= j < g.adj@[current as int]@.len() && (#[trigger] g.adj@[current
                                as int]@[j]).0 == v;
                        assert(visited@[(g.adj@[current as int]@[j]).0 as int]
                            || stack@.contains((g.adj@[current as int]@[j]).0));
                    }
                }
            }
        } else {
            proof {
                // `current` was expanded earlier; dropping this copy loses nothing
                assert forall|u: usize, v: usize|
                    u < n && visited@[u as int] && #[trigger] g.has_edge(u, v) implies visited@[v as int]
                    || stack@.contains(v) by {
                    if !visited@[v as int] {
                        assert(old_stack.contains(v));
                        assert(v != current);
                        let i = choose|i: int| 0 <= i < old_stack.len() && old_stack[i] == v;
                        assert(old_stack[old_stack.len() - 1] == current);
                        assert(i < old_stack.len() - 1);
                        assert(stack@[i] == v);
                    }
                }
            }
        }
    }
    proof {
        assert(visited@[start as int]);
        let closed = Set::new(|v: usize| v < n && visited@[v as int]);
        assert forall|u: usize, v: usize|
            closed.contains(u) && #[trigger] g.has_edge(u, v) implies closed.contains(v) by {
            let j = choose|j: int|
                0 <= j < g.adj@[u as int]@.len() && (#[trigger] g.adj@[u as int]@[j]).0 == v;
            assert(v < n);
            assert(visited@[v as int] || stack@.contains(v));
        }
        lemma_closed_set_unreachable(*g, start, end, closed);
    }
    Err(PathNotFound)
}

/// Round trip through a predecessor map: when the map records a known chain
/// of insertions `vs` (each vertex pointing back at the one inserted before
/// it, the first having no predecessor), following the links backward from
/// the last vertex recovers exactly the reversed insertions, so the
/// reconstructed chain is `vs` itself and `get_path_from_connections`
/// returns its interior.
pub proof fn lemma_chain_round_trip(pred: Seq<Option<usize>>, vs: Seq<usize>)
    requires
        vs.len() >= 1,
        forall|i: int| 0 <= i < vs.len() ==> (#[trigger] vs[i]) < pred.len(),
        pred[vs[0] as int] is None,
        forall|i: int| 1 <= i < vs.len() ==> pred[(#[trigger] vs[i]) as int] == Some(vs[i - 1]),
    ensures
        rooted(pred, vs.last()),
        chain(pred, vs.last()) == vs,
    decreases vs.len(),
{
    let v = vs.last();
    if vs.len() == 1 {
        lemma_chain_root(pred, v);
        assert(chain(pred, v) =~= vs);
    } else {
        let vs2 = vs.drop_last();
        assert forall|i: int| 1 <= i < vs2.len() implies pred[(#[trigger] vs2[i]) as int] == Some(
            vs2[i - 1],
        ) by {
            assert(pred[vs[i] as int] == Some(vs[i - 1]));
        }
        lemma_chain_round_trip(pred, vs2);
        let u = vs[vs.len() - 2];
        assert(vs2.last() == u);
        assert(pred[v as int] == Some(u));
        let f = choose|f: nat| leads_to_root(pred, u, f);
        assert(leads_to_root(pred, v, f + 1));
        lemma_chain_unfold(pred, v, u, f + 1);
        assert(chain(pred, u).push(v) =~= vs);
    }
}

/// The walk recorded by the predecessor map costs no more than the recorded
/// distance of its end, as long as that distance has not saturated.
proof fn lemma_chain_cost(
    g: Graph,
    pred: Seq<Option<usize>>,
    dist: Seq<Option<u64>>,
    wmap: Seq<u64>,
    v: usize,
    fuel: nat,
)
    requires
        dist.len() == pred.len(),
        wmap.len() == pred.len(),
        forall|y: int|
            0 <= y < pred.len() && (#[trigger] pred[y]) is Some ==> pred[y]->0 < pred.len()
                && dist[y] is Some && dist[pred[y]->0 as int] is Some && dist[pred[y]->0 as int]->0
                <= dist[y]->0 && edge_with(g, pred[y]->0, y as usize, wmap[y]) && (dist[y]->0
                == u64::MAX || dist[pred[y]->0 as int]->0 + wmap[y] <= dist[y]->0),
        v < pred.len(),
        dist[v as int] is Some,
        leads_to_root(pred, v, fuel),
    ensures
        exists|ws: Seq<u64>|
            #[trigger] walk_costs(g, pred_chain(pred, v, fuel), ws) && (dist[v as int]->0
                < u64::MAX ==> weight_sum(ws) <= dist[v as int]->0),
    decreases fuel,
{
    match pred[v as int] {
        Option::None => {
            let ws = Seq::<u64>::empty();
            assert(walk_costs(g, pred_chain(pred, v, fuel), ws));
        },
        Option::Some(u) => {
            lemma_chain_cost(g, pred, dist, wmap, u, (fuel - 1) as nat);
            let cu = pred_chain(pred, u, (fuel - 1) as nat);
            let wsu = choose|ws: Seq<u64>|
                #[trigger] walk_costs(g, cu, ws) && (dist[u as int]->0 < u64::MAX ==> weight_sum(
                    ws,
                ) <= dist[u as int]->0);
            let w = wmap[v as int];
            let ws = wsu.push(w);
            lemma_chain_last(pred, u, (fuel - 1) as nat);
            let cv = pred_chain(pred, v, fuel);
            assert(cv == cu.push(v));
            assert forall|k: int| 0 <= k < ws.len() implies #[trigger] edge_with(
                g,
                cv[k],
                cv[k + 1],
                ws[k],
            ) by {
                if k < wsu.len() {
                    assert(edge_with(g, cu[k], cu[k + 1], wsu[k]));
                }
            }
            assert(walk_costs(g, cv, ws));
            lemma_weight_sum_push(wsu, w);
        },
    }
}

/// Once the cheapest frontier member costs `dmin`, every walk from the start
/// to a finalized vertex costs at least that vertex's recorded distance, and
/// every walk from the start to anywhere else costs at least `dmin`.
proof fn lemma_walk_lower_bound(
    g: Graph,
    dist: Seq<Option<u64>>,
    popped: Set<usize>,
    start: usize,
    dmin: u64,
    p: Seq<usize>,
    ws: Seq<u64>,
    x: usize,
)
    requires
        start < dist.len(),
        dist[start as int] == Some(0u64),
        forall|v: usize| #[trigger]
            popped.contains(v) ==> v < dist.len() && dist[v as int] is Some && dist[v as int]->0
                <= dmin,
        forall|u: usize, i: int|
            #[trigger] popped.contains(u) && 0 <= i < g.adj@[u as int]@.len() ==> (#[trigger] g.adj@[
                u as int]@[i]).0 < dist.len() && dist[g.adj@[u as int]@[i].0 as int] is Some
                && dist[g.adj@[u as int]@[i].0 as int]->0 <= dist[u as int]->0 + g.adj@[u
                as int]@[i].1,
        forall|v: usize|
            v < dist.len() && (#[trigger] dist[v as int]) is Some && !popped.contains(v) ==> dmin
                <= dist[v as int]->0,
        walk_costs(g, p, ws),
        p.len() >= 1,
        p[0] == start,
        p[p.len() - 1] == x,
    ensures
        popped.contains(x) ==> weight_sum(ws) >= dist[x as int]->0,
        !popped.contains(x) ==> weight_sum(ws) >= dmin,
    decreases p.len(),
{
    if p.len() == 1 {
        if !popped.contains(start) {
            assert(dmin <= dist[start as int]->0);
        }
    } else {
        let y = p[p.len() - 2];
        let p2 = p.drop_last();
        let ws2 = ws.drop_last();
        assert(walk_costs(g, p2, ws2)) by {
            assert forall|k: int| 0 <= k < ws2.len() implies #[trigger] edge_with(
                g,
                p2[k],
                p2[k + 1],
                ws2[k],
            ) by {
                assert(edge_with(g, p[k], p[k + 1], ws[k]));
            }
        }
        lemma_walk_lower_bound(g, dist, popped, start, dmin, p2, ws2, y);
        let w = ws[ws.len() - 1];
        assert(edge_with(g, y, x, w));
        lemma_weight_sum_push(ws2, w);
        assert(ws2.push(w) =~= ws);
        if popped.contains(y) {
            let i = choose|i: int|
                0 <= i < g.adj@[y as int]@.len() && #[trigger] g.adj@[y as int]@[i] == (x, w);
            assert(dist[x as int] is Some && dist[x as int]->0 <= dist[y as int]->0 + w);
            if !popped.contains(x) {
                assert(dmin <= dist[x as int]->0);
            }
        } else {
            if popped.contains(x) {
                assert(dist[x as int]->0 <= dmin);
            }
        }
    }
}

/// Uniform-cost (Dijkstra-style) search from `start` to `end` over the
/// weighted edges of `g`.  The frontier member with the smallest recorded
/// distance is expanded first, and a relaxation rewrites a recorded distance
/// only when it strictly improves it; distance sums saturate at `u64::MAX`,
/// which keeps addition closed over the weight type.  Returns the
/// intermediate vertices of a walk from `start` to `end` (endpoints
/// excluded), or `PathNotFound` exactly when no walk exists.
#[verifier::rlimit(100)]
pub fn dijkstra(g: &Graph, start: usize, end: usize) -> (r: Result<Vec<usize>, PathNotFound>)
    requires
        g.wf(),
        start < g.vertex_count(),
        end < g.vertex_count(),
    ensures
        match r {
            Ok(p) => reachable(*g, start, end) && (exists|full: Seq<usize>, ws: Seq<u64>|
                connects(*g, start, end, full) && p@ == interior(full) && walk_costs(
                    *g,
                    full,
                    ws,
                ) && (forall|p2: Seq<usize>, ws2: Seq<u64>|
                    #[trigger] walk_costs(*g, p2, ws2) && p2.len() >= 1 && p2[0] == start && p2[p2.len()
                        - 1] == end ==> weight_sum(ws2) >= weight_sum(ws) || weight_sum(ws2)
                        >= u64::MAX)) && (start == end ==> p@ == Seq::<usize>::empty()),
            Err(_) => !reachable(*g, start, end),
        },
        start == end ==> r is Ok,
{
    let n = g.adj.len();
    let mut distances: Vec<Option<u64>> = filled(n, None);
    let mut unvisited: Vec<usize> = Vec::new();
    let mut connections: Vec<Option<usize>> = filled(n, None);
    let ghost mut popped: Set<usize> = Set::empty();
    let ghost mut wmap: Seq<u64> = Seq::new(n as nat, |i: int| 0u64);
    distances[start] = Some(0u64);
    unvisited.push(start);
    proof {
        assert(unvisited@[0] == start);
        assert(unvisited@.contains(start));
        assert forall|x: usize, w: usize|
            x < n && distances@[x as int] is Some && #[trigger] g.has_edge(x, w) implies distances@[w
            as int] is Some || unvisited@.contains(x) by {
            assert(x == start);
        }
    }
    while unvisited.len() > 0
        invariant
            g.wf(),
            start < n,
            end < n,
            n == g.adj@.len(),
            distances@.len() == n,
            connections@.len() == n,
            distances@[start as int] == Some(0u64),
            connections@[start as int] is None,
            forall|x: int|
                0 <= x < n ==> ((#[trigger] connections@[x]) is Some <==> (distances@[x] is Some
                    && x != start)),
            start == end ==> unvisited@ =~= seq![start],
            distances@[end as int] is Some ==> unvisited@.contains(end),
            forall|i: int|
                0 <= i < unvisited@.len() ==> (#[trigger] unvisited@[i]) < n
                    && distances@[unvisited@[i] as int] is Some,
            forall|x: int|
                0 <= x < n && (#[trigger] connections@[x]) is Some ==> connections@[x]->0 < n
                    && g.has_edge(connections@[x]->0, x as usize) && (connections@[x]->0 == start
                    || connections@[connections@[x]->0 as int] is Some) && distances@[x] is Some
                    && distances@[connections@[x]->0 as int] is Some
                    && distances@[connections@[x]->0 as int]->0 <= distances@[x]->0,
            forall|x: int|
                0 <= x < n && (#[trigger] connections@[x]) is Some ==> rooted(
                    connections@,
                    x as usize,
                ),
            forall|x: usize, w: usize|
                x < n && distances@[x as int] is Some && #[trigger] g.has_edge(x, w)
                    ==> distances@[w as int] is Some || unvisited@.contains(x),
            forall|x: usize|
                x < n && (#[trigger] distances@[x as int]) is Some ==> unvisited@.contains(x)
                    || popped.contains(x),
            forall|u: usize, i: int|
                #[trigger] popped.contains(u) && 0 <= i < g.adj@[u as int]@.len() ==> (
                #[trigger] g.adj@[u as int]@[i]).0 < n && distances@[g.adj@[u as int]@[i].0
                    as int] is Some && distances@[g.adj@[u as int]@[i].0 as int]->0 <= distances@[u
                    as int]->0 + g.adj@[u as int]@[i].1,
            forall|u: usize|
                #[trigger] popped.contains(u) ==> u < n && distances@[u as int] is Some && (forall|
                    j: int,
                |
                    0 <= j < unvisited@.len() ==> distances@[u as int]->0 <= distances@[(
                    #[trigger] unvisited@[j]) as int]->0),
            forall|j: int| 0 <= j < unvisited@.len() ==> !popped.contains(#[trigger] unvisited@[j]),
            forall|j1: int, j2: int|
                0 <= j1 < j2 < unvisited@.len() ==> unvisited@[j1] != unvisited@[j2],
            wmap.len() == n,
            forall|x: int|
                0 <= x < n && (#[trigger] connections@[x]) is Some ==> edge_with(
                    *g,
                    connections@[x]->0,
                    x as usize,
                    wmap[x],
                ) && (distances@[x]->0 == u64::MAX || distances@[connections@[x]->0 as int]->0
                    + wmap[x] <= distances@[x]->0),
        decreases count_undiscovered(distances@), unvisited@.len(),
    {
        // extract the frontier member with the smallest recorded distance,
        // breaking ties in favour of the earliest-pushed member
        let mut best: usize = 0;
        let mut bi: usize = 1;
        while bi < unvisited.len()
            invariant
                unvisited@.len() > 0,
                bi <= unvisited@.len(),
                best < unvisited@.len(),
                distances@.len() == n,
                forall|i: int|
                    0 <= i < unvisited@.len() ==> (#[trigger] unvisited@[i]) < n
                        && distances@[unvisited@[i] as int] is Some,
                forall|j: int|
                    0 <= j < bi ==> distances@[unvisited@[best as int] as int]->0 <= distances@[(
                    #[trigger] unvisited@[j]) as int]->0,
            decreases unvisited@.len() - bi,
        {
            let ub = unvisited[best];
            let uj = unvisited[bi];
            let db = distances[ub].unwrap();
            let dj = distances[uj].unwrap();
            if dj < db {
                best = bi;
            }
            bi = bi + 1;
        }
        let ghost old_frontier = unvisited@;
        let ghost old_dist = distances@;
        let current = unvisited.swap_remove(best);
        proof {
            assert(current < n && distances@[current as int] is Some);
            assert forall|w: usize| old_frontier.contains(w) && w != current implies unvisited@.contains(
                w,
            ) by {
                let wi = choose|wi: int| 0 <= wi < old_frontier.len() && old_frontier[wi] == w;
                if wi == old_frontier.len() - 1 {
                    assert(unvisited@[best as int] == w);
                } else {
                    assert(unvisited@[wi] == w);
                }
            }
            // each remaining member was already in the frontier, so the
            // extracted member is still the cheapest, and the frontier keeps
            // holding distinct, unfinalized vertices other than `current`
            assert(old_frontier[best as int] == current);
            assert forall|j: int| 0 <= j < unvisited@.len() implies distances@[current as int]->0
                <= distances@[(#[trigger] unvisited@[j]) as int]->0 && unvisited@[j] != current
                && !popped.contains(unvisited@[j]) by {
                if j == best {
                    assert(unvisited@[j] == old_frontier[old_frontier.len() - 1]);
                } else {
                    assert(unvisited@[j] == old_frontier[j]);
                }
            }
            assert forall|j1: int, j2: int|
                0 <= j1 < j2 < unvisited@.len() implies unvisited@[j1] != unvisited@[j2] by {
                if j1 == best {
                    assert(unvisited@[j1] == old_frontier[old_frontier.len() - 1]);
                    assert(unvisited@[j2] == old_frontier[j2]);
                } else if j2 == best {
                    assert(unvisited@[j2] == old_frontier[old_frontier.len() - 1]);
                    assert(unvisited@[j1] == old_frontier[j1]);
                }
            }
            assert forall|u: usize| #[trigger] popped.contains(u) implies distances@[u as int]->0
                <= distances@[current as int]->0 by {
                assert(distances@[u as int]->0 <= distances@[old_frontier[best as int] as int]->0);
            }
        }
        if current == end {
            proof {
                if connections@[end as int] is None {
                    lemma_chain_root(connections@, end);
                }
                let f = choose|f: nat| leads_to_root(connections@, end, f);
                lemma_chain_connects(*g, connections@, start, end, f);
                if start == end {
                    lemma_chain_root(connections@, end);
                }
                // no walk into `end` beats its recorded distance now
                let dmin = distances@[end as int]->0;
                assert forall|v: usize|
                    v < n && (#[trigger] distances@[v as int]) is Some && !popped.contains(v)
                    implies dmin <= distances@[v as int]->0 by {
                    assert(old_frontier.contains(v));
                    let j = choose|j: int| 0 <= j < old_frontier.len() && old_frontier[j] == v;
                    assert(distances@[old_frontier[best as int] as int]->0 <= distances@[(
                    old_frontier[j]) as int]->0);
                }
                assert forall|p2: Seq<usize>, ws2: Seq<u64>|
                    #[trigger] walk_costs(*g, p2, ws2) && p2.len() >= 1 && p2[0] == start && p2[p2.len()
                        - 1] == end implies weight_sum(ws2) >= dmin by {
                    lemma_walk_lower_bound(*g, distances@, popped, start, dmin, p2, ws2, end);
                }
            }
            let res = get_path_from_connections(end, &connections);
            proof {
                let full = chain(connections@, end);
                assert(connects(*g, start, end, full));
                assert(reachable(*g, start, end));
                // the recorded walk to `end` costs no more than its recorded
                // distance, which no walk beats
                let dmin = distances@[end as int]->0;
                let f = choose|f: nat| leads_to_root(connections@, end, f);
                lemma_chain_fuel(connections@, end, f);
                lemma_chain_cost(*g, connections@, distances@, wmap, end, f);
                let ws = choose|ws: Seq<u64>|
                    #[trigger] walk_costs(*g, pred_chain(connections@, end, f), ws) && (distances@[
                    end as int]->0 < u64::MAX ==> weight_sum(ws) <= distances@[end as int]->0);
                assert(walk_costs(*g, full, ws));
                assert forall|p2: Seq<usize>, ws2: Seq<u64>|
                    #[trigger] walk_costs(*g, p2, ws2) && p2.len() >= 1 && p2[0] == start && p2[p2.len()
                        - 1] == end implies weight_sum(ws2) >= weight_sum(ws) || weight_sum(ws2)
                    >= u64::MAX by {
                    assert(weight_sum(ws2) >= dmin);
                    if dmin < u64::MAX {
                        assert(weight_sum(ws) <= dmin);
                    }
                }
            }
            return res;
        }
        proof {
            assert(start != end);
        }
        let node_distance = distances[current].unwrap();
        let ghost count0 = count_undiscovered(distances@);
        let ghost len0 = unvisited@.len();
        let deg = g.adj[current].len();
        let mut i: usize = 0;
        while i < deg
            invariant
                g.wf(),
                start < n,
                end < n,
                n == g.adj@.len(),
                distances@.len() == n,
                connections@.len() == n,
                current < n,
                current != end,
                start != end,
                distances@[current as int] == Some(node_distance),
                distances@[start as int] == Some(0u64),
                connections@[start as int] is None,
                current == start || connections@[current as int] is Some,
                deg == g.adj@[current as int]@.len(),
                i <= deg,
                forall|x: int|
                    0 <= x < n ==> ((#[trigger] connections@[x]) is Some <==> (distances@[x] is Some
                        && x != start)),
                distances@[end as int] is Some ==> unvisited@.contains(end),
                forall|i2: int|
                    0 <= i2 < unvisited@.len() ==> (#[trigger] unvisited@[i2]) < n
                        && distances@[unvisited@[i2] as int] is Some,
                forall|x: int|
                    0 <= x < n && (#[trigger] connections@[x]) is Some ==> connections@[x]->0 < n
                        && g.has_edge(connections@[x]->0, x as usize) && (connections@[x]->0
                        == start || connections@[connections@[x]->0 as int] is Some)
                        && distances@[x] is Some && distances@[connections@[x]->0 as int] is Some
                        && distances@[connections@[x]->0 as int]->0 <= distances@[x]->0,
                forall|x: int|
                    0 <= x < n && (#[trigger] connections@[x]) is Some ==> rooted(
                        connections@,
                        x as usize,
                    ),
                forall|x: usize, w: usize|
                    x < n && distances@[x as int] is Some && #[trigger] g.has_edge(x, w)
                        ==> distances@[w as int] is Some || unvisited@.contains(x) || x == current,
                forall|j: int|
                    0 <= j < i ==> distances@[(#[trigger] g.adj@[current as int]@[j]).0 as int] is Some
                        && distances@[g.adj@[current as int]@[j].0 as int]->0 <= node_distance
                        + g.adj@[current as int]@[j].1,
                count_undiscovered(distances@) < count0 || (count_undiscovered(distances@)
                    == count0 && unvisited@.len() == len0),
                forall|u: usize|
                    #[trigger] popped.contains(u) ==> u < n && distances@[u as int] is Some
                        && distances@[u as int]->0 <= node_distance,
                forall|u: usize, i2: int|
                    #[trigger] popped.contains(u) && 0 <= i2 < g.adj@[u as int]@.len() ==> (
                    #[trigger] g.adj@[u as int]@[i2]).0 < n && distances@[g.adj@[u as int]@[i2].0
                        as int] is Some && distances@[g.adj@[u as int]@[i2].0 as int]->0
                        <= distances@[u as int]->0 + g.adj@[u as int]@[i2].1,
                forall|j: int|
                    0 <= j < unvisited@.len() ==> node_distance <= distances@[(
                    #[trigger] unvisited@[j]) as int]->0 && unvisited@[j] != current
                        && !popped.contains(unvisited@[j]),
                forall|j1: int, j2: int|
                    0 <= j1 < j2 < unvisited@.len() ==> unvisited@[j1] != unvisited@[j2],
                forall|x: usize|
                    x < n && (#[trigger] distances@[x as int]) is Some ==> unvisited@.contains(x)
                        || popped.contains(x) || x == current,
                wmap.len() == n,
                forall|x: int|
                    0 <= x < n && (#[trigger] connections@[x]) is Some ==> edge_with(
                        *g,
                        connections@[x]->0,
                        x as usize,
                        wmap[x],
                    ) && (distances@[x]->0 == u64::MAX || distances@[connections@[x]->0 as int]->0
                        + wmap[x] <= distances@[x]->0),
            decreases deg - i,
        {
            let e = g.adj[current][i];
            let v = e.0;
            let w = e.1;
            proof {
                assert(g.adj@[current as int]@[i as int].0 == v);
                assert(v < n);
                assert(g.has_edge(current, v));
            }
            let nd = if node_distance <= u64::MAX - w {
                node_distance + w
            } else {
                u64::MAX
            };
            proof {
                assert(nd >= node_distance);
                assert(nd <= node_distance + w);
                assert(edge_with(*g, current, v, w)) by {
                    assert(g.adj@[current as int]@[i as int] == (v, w));
                }
            }
            match distances[v] {
                Some(dv) => {
                    if dv > nd {
                        let ghost p_old = connections@;
                        let ghost d_old = distances@;
                        let ghost p_new = p_old.update(v as int, Some(current));
                        distances[v] = Some(nd);
                        connections[v] = Some(current);
                        proof {
                            assert(v != current);
                            assert(v != start);
                            if p_old[current as int] is None {
                                lemma_chain_root(p_old, current);
                            }
                            let fc = choose|f: nat| leads_to_root(p_old, current, f);
                            lemma_chain_elems_dist(p_old, d_old, current, fc);
                            assert forall|ii: int|
                                0 <= ii < pred_chain(p_old, current, fc).len() implies (
                            #[trigger] pred_chain(p_old, current, fc)[ii]) != v by {
                                assert(d_old[pred_chain(p_old, current, fc)[ii] as int]->0
                                    <= d_old[current as int]->0);
                            }
                            lemma_chain_avoids_update(p_old, v, Some(current), current, fc);
                            assert(leads_to_root(p_new, current, fc));
                            assert(leads_to_root(p_new, v, fc + 1));
                            assert forall|x: int|
                                0 <= x < n && (#[trigger] p_new[x]) is Some implies rooted(
                                p_new,
                                x as usize,
                            ) by {
                                if x == v {
                                    assert(leads_to_root(p_new, v, fc + 1));
                                } else {
                                    assert(p_old[x] is Some);
                                    let fx = choose|f: nat|
                                        #[trigger] leads_to_root(p_old, x as usize, f);
                                    lemma_rooted_after_update(
                                        p_old,
                                        v,
                                        Some(current),
                                        x as usize,
                                        fx,
                                        fc + 1,
                                    );
                                }
                            }
                            assert forall|x: int|
                                0 <= x < n && (#[trigger] p_new[x]) is Some implies p_new[x]->0 < n
                                && g.has_edge(p_new[x]->0, x as usize) && (p_new[x]->0 == start
                                || p_new[p_new[x]->0 as int] is Some) && distances@[x] is Some
                                && distances@[p_new[x]->0 as int] is Some
                                && distances@[p_new[x]->0 as int]->0 <= distances@[x]->0 by {
                                if x == v {
                                    assert(p_new[x]->0 == current);
                                } else {
                                    assert(p_old[x] is Some);
                                    let u = p_old[x]->0;
                                    assert(u == start || p_old[u as int] is Some);
                                    if u != v {
                                        assert(p_new[u as int] == p_old[u as int]);
                                    }
                                }
                            }
                            lemma_count_undiscovered_improve(d_old, v as int, nd);
                            // only a frontier member can be improved: every
                            // finalized vertex already sits at or below the
                            // distance of the vertex being expanded
                            assert(!popped.contains(v));
                            assert forall|u: usize| #[trigger] popped.contains(u) implies distances@[u
                                as int] == d_old[u as int] by {
                                assert(u != v);
                            }
                            let wm_old = wmap;
                            wmap = wmap.update(v as int, w);
                            assert forall|x: int|
                                0 <= x < n && (#[trigger] p_new[x]) is Some implies edge_with(
                                *g,
                                p_new[x]->0,
                                x as usize,
                                wmap[x],
                            ) && (distances@[x]->0 == u64::MAX || distances@[p_new[x]->0 as int]->0
                                + wmap[x] <= distances@[x]->0) by {
                                if x != v {
                                    assert(p_old[x] is Some && wmap[x] == wm_old[x]);
                                }
                            }
                        }
                    }
                },
                None => {
                    let ghost p_old = connections@;
                    let ghost d_old = distances@;
                    let ghost p_new = p_old.update(v as int, Some(current));
                    let ghost pre_push = unvisited@;
                    connections[v] = Some(current);
                    distances[v] = Some(nd);
                    unvisited.push(v);
                    proof {
                        assert(v != current);
                        assert(v != start);
                        if p_old[current as int] is None {
                            lemma_chain_root(p_old, current);
                        }
                        let fc = choose|f: nat| leads_to_root(p_old, current, f);
                        lemma_chain_elems_dist(p_old, d_old, current, fc);
                        assert forall|ii: int|
                            0 <= ii < pred_chain(p_old, current, fc).len() implies (
                        #[trigger] pred_chain(p_old, current, fc)[ii]) != v by {
                            assert(d_old[pred_chain(p_old, current, fc)[ii] as int] is Some);
                        }
                        lemma_chain_avoids_update(p_old, v, Some(current), current, fc);
                        assert(leads_to_root(p_new, current, fc));
                        assert(leads_to_root(p_new, v, fc + 1));
                        assert forall|x: int|
                            0 <= x < n && (#[trigger] p_new[x]) is Some implies rooted(
                            p_new,
                            x as usize,
                        ) by {
                            if x == v {
                                assert(leads_to_root(p_new, v, fc + 1));
                            } else {
                                assert(p_old[x] is Some);
                                let fx = choose|f: nat|
                                    #[trigger] leads_to_root(p_old, x as usize, f);
                                lemma_rooted_after_update(
                                    p_old,
                                    v,
                                    Some(current),
                                    x as usize,
                                    fx,
                                    fc + 1,
                                );
                            }
                        }
                        assert forall|x: int|
                            0 <= x < n && (#[trigger] p_new[x]) is Some implies p_new[x]->0 < n
                            && g.has_edge(p_new[x]->0, x as usize) && (p_new[x]->0 == start
                            || p_new[p_new[x]->0 as int] is Some) && distances@[x] is Some
                            && distances@[p_new[x]->0 as int] is Some
                            && distances@[p_new[x]->0 as int]->0 <= distances@[x]->0 by {
                            if x == v {
                                assert(p_new[x]->0 == current);
                            } else {
                                assert(p_old[x] is Some);
                                let u = p_old[x]->0;
                                assert(u == start || p_old[u as int] is Some);
                                assert(d_old[u as int] is Some);
                                if u != v {
                                    assert(p_new[u as int] == p_old[u as int]);
                                }
                            }
                        }
                        lemma_count_undiscovered_discover(d_old, v as int, nd);
                        assert forall|w2: usize| pre_push.contains(w2) implies unvisited@.contains(
                            w2,
                        ) by {
                            let wi = choose|wi: int| 0 <= wi < pre_push.len() && pre_push[wi] == w2;
                            assert(unvisited@[wi] == w2);
                        }
                        assert(unvisited@[unvisited@.len() - 1] == v);
                        // the fresh vertex was neither finalized nor pending
                        assert(!popped.contains(v));
                        assert(v != current);
                        assert forall|u: usize| #[trigger] popped.contains(u) implies distances@[u
                            as int] == d_old[u as int] by {
                            assert(u != v);
                        }
                        assert forall|j1: int, j2: int|
                            0 <= j1 < j2 < unvisited@.len() implies unvisited@[j1] != unvisited@[
                        j2] by {
                            if j2 == unvisited@.len() - 1 {
                                assert(d_old[pre_push[j1] as int] is Some);
                            }
                        }
                        let wm_old = wmap;
                        wmap = wmap.update(v as int, w);
                        assert forall|x: int|
                            0 <= x < n && (#[trigger] p_new[x]) is Some implies edge_with(
                            *g,
                            p_new[x]->0,
                            x as usize,
                            wmap[x],
                        ) && (distances@[x]->0 == u64::MAX || distances@[p_new[x]->0 as int]->0
                            + wmap[x] <= distances@[x]->0) by {
                            if x != v {
                                assert(p_old[x] is Some && wmap[x] == wm_old[x]);
                            }
                        }
                    }
                },
            }
            i = i + 1;
        }
        proof {
            // every successor of `current` now has a recorded distance
            assert forall|x: usize, w: usize|
                x < n && distances@[x as int] is Some && #[trigger] g.has_edge(x, w) implies distances@[w
                as int] is Some || unvisited@.contains(x) by {
                if x == current && !(distances@[w as int] is Some) {
                    let j = choose|j: int|
                        0 <= j < g.adj@[current as int]@.len() && (#[trigger] g.adj@[current
                            as int]@[j]).0 == w;
                    assert(distances@[(g.adj@[current as int]@[j]).0 as int] is Some);
                }
            }
            // `current` is finalized: fully relaxed, and no cheaper frontier
            // member can appear behind it
            popped = popped.insert(current);
            assert forall|x: usize|
                x < n && (#[trigger] distances@[x as int]) is Some implies unvisited@.contains(x)
                || popped.contains(x) by {}
            assert forall|u: usize, i2: int|
                #[trigger] popped.contains(u) && 0 <= i2 < g.adj@[u as int]@.len() implies (
            #[trigger] g.adj@[u as int]@[i2]).0 < n && distances@[g.adj@[u as int]@[i2].0
                as int] is Some && distances@[g.adj@[u as int]@[i2].0 as int]->0 <= distances@[u
                as int]->0 + g.adj@[u as int]@[i2].1 by {
                if u == current {
                    assert(distances@[(g.adj@[current as int]@[i2]).0 as int] is Some
                        && distances@[(g.adj@[current as int]@[i2]).0 as int]->0 <= node_distance
                        + g.adj@[current as int]@[i2].1);
                }
            }
            assert forall|u: usize| #[trigger] popped.contains(u) implies u < n && distances@[u
                as int] is Some && (forall|j: int|
                0 <= j < unvisited@.len() ==> distances@[u as int]->0 <= distances@[(
                #[trigger] unvisited@[j]) as int]->0) by {
                assert forall|j: int|
                    0 <= j < unvisited@.len() implies distances@[u as int]->0 <= distances@[(
                #[trigger] unvisited@[j]) as int]->0 by {
                    assert(node_distance <= distances@[unvisited@[j] as int]->0);
                }
            }
            assert forall|j: int|
                0 <= j < unvisited@.len() implies !popped.contains(#[trigger] unvisited@[j]) by {
                assert(unvisited@[j] != current);
            }
        }
    }
    proof {
        let closed = Set::new(|v: usize| v < n && distances@[v as int] is Some);
        assert forall|u: usize, v: usize|
            closed.contains(u) && #[trigger] g.has_edge(u, v) implies closed.contains(v) by {
            let j = choose|j: int|
                0 <= j < g.adj@[u as int]@.len() && (#[trigger] g.adj@[u as int]@[j]).0 == v;
            assert(v < n);
            assert(distances@[v as int] is Some || unvisited@.contains(u));
        }
        lemma_closed_set_unreachable(*g, start, end, closed);
    }
    Err(PathNotFound)
}

} // verus!
