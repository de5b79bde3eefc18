//! Directed graphs as adjacency lists, with verified traversals.
//!
//! The traversals are specified against a reachability relation: the
//! vertices they report are exactly those reachable from the start vertex,
//! reported once each, starting with the start vertex itself.

use vstd::prelude::*;

verus! {

broadcast use vstd::seq_lib::group_seq_properties;

/// A directed edge to `to` with a weight.
#[derive(Debug, Clone, Copy)]
pub struct Edge {
    pub to: usize,
    pub weight: i32,
}

/// Adjacency-list graph over vertices `0 .. size()`.
#[derive(Debug)]
pub struct Graph {
    adj_list: Vec<Vec<Edge>>,
    num_vertices: usize,
}

/// Is there an edge from `u` to `v`?
pub open spec fn edge_step(g: Seq<Seq<Edge>>, u: int, v: int) -> bool {
    &&& 0 <= u < g.len()
    &&& exists|k: int| 0 <= k < g[u].len() && g[u][k].to == v
}

/// Is `p` a path through `g` (non-empty, consecutive vertices joined by
/// edges, all vertices in range)?
pub open spec fn is_path(g: Seq<Seq<Edge>>, p: Seq<int>) -> bool {
    &&& p.len() >= 1
    &&& (forall|i: int| 0 <= i < p.len() ==> 0 <= #[trigger] p[i] < g.len())
    &&& (forall|i: int| 0 <= i < p.len() - 1 ==> edge_step(g, #[trigger] p[i], p[i + 1]))
}

/// Is `v` reachable from `s` along edges of `g`?
pub open spec fn reachable(g: Seq<Seq<Edge>>, s: int, v: int) -> bool {
    exists|p: Seq<int>| is_path(g, p) && p.first() == s && p.last() == v
}

/// A vertex reaches itself by the one-vertex path.
pub proof fn lemma_reachable_self(g: Seq<Seq<Edge>>, s: int)
    requires
        0 <= s < g.len(),
    ensures
        reachable(g, s, s),
{
    let p = seq![s];
    assert(is_path(g, p) && p.first() == s && p.last() == s);
}

/// Reachability extends along one edge.
pub proof fn lemma_reachable_step(g: Seq<Seq<Edge>>, s: int, u: int, v: int)
    requires
        reachable(g, s, u),
        edge_step(g, u, v),
        0 <= v < g.len(),
    ensures
        reachable(g, s, v),
{
    let p = choose|p: Seq<int>| is_path(g, p) && p.first() == s && p.last() == u;
    let q = p.push(v);
    assert forall|i: int| 0 <= i < q.len() - 1 implies edge_step(g, #[trigger] q[i], q[i + 1]) by {
        if i < p.len() - 1 {
            assert(q[i] == p[i] && q[i + 1] == p[i + 1]);
        } else {
            assert(q[i] == u && q[i + 1] == v);
        }
    }
    assert(is_path(g, q) && q.first() == s && q.last() == v);
}

/// A set of vertices that contains `s` and is closed under out-edges
/// contains everything reachable from `s`. The set is given as the marking
/// `seen`.
pub proof fn lemma_closed_set_covers(g: Seq<Seq<Edge>>, seen: Seq<bool>, s: int, v: int)
    requires
        seen.len() == g.len(),
        0 <= s < g.len(),
        seen[s],
        forall|u: int, w: int|
            0 <= u < g.len() && 0 <= w < g.len() && seen[u] && #[trigger] edge_step(g, u, w)
                ==> seen[w],
        reachable(g, s, v),
        0 <= v < g.len(),
    ensures
        seen[v],
{
    let p = choose|p: Seq<int>| is_path(g, p) && p.first() == s && p.last() == v;
    lemma_path_stays_in_closed(g, seen, p);
}

proof fn lemma_path_stays_in_closed(g: Seq<Seq<Edge>>, seen: Seq<bool>, p: Seq<int>)
    requires
        seen.len() == g.len(),
        is_path(g, p),
        seen[p.first()],
        forall|u: int, w: int|
            0 <= u < g.len() && 0 <= w < g.len() && seen[u] && #[trigger] edge_step(g, u, w)
                ==> seen[w],
    ensures
        seen[p.last()],
    decreases p.len(),
{
    if p.len() > 1 {
        let q = p.drop_last();
        assert forall|i: int| 0 <= i < q.len() - 1 implies edge_step(g, #[trigger] q[i], q[i
            + 1]) by {
            assert(p[i] == q[i] && p[i + 1] == q[i + 1]);
        }
        assert(is_path(g, q));
        lemma_path_stays_in_closed(g, seen, q);
        assert(edge_step(g, p[p.len() - 2], p[p.len() - 1]));
    }
}

impl Graph {
    /// The adjacency structure: one edge list per vertex.
    pub closed spec fn edges(self) -> Seq<Seq<Edge>> {
        Seq::new(self.adj_list.len() as nat, |i: int| self.adj_list[i]@)
    }

    #[verifier::type_invariant]
    spec fn wf(self) -> bool {
        &&& self.adj_list.len() == self.num_vertices
        &&& forall|u: int, k: int|
            0 <= u < self.adj_list.len() && 0 <= k < self.adj_list[u]@.len()
                ==> (#[trigger] self.adj_list[u]@[k]).to < self.num_vertices
    }

    /// All stored edges point at vertices of the graph.
    pub open spec fn edges_in_range(self) -> bool {
        forall|u: int, k: int|
            0 <= u < self.edges().len() && 0 <= k < self.edges()[u].len()
                ==> (#[trigger] self.edges()[u][k]).to < self.edges().len()
    }

    /// A graph with `n` vertices and no edges.
    pub fn new(n: usize) -> (g: Graph)
        ensures
            g.edges().len() == n,
            forall|i: int| 0 <= i < n ==> #[trigger] g.edges()[i].len() == 0,
            g.edges_in_range(),
    {
        let mut adj_list: Vec<Vec<Edge>> = Vec::new();
        let mut i: usize = 0;
        while i < n
            invariant
                i <= n,
                adj_list.len() == i,
                forall|j: int| 0 <= j < i ==> #[trigger] adj_list[j]@.len() == 0,
            decreases n - i,
        {
            adj_list.push(Vec::new());
            i += 1;
        }
        Graph { adj_list, num_vertices: n }
    }

    /// Add a directed edge; out-of-range endpoints are ignored.
    pub fn add_edge(&mut self, from: usize, to: usize, weight: i32)
        ensures
            from < old(self).edges().len() && to < old(self).edges().len() ==> final(self).edges()
                =~= old(self).edges().update(
                from as int,
                old(self).edges()[from as int].push(Edge { to, weight }),
            ),
            !(from < old(self).edges().len() && to < old(self).edges().len()) ==> *final(self)
                == *old(self),
            final(self).edges().len() == old(self).edges().len(),
            final(self).edges_in_range(),
    {
        proof {
            use_type_invariant(&*self);
        }
        let n = self.num_vertices;
        if from < n && to < n {
            let mut tmp = Graph { adj_list: Vec::new(), num_vertices: 0 };
            core::mem::swap(self, &mut tmp);
            let mut adj_list = tmp.adj_list;
            let mut row = adj_list.remove(from);
            row.push(Edge { to, weight });
            adj_list.insert(from, row);
            *self = Graph { adj_list, num_vertices: n };
            proof {
                assert(final(self).edges() =~= old(self).edges().update(
                    from as int,
                    old(self).edges()[from as int].push(Edge { to, weight }),
                ));
            }
        }
    }

    /// Add the edge in both directions.
    pub fn add_undirected_edge(&mut self, u: usize, v: usize, weight: i32)
        ensures
            u < old(self).edges().len() && v < old(self).edges().len() ==> final(self).edges()
                =~= old(self).edges().update(
                u as int,
                old(self).edges()[u as int].push(Edge { to: v, weight }),
            ).update(
                v as int,
                old(self).edges().update(
                    u as int,
                    old(self).edges()[u as int].push(Edge { to: v, weight }),
                )[v as int].push(Edge { to: u, weight }),
            ),
            !(u < old(self).edges().len() && v < old(self).edges().len()) ==> *final(self) == *old(
                self,
            ),
            final(self).edges().len() == old(self).edges().len(),
            final(self).edges_in_range(),
    {
        self.add_edge(u, v, weight);
        self.add_edge(v, u, weight);
    }

    /// The out-edges of `vertex`.
    pub fn neighbors(&self, vertex: usize) -> (r: &[Edge])
        requires
            vertex < self.edges().len(),
        ensures
            r@ == self.edges()[vertex as int],
    {
        proof {
            use_type_invariant(self);
        }
        self.adj_list[vertex].as_slice()
    }

    /// Number of vertices.
    pub fn size(&self) -> (n: usize)
        ensures
            n == self.edges().len(),
    {
        proof {
            use_type_invariant(self);
        }
        self.num_vertices
    }
}

/// The contract shared by the traversals: `order` lists each vertex
/// reachable from `start` exactly once, beginning with `start`.
pub open spec fn traversal_post(g: Seq<Seq<Edge>>, start: usize, order: Seq<usize>) -> bool {
    &&& order.len() >= 1 && order[0] == start
    &&& (forall|i: int, j: int| 0 <= i < j < order.len() ==> order[i] != order[j])
    &&& (forall|i: int| 0 <= i < order.len() ==> (#[trigger] order[i]) < g.len())
    &&& (forall|v: usize| v < g.len() ==> (order.contains(v) <==> reachable(g, start as int, v as int)))
}

/// Breadth-first traversal from `start`, visiting each reachable vertex
/// once in order of discovery.
pub fn bfs(graph: &Graph, start: usize) -> (order: Vec<usize>)
    requires
        start < graph.edges().len(),
    ensures
        traversal_post(graph.edges(), start, order@),
{
    proof {
        use_type_invariant(graph);
    }
    let ghost g = graph.edges();
    let n = graph.size();
    let mut visited: Vec<bool> = Vec::new();
    let mut i: usize = 0;
    while i < n
        invariant
            i <= n,
            visited.len() == i,
            forall|j: int| 0 <= j < i ==> !(#[trigger] visited[j]),
        decreases n - i,
    {
        visited.push(false);
        i += 1;
    }
    let mut queue: std::collections::VecDeque<usize> = std::collections::VecDeque::new();
    let mut order: Vec<usize> = Vec::new();

    visited.set(start, true);
    queue.push_back(start);
    proof {
        lemma_reachable_self(g, start as int);
        assert(queue@ =~= seq![start]);
        assert forall|v: int|
            0 <= v < n implies (visited[v] <==> (order@.contains(v as usize) || queue@.contains(
            v as usize,
        ))) by {
            if visited[v] {
                assert(v == start);
                assert(queue@[0] == start);
            }
            if queue@.contains(v as usize) {
                let i = choose|i: int| 0 <= i < queue@.len() && queue@[i] == v as usize;
                assert(v == start);
            }
        }
    }

    while queue.len() > 0
        invariant
            graph.wf(),
            g == graph.edges(),
            start < n,
            n == g.len(),
            visited.len() == n,
            forall|v: int| 0 <= v < n ==> (visited[v] <==> (order@.contains(v as usize)
                || queue@.contains(v as usize))),
            forall|i: int| 0 <= i < order@.len() ==> (#[trigger] order@[i]) < n,
            forall|i: int| 0 <= i < queue@.len() ==> (#[trigger] queue@[i]) < n,
            forall|i: int, j: int| 0 <= i < j < order@.len() ==> order@[i] != order@[j],
            forall|i: int, j: int| 0 <= i < j < queue@.len() ==> queue@[i] != queue@[j],
            forall|i: int, j: int|
                0 <= i < order@.len() && 0 <= j < queue@.len() ==> order@[i] != queue@[j],
            order@.len() == 0 ==> queue@ =~= seq![start],
            order@.len() > 0 ==> order@[0] == start,
            forall|i: int|
                0 <= i < order@.len() ==> reachable(g, start as int, (#[trigger] order@[i]) as int),
            forall|i: int|
                0 <= i < queue@.len() ==> reachable(g, start as int, (#[trigger] queue@[i]) as int),
            forall|i: int, w: int|
                0 <= i < order@.len() && 0 <= w < n && edge_step(g, order@[i] as int, w)
                    ==> visited[w],
        decreases (seq_count_false(visited@) + queue@.len()),
    {
        let ghost pre_queue = queue@;
        let ghost pre_visited = visited@;
        let vertex = queue.pop_front().unwrap();
        order.push(vertex);
        proof {
            assert(pre_queue[0] == vertex);
            assert(queue@ =~= pre_queue.drop_first());
            assert forall|v: int|
                0 <= v < n implies (visited[v] <==> (order@.contains(v as usize)
                || queue@.contains(v as usize))) by {
                if visited[v] {
                    if pre_queue.contains(v as usize) {
                        let i = choose|i: int| 0 <= i < pre_queue.len() && pre_queue[i] == (
                        v as usize);
                        if i == 0 {
                            assert(order@[order@.len() - 1] == v as usize);
                        } else {
                            assert(queue@[i - 1] == v as usize);
                        }
                    }
                }
                if queue@.contains(v as usize) {
                    let i = choose|i: int| 0 <= i < queue@.len() && queue@[i] == v as usize;
                    assert(pre_queue[i + 1] == v as usize);
                }
                if order@.contains(v as usize) {
                    let i = choose|i: int| 0 <= i < order@.len() && order@[i] == v as usize;
                }
            }
        }

        let edge_count = graph.adj_list[vertex].len();
        let mut k: usize = 0;
        while k < edge_count
            invariant
                graph.wf(),
                g == graph.edges(),
                start < n,
                n == g.len(),
                vertex < n,
                edge_count == g[vertex as int].len(),
                visited.len() == n,
                reachable(g, start as int, vertex as int),
                order@.len() >= 1,
                order@[order@.len() - 1] == vertex,
                forall|v: int| 0 <= v < n ==> (visited[v] <==> (order@.contains(v as usize)
                    || queue@.contains(v as usize))),
                forall|i: int| 0 <= i < order@.len() ==> (#[trigger] order@[i]) < n,
                forall|i: int| 0 <= i < queue@.len() ==> (#[trigger] queue@[i]) < n,
                forall|i: int, j: int| 0 <= i < j < order@.len() ==> order@[i] != order@[j],
                forall|i: int, j: int| 0 <= i < j < queue@.len() ==> queue@[i] != queue@[j],
                forall|i: int, j: int|
                    0 <= i < order@.len() && 0 <= j < queue@.len() ==> order@[i] != queue@[j],
                order@[0] == start,
                forall|i: int|
                    0 <= i < order@.len() ==> reachable(
                        g,
                        start as int,
                        (#[trigger] order@[i]) as int,
                    ),
                forall|i: int|
                    0 <= i < queue@.len() ==> reachable(
                        g,
                        start as int,
                        (#[trigger] queue@[i]) as int,
                    ),
                forall|i: int, w: int|
                    0 <= i < order@.len() - 1 && 0 <= w < n && edge_step(g, order@[i] as int, w)
                        ==> visited[w],
                forall|j: int|
                    0 <= j < k ==> visited[(#[trigger] g[vertex as int][j]).to as int],
                // progress: no vertex becomes unvisited, and the queue only
                // grows by newly visited vertices
                forall|v: int| 0 <= v < n && pre_visited[v] ==> visited[v],
                seq_count_false(visited@) + queue@.len() <= seq_count_false(pre_visited)
                    + pre_queue.len() - 1,
            decreases edge_count - k,
        {
            let e_to = graph.adj_list[vertex][k].to;
            proof {
                assert(g[vertex as int][k as int].to == e_to);
                assert(edge_step(g, vertex as int, e_to as int)) by {
                    assert(0 <= k < g[vertex as int].len() && g[vertex as int][k as int].to
                        == e_to);
                }
            }
            if !visited[e_to] {
                let ghost vis_before = visited@;
                visited.set(e_to, true);
                queue.push_back(e_to);
                proof {
                    lemma_count_false_set(vis_before, e_to as int);
                    lemma_reachable_step(g, start as int, vertex as int, e_to as int);
                }
            }
            k += 1;
        }
    }

    proof {
        // the queue is empty: everything visited is in `order`, which is
        // closed under edges, so it holds exactly the reachable vertices
        assert forall|v: usize|
            v < g.len() implies (order@.contains(v) <==> reachable(
            g,
            start as int,
            v as int,
        )) by {
            if order@.contains(v) {
                let i = choose|i: int| 0 <= i < order@.len() && order@[i] == v;
                assert(reachable(g, start as int, order@[i] as int));
            }
            if reachable(g, start as int, v as int) {
                assert forall|u: int, w: int|
                    0 <= u < g.len() && 0 <= w < g.len() && visited@[u] && #[trigger] edge_step(
                        g,
                        u,
                        w,
                    ) implies visited@[w] by {
                    assert(order@.contains(u as usize) || queue@.contains(u as usize));
                    let i = choose|i: int| 0 <= i < order@.len() && order@[i] == u as usize;
                    assert(edge_step(g, order@[i] as int, w));
                }
                lemma_closed_set_covers(g, visited@, start as int, v as int);
                assert(order@.contains(v) || queue@.contains(v));
            }
        }
    }
    order
}


/// Fewer markings never lowers the count of unmarked entries.
proof fn lemma_count_false_monotone(s1: Seq<bool>, s2: Seq<bool>)
    requires
        s1.len() == s2.len(),
        forall|v: int| 0 <= v < s1.len() && s1[v] ==> s2[v],
    ensures
        seq_count_false(s2) <= seq_count_false(s1),
    decreases s1.len(),
{
    if s1.len() > 0 {
        lemma_count_false_monotone(s1.drop_last(), s2.drop_last());
    }
}

/// An entry marked on one side only makes the count strictly smaller.
proof fn lemma_count_false_strict(s1: Seq<bool>, s2: Seq<bool>, v: int)
    requires
        s1.len() == s2.len(),
        forall|w: int| 0 <= w < s1.len() && s1[w] ==> s2[w],
        0 <= v < s1.len(),
        !s1[v],
        s2[v],
    ensures
        seq_count_false(s2) < seq_count_false(s1),
    decreases s1.len(),
{
    if v == s1.len() - 1 {
        lemma_count_false_monotone(s1.drop_last(), s2.drop_last());
    } else {
        lemma_count_false_strict(s1.drop_last(), s2.drop_last(), v);
    }
}

/// Depth-first traversal from `start` using an explicit stack, visiting
/// each reachable vertex once.
pub fn dfs_iterative(graph: &Graph, start: usize) -> (order: Vec<usize>)
    requires
        start < graph.edges().len(),
    ensures
        traversal_post(graph.edges(), start, order@),
{
    proof {
        use_type_invariant(graph);
    }
    let ghost g = graph.edges();
    let n = graph.size();
    let mut visited: Vec<bool> = Vec::new();
    let mut i: usize = 0;
    while i < n
        invariant
            i <= n,
            visited.len() == i,
            forall|j: int| 0 <= j < i ==> !(#[trigger] visited[j]),
        decreases n - i,
    {
        visited.push(false);
        i += 1;
    }
    let mut stack: Vec<usize> = Vec::new();
    stack.push(start);
    let mut order: Vec<usize> = Vec::new();
    proof {
        lemma_reachable_self(g, start as int);
    }

    while stack.len() > 0
        invariant
            graph.wf(),
            g == graph.edges(),
            start < n,
            n == g.len(),
            visited.len() == n,
            forall|v: int| 0 <= v < n ==> (visited[v] <==> order@.contains(v as usize)),
            forall|i: int| 0 <= i < order@.len() ==> (#[trigger] order@[i]) < n,
            forall|i: int| 0 <= i < stack@.len() ==> (#[trigger] stack@[i]) < n,
            forall|i: int, j: int| 0 <= i < j < order@.len() ==> order@[i] != order@[j],
            order@.len() == 0 ==> stack@ =~= seq![start],
            order@.len() > 0 ==> order@[0] == start,
            forall|i: int|
                0 <= i < order@.len() ==> reachable(g, start as int, (#[trigger] order@[i]) as int),
            forall|i: int|
                0 <= i < stack@.len() ==> reachable(g, start as int, (#[trigger] stack@[i]) as int),
            forall|i: int, w: int|
                0 <= i < order@.len() && 0 <= w < n && edge_step(g, order@[i] as int, w)
                    ==> (visited[w] || stack@.contains(w as usize)),
        decreases seq_count_false(visited@), stack@.len(),
    {
        let ghost pre_stack = stack@;
        let ghost pre_visited = visited@;
        let vertex = stack.pop().unwrap();

        if !visited[vertex] {
            visited.set(vertex, true);
            order.push(vertex);
            proof {
                lemma_count_false_strict(pre_visited, visited@, vertex as int);
            }

            let edge_count = graph.adj_list[vertex].len();
            let mut k: usize = edge_count;
            while k > 0
                invariant
                    graph.wf(),
                    g == graph.edges(),
                    start < n,
                    n == g.len(),
                    vertex < n,
                    edge_count == g[vertex as int].len(),
                    k <= edge_count,
                    visited.len() == n,
                    visited@ == pre_visited.update(vertex as int, true),
                    reachable(g, start as int, vertex as int),
                    order@.len() >= 1,
                    order@[order@.len() - 1] == vertex,
                    order@[0] == start,
                    forall|v: int| 0 <= v < n ==> (visited[v] <==> order@.contains(v as usize)),
                    forall|i: int| 0 <= i < order@.len() ==> (#[trigger] order@[i]) < n,
                    forall|i: int| 0 <= i < stack@.len() ==> (#[trigger] stack@[i]) < n,
                    forall|i: int, j: int| 0 <= i < j < order@.len() ==> order@[i] != order@[j],
                    forall|i: int|
                        0 <= i < order@.len() ==> reachable(
                            g,
                            start as int,
                            (#[trigger] order@[i]) as int,
                        ),
                    forall|i: int|
                        0 <= i < stack@.len() ==> reachable(
                            g,
                            start as int,
                            (#[trigger] stack@[i]) as int,
                        ),
                    forall|i: int, w: int|
                        0 <= i < order@.len() - 1 && 0 <= w < n && edge_step(g, order@[i] as int, w)
                            ==> (visited[w] || stack@.contains(w as usize)),
                    forall|j: int|
                        k <= j < edge_count ==> (visited[(#[trigger] g[vertex as int][j]).to as int]
                            || stack@.contains(g[vertex as int][j].to)),
                    forall|i: int| 0 <= i < pre_stack.len() - 1 ==> stack@.contains(
                        #[trigger] pre_stack[i],
                    ),
                decreases k,
            {
                k -= 1;
                let e_to = graph.adj_list[vertex][k].to;
                proof {
                    assert(g[vertex as int][k as int].to == e_to);
                    assert(edge_step(g, vertex as int, e_to as int)) by {
                        assert(0 <= k < g[vertex as int].len() && g[vertex as int][k as int].to
                            == e_to);
                    }
                }
                if !visited[e_to] {
                    let ghost st = stack@;
                    stack.push(e_to);
                    proof {
                        lemma_reachable_step(g, start as int, vertex as int, e_to as int);
                        assert(forall|i: int|
                            0 <= i < st.len() ==> stack@[i] == #[trigger] st[i]);
                    }
                }
            }
            proof {
                // any neighbour obligation that pointed at a popped copy of
                // `vertex` is now discharged by `visited[vertex]`
                assert forall|i: int, w: int|
                    0 <= i < order@.len() && 0 <= w < n && edge_step(g, order@[i] as int, w)
                        implies (visited[w] || stack@.contains(w as usize)) by {
                    if i < order@.len() - 1 && !visited[w] {
                        assert(pre_visited[w] || pre_stack.contains(w as usize));
                        let t = choose|t: int| 0 <= t < pre_stack.len() && pre_stack[t] == (
                        w as usize);
                        assert(t < pre_stack.len() - 1 || pre_stack[t] == vertex);
                        assert(stack@.contains(w as usize));
                    }
                }
            }
        } else {
            proof {
                assert forall|i: int, w: int|
                    0 <= i < order@.len() && 0 <= w < n && edge_step(g, order@[i] as int, w)
                        implies (visited[w] || stack@.contains(w as usize)) by {
                    if !visited[w] {
                        let t = choose|t: int| 0 <= t < pre_stack.len() && pre_stack[t] == (
                        w as usize);
                        assert(t < pre_stack.len() - 1 || pre_stack[t] == vertex);
                        assert(stack@ =~= pre_stack.drop_last());
                    }
                }
            }
        }
    }

    proof {
        assert forall|v: usize|
            v < g.len() implies (order@.contains(v) <==> reachable(
            g,
            start as int,
            v as int,
        )) by {
            if order@.contains(v) {
                let i = choose|i: int| 0 <= i < order@.len() && order@[i] == v;
                assert(reachable(g, start as int, order@[i] as int));
            }
            if reachable(g, start as int, v as int) {
                assert forall|u: int, w: int|
                    0 <= u < g.len() && 0 <= w < g.len() && visited@[u] && #[trigger] edge_step(
                        g,
                        u,
                        w,
                    ) implies visited@[w] by {
                    let i = choose|i: int| 0 <= i < order@.len() && order@[i] == u as usize;
                    assert(edge_step(g, order@[i] as int, w));
                }
                lemma_closed_set_covers(g, visited@, start as int, v as int);
            }
        }
    }
    order
}

/// Depth-first traversal from `start` by recursion, visiting each reachable
/// vertex once.
pub fn dfs_recursive(graph: &Graph, start: usize) -> (order: Vec<usize>)
    requires
        start < graph.edges().len(),
    ensures
        traversal_post(graph.edges(), start, order@),
{
    proof {
        use_type_invariant(graph);
    }
    let ghost g = graph.edges();
    let n = graph.size();
    let mut visited: Vec<bool> = Vec::new();
    let mut i: usize = 0;
    while i < n
        invariant
            i <= n,
            visited.len() == i,
            forall|j: int| 0 <= j < i ==> !(#[trigger] visited[j]),
        decreases n - i,
    {
        visited.push(false);
        i += 1;
    }
    let mut order: Vec<usize> = Vec::new();
    proof {
        lemma_reachable_self(g, start as int);
    }
    dfs_visit(graph, start, &mut visited, &mut order);

    proof {
        assert forall|v: usize|
            v < g.len() implies (order@.contains(v) <==> reachable(
            g,
            start as int,
            v as int,
        )) by {
            if order@.contains(v) {
                let i2 = choose|i2: int| 0 <= i2 < order@.len() && order@[i2] == v;
                assert(reachable(g, start as int, order@[i2] as int));
            }
            if reachable(g, start as int, v as int) {
                assert forall|u: int, w: int|
                    0 <= u < g.len() && 0 <= w < g.len() && visited@[u] && #[trigger] edge_step(
                        g,
                        u,
                        w,
                    ) implies visited@[w] by {
                    let i2 = choose|i2: int| 0 <= i2 < order@.len() && order@[i2] == u as usize;
                    assert(edge_step(g, order@[i2] as int, w));
                }
                lemma_closed_set_covers(g, visited@, start as int, v as int);
            }
        }
    }
    order
}

/// The recursive worker: mark `vertex`, report it, and descend into its
/// unvisited successors. On return every newly reported vertex is reachable
/// from `vertex` and has all its successors visited.
fn dfs_visit(graph: &Graph, vertex: usize, visited: &mut Vec<bool>, order: &mut Vec<usize>)
    requires
        vertex < graph.edges().len(),
        old(visited).len() == graph.edges().len(),
        !old(visited)[vertex as int],
        reachable(graph.edges(), vertex as int, vertex as int),
        forall|v: int|
            0 <= v < old(visited).len() ==> ((#[trigger] old(visited)[v]) <==> old(order)@.contains(v as usize)),
        forall|t: int| 0 <= t < old(order)@.len() ==> (#[trigger] old(order)@[t]) < graph.edges().len(),
        forall|t: int, u: int| 0 <= t < u < old(order)@.len() ==> old(order)@[t] != old(order)@[u],
    ensures
        final(visited).len() == old(visited).len(),
        forall|v: int| 0 <= v < old(visited).len() && old(visited)[v] ==> final(visited)[v],
        final(visited)[vertex as int],
        final(order)@.len() > old(order)@.len(),
        final(order)@.take(old(order)@.len() as int) == old(order)@,
        final(order)@[old(order)@.len() as int] == vertex,
        forall|v: int|
            0 <= v < final(visited).len() ==> ((#[trigger] final(visited)[v]) <==> final(order)@.contains(v as usize)),
        forall|t: int| 0 <= t < final(order)@.len() ==> (#[trigger] final(order)@[t]) < graph.edges().len(),
        forall|t: int, u: int| 0 <= t < u < final(order)@.len() ==> final(order)@[t] != final(order)@[u],
        forall|t: int, w: int|
            old(order)@.len() <= t < final(order)@.len() && 0 <= w < graph.edges().len()
                && edge_step(graph.edges(), final(order)@[t] as int, w) ==> final(visited)[w],
        forall|t: int|
            old(order)@.len() <= t < final(order)@.len() ==> reachable(
                graph.edges(),
                vertex as int,
                (#[trigger] final(order)@[t]) as int,
            ),
    decreases seq_count_false(old(visited)@), 0int,
{
    proof {
        use_type_invariant(graph);
    }
    let ghost g = graph.edges();
    let ghost entry_visited = visited@;
    let ghost entry_order = order@;
    visited.set(vertex, true);
    order.push(vertex);
    proof {
        lemma_count_false_strict(entry_visited, visited@, vertex as int);
        assert(order@.take(entry_order.len() as int) =~= entry_order);
    }

    let edge_count = graph.adj_list[vertex].len();
    let mut k: usize = 0;
    while k < edge_count
        invariant
            graph.wf(),
            g == graph.edges(),
            vertex < g.len(),
            edge_count == g[vertex as int].len(),
            k <= edge_count,
            visited.len() == g.len(),
            visited[vertex as int],
            entry_visited == old(visited)@,
            entry_visited.len() == g.len(),
            entry_order == old(order)@,
            seq_count_false(visited@) < seq_count_false(entry_visited),
            forall|v: int| 0 <= v < entry_visited.len() && entry_visited[v] ==> visited[v],
            order@.len() > entry_order.len(),
            order@.take(entry_order.len() as int) == entry_order,
            order@[entry_order.len() as int] == vertex,
            forall|v: int|
                0 <= v < visited.len() ==> ((#[trigger] visited[v]) <==> order@.contains(
                    v as usize,
                )),
            forall|t: int| 0 <= t < order@.len() ==> (#[trigger] order@[t]) < g.len(),
            forall|t: int, u: int| 0 <= t < u < order@.len() ==> order@[t] != order@[u],
            forall|t: int, w: int|
                entry_order.len() < t < order@.len() && 0 <= w < g.len() && edge_step(
                    g,
                    order@[t] as int,
                    w,
                ) ==> visited[w],
            forall|j: int| 0 <= j < k ==> visited[(#[trigger] g[vertex as int][j]).to as int],
            forall|t: int|
                entry_order.len() <= t < order@.len() ==> reachable(
                    g,
                    vertex as int,
                    (#[trigger] order@[t]) as int,
                ),
        decreases edge_count - k,
    {
        let e_to = graph.adj_list[vertex][k].to;
        proof {
            assert(edge_step(g, vertex as int, e_to as int)) by {
                assert(0 <= k < g[vertex as int].len() && g[vertex as int][k as int].to == e_to);
            }
        }
        if !visited[e_to] {
            proof {
                lemma_reachable_self(g, e_to as int);
            }
            let ghost mark = order@.len();
            let ghost pre_call = visited@;
            let ghost pre_order = order@;
            dfs_visit(graph, e_to, visited, order);
            proof {
                lemma_count_false_monotone(pre_call, visited@);
                assert forall|v: int|
                    0 <= v < entry_visited.len() && entry_visited[v] implies visited[v] by {
                    assert(pre_call[v]);
                }
                assert forall|t: int, w: int|
                    entry_order.len() < t < order@.len() && 0 <= w < g.len() && edge_step(
                        g,
                        order@[t] as int,
                        w,
                    ) implies visited[w] by {
                    if t < mark {
                        assert(order@.take(mark as int)[t] == order@[t]);
                        assert(order@[t] == pre_order[t]);
                        assert(pre_call[w as int]);
                    }
                }
                assert(order@.take(entry_order.len() as int) =~= order@.take(
                    mark as int,
                ).take(entry_order.len() as int));
                assert forall|t: int|
                    entry_order.len() <= t < order@.len() implies reachable(
                    g,
                    vertex as int,
                    (#[trigger] order@[t]) as int,
                ) by {
                    if t < mark {
                        assert(order@.take(mark as int)[t] == order@[t]);
                    } else {
                        lemma_reachable_step(g, vertex as int, vertex as int, e_to as int);
                        lemma_reachable_concat(g, vertex as int, e_to as int, order@[t] as int);
                    }
                }
            }
        }
        k += 1;
    }
}

/// Stitch two reachability witnesses together.
proof fn lemma_reachable_concat(g: Seq<Seq<Edge>>, a: int, b: int, c: int)
    requires
        reachable(g, a, b),
        reachable(g, b, c),
    ensures
        reachable(g, a, c),
{
    let p = choose|p: Seq<int>| is_path(g, p) && p.first() == a && p.last() == b;
    let q = choose|q: Seq<int>| is_path(g, q) && q.first() == b && q.last() == c;
    let r = p + q.drop_first();
    assert forall|i: int| 0 <= i < r.len() - 1 implies edge_step(g, #[trigger] r[i], r[i + 1]) by {
        if i < p.len() - 1 {
            assert(r[i] == p[i] && r[i + 1] == p[i + 1]);
        } else if i == p.len() - 1 {
            assert(q.len() > 1);
            assert(r[i] == p.last() && r[i + 1] == q[1]);
            assert(edge_step(g, q[0], q[1]));
        } else {
            assert(r[i] == q[i - p.len() + 1] && r[i + 1] == q[i - p.len() + 2]);
            assert(edge_step(g, q[i - p.len() + 1], q[i - p.len() + 2]));
        }
    }
    assert(forall|i: int| 0 <= i < r.len() ==> 0 <= #[trigger] r[i] < g.len()) by {
        assert(forall|i: int| p.len() <= i < r.len() ==> r[i] == q[i - p.len() + 1]);
    }
    assert(is_path(g, r) && r.first() == a && r.last() == c);
}



/// Does `v` appear in one of the collected components?
pub open spec fn in_components(comps: Seq<Vec<usize>>, v: usize) -> bool {
    exists|c: int, t: int|
        0 <= c < comps.len() && 0 <= t < comps[c]@.len() && (#[trigger] comps[c]@[t]) == v
}

/// Group the vertices by sweeping a depth-first search from each not-yet
/// visited vertex: the components partition the vertex set, each begins
/// with its seed, and every member is reachable from that seed. (For an
/// undirected graph this makes each group exactly one connected component;
/// for a directed graph the grouping still covers every vertex once.)
pub fn connected_components(graph: &Graph) -> (comps: Vec<Vec<usize>>)
    ensures
        forall|c: int|
            0 <= c < comps@.len() ==> (#[trigger] comps@[c])@.len() >= 1,
        forall|c: int, t: int|
            0 <= c < comps@.len() && 0 <= t < comps@[c]@.len() ==> (#[trigger] comps@[c]@[t])
                < graph.edges().len(),
        forall|c: int, t: int|
            0 <= c < comps@.len() && 0 <= t < comps@[c]@.len() ==> reachable(
                graph.edges(),
                comps@[c]@[0] as int,
                (#[trigger] comps@[c]@[t]) as int,
            ),
        forall|c1: int, t1: int, c2: int, t2: int|
            #![trigger comps@[c1]@[t1], comps@[c2]@[t2]]
            0 <= c1 < comps@.len() && 0 <= t1 < comps@[c1]@.len() && 0 <= c2 < comps@.len() && 0
                <= t2 < comps@[c2]@.len() && (c1 != c2 || t1 != t2) ==> comps@[c1]@[t1]
                != comps@[c2]@[t2],
        forall|v: usize| v < graph.edges().len() ==> in_components(comps@, v),
{
    proof {
        use_type_invariant(graph);
    }
    let ghost g = graph.edges();
    let n = graph.size();
    let mut visited: Vec<bool> = Vec::new();
    let mut i: usize = 0;
    while i < n
        invariant
            i <= n,
            visited.len() == i,
            forall|j: int| 0 <= j < i ==> !(#[trigger] visited[j]),
        decreases n - i,
    {
        visited.push(false);
        i += 1;
    }
    let mut comps: Vec<Vec<usize>> = Vec::new();

    let mut seed: usize = 0;
    while seed < n
        invariant
            graph.wf(),
            g == graph.edges(),
            n == g.len(),
            seed <= n,
            visited.len() == n,
            forall|v: int| 0 <= v < n ==> (visited[v] <==> in_components(comps@, v as usize)),
            forall|v: int| 0 <= v < seed ==> visited[v],
            forall|c: int| 0 <= c < comps@.len() ==> (#[trigger] comps@[c])@.len() >= 1,
            forall|c: int, t: int|
                0 <= c < comps@.len() && 0 <= t < comps@[c]@.len() ==> (#[trigger] comps@[c]@[t])
                    < n,
            forall|c: int, t: int|
                0 <= c < comps@.len() && 0 <= t < comps@[c]@.len() ==> reachable(
                    g,
                    comps@[c]@[0] as int,
                    (#[trigger] comps@[c]@[t]) as int,
                ),
            forall|c1: int, t1: int, c2: int, t2: int|
                #![trigger comps@[c1]@[t1], comps@[c2]@[t2]]
                0 <= c1 < comps@.len() && 0 <= t1 < comps@[c1]@.len() && 0 <= c2 < comps@.len()
                    && 0 <= t2 < comps@[c2]@.len() && (c1 != c2 || t1 != t2) ==> comps@[c1]@[t1]
                    != comps@[c2]@[t2],
        decreases n - seed,
    {
        if !visited[seed] {
            let ghost pre_comps = comps@;
            let mut component: Vec<usize> = Vec::new();
            let mut stack: Vec<usize> = Vec::new();
            stack.push(seed);
            proof {
                lemma_reachable_self(g, seed as int);
                assert forall|v: int| 0 <= v < seed implies in_components(
                    pre_comps,
                    #[trigger] (v as usize),
                ) by {
                    assert(visited[v]);
                }
            }

            while stack.len() > 0
                invariant
                    graph.wf(),
                    g == graph.edges(),
                    n == g.len(),
                    seed < n,
                    visited.len() == n,
                    comps@ == pre_comps,
                    forall|v: int|
                        0 <= v < seed ==> in_components(pre_comps, #[trigger] (v as usize)),
                    forall|v: int|
                        0 <= v < n ==> (visited[v] <==> (in_components(pre_comps, v as usize)
                            || component@.contains(v as usize))),
                    forall|t: int| 0 <= t < component@.len() ==> (#[trigger] component@[t]) < n,
                    forall|t: int| 0 <= t < stack@.len() ==> (#[trigger] stack@[t]) < n,
                    forall|t: int, u: int|
                        0 <= t < u < component@.len() ==> component@[t] != component@[u],
                    component@.len() == 0 ==> stack@ =~= seq![seed] && !visited[seed as int],
                    component@.len() > 0 ==> component@[0] == seed,
                    forall|t: int|
                        0 <= t < component@.len() ==> !in_components(
                            pre_comps,
                            (#[trigger] component@[t]) as usize,
                        ),
                    forall|t: int|
                        0 <= t < component@.len() ==> reachable(
                            g,
                            seed as int,
                            (#[trigger] component@[t]) as int,
                        ),
                    forall|t: int|
                        0 <= t < stack@.len() ==> reachable(
                            g,
                            seed as int,
                            (#[trigger] stack@[t]) as int,
                        ),
                decreases seq_count_false(visited@), stack@.len(),
            {
                let ghost pre_visited = visited@;
                let vertex = stack.pop().unwrap();

                if !visited[vertex] {
                    visited.set(vertex, true);
                    component.push(vertex);
                    proof {
                        lemma_count_false_strict(pre_visited, visited@, vertex as int);
                    }

                    let edge_count = graph.adj_list[vertex].len();
                    let mut k: usize = 0;
                    while k < edge_count
                        invariant
                            graph.wf(),
                            g == graph.edges(),
                            n == g.len(),
                            seed < n,
                            vertex < n,
                            edge_count == g[vertex as int].len(),
                            k <= edge_count,
                            visited.len() == n,
                            pre_visited.len() == n,
                            visited@ == pre_visited.update(vertex as int, true),
                            comps@ == pre_comps,
                            reachable(g, seed as int, vertex as int),
                            forall|v: int|
                                0 <= v < n ==> (visited[v] <==> (in_components(
                                    pre_comps,
                                    v as usize,
                                ) || component@.contains(v as usize))),
                            forall|t: int|
                                0 <= t < component@.len() ==> (#[trigger] component@[t]) < n,
                            forall|t: int| 0 <= t < stack@.len() ==> (#[trigger] stack@[t]) < n,
                            forall|t: int, u: int|
                                0 <= t < u < component@.len() ==> component@[t] != component@[u],
                            component@.len() > 0 && component@[0] == seed,
                            forall|t: int|
                                0 <= t < component@.len() ==> !in_components(
                                    pre_comps,
                                    (#[trigger] component@[t]) as usize,
                                ),
                            forall|t: int|
                                0 <= t < component@.len() ==> reachable(
                                    g,
                                    seed as int,
                                    (#[trigger] component@[t]) as int,
                                ),
                            forall|t: int|
                                0 <= t < stack@.len() ==> reachable(
                                    g,
                                    seed as int,
                                    (#[trigger] stack@[t]) as int,
                                ),
                        decreases edge_count - k,
                    {
                        let e_to = graph.adj_list[vertex][k].to;
                        proof {
                            assert(edge_step(g, vertex as int, e_to as int)) by {
                                assert(0 <= k < g[vertex as int].len() && g[vertex as int][
                                k as int].to == e_to);
                            }
                        }
                        if !visited[e_to] {
                            stack.push(e_to);
                            proof {
                                lemma_reachable_step(g, seed as int, vertex as int, e_to as int);
                            }
                        }
                        k += 1;
                    }
                }
            }

            let ghost comp_snap = component@;
            comps.push(component);
            proof {
                assert forall|v: int| 0 <= v < seed + 1 implies visited[v] by {
                    if v < seed {
                        assert(in_components(pre_comps, v as usize));
                        assert(component@.len() >= 0);
                    } else {
                        assert(visited[seed as int]);
                    }
                }
                assert forall|c1: int, t1: int, c2: int, t2: int|
                    #![trigger comps@[c1]@[t1], comps@[c2]@[t2]]
                    0 <= c1 < comps@.len() && 0 <= t1 < comps@[c1]@.len() && 0 <= c2 < comps@.len()
                        && 0 <= t2 < comps@[c2]@.len() && (c1 != c2 || t1 != t2) implies comps@[
                    c1]@[t1] != comps@[c2]@[t2] by {
                    let last = comps@.len() - 1;
                    if c1 < last && c2 < last {
                        assert(comps@[c1]@[t1] == pre_comps[c1]@[t1]);
                        assert(comps@[c2]@[t2] == pre_comps[c2]@[t2]);
                    } else if c1 == last && c2 == last {
                        assert(comps@[c1]@[t1] == comp_snap[t1] && comps@[c2]@[t2]
                            == comp_snap[t2]);
                    } else if c1 == last {
                        assert(comps@[c1]@[t1] == comp_snap[t1]);
                        assert(comps@[c2]@[t2] == pre_comps[c2]@[t2]);
                        if comp_snap[t1] == pre_comps[c2]@[t2] {
                            assert(in_components(pre_comps, comp_snap[t1] as usize));
                        }
                    } else {
                        assert(comps@[c2]@[t2] == comp_snap[t2]);
                        assert(comps@[c1]@[t1] == pre_comps[c1]@[t1]);
                        if comp_snap[t2] == pre_comps[c1]@[t1] {
                            assert(in_components(pre_comps, comp_snap[t2] as usize));
                        }
                    }
                }
                assert forall|v: int|
                    0 <= v < n implies (visited[v] <==> in_components(comps@, v as usize)) by {
                    if visited[v] {
                        if in_components(pre_comps, v as usize) {
                            let (c, t) = choose|c: int, t: int|
                                0 <= c < pre_comps.len() && 0 <= t < pre_comps[c]@.len() && (
                                #[trigger] pre_comps[c]@[t]) == v as usize;
                            assert(comps@[c]@[t] == v as usize);
                        } else {
                            let t = choose|t: int|
                                0 <= t < comp_snap.len() && comp_snap[t] == v as usize;
                            assert(comps@[comps@.len() - 1]@[t] == v as usize);
                        }
                    }
                    if in_components(comps@, v as usize) {
                        let (c, t) = choose|c: int, t: int|
                            0 <= c < comps@.len() && 0 <= t < comps@[c]@.len() && (
                            #[trigger] comps@[c]@[t]) == v as usize;
                        if c < pre_comps.len() {
                            assert(pre_comps[c]@[t] == v as usize);
                        } else {
                            assert(comp_snap[t] == v as usize);
                        }
                    }
                }
            }
        }
        proof {
            assert(visited[seed as int]);
        }
        seed += 1;
    }

    proof {
        assert forall|v: usize| v < g.len() implies in_components(comps@, v) by {
            assert(visited[v as int]);
        }
    }
    comps
}

/// How many entries of the marking are still false.
pub open spec fn seq_count_false(s: Seq<bool>) -> nat
    decreases s.len(),
{
    if s.len() == 0 {
        0
    } else {
        seq_count_false(s.drop_last()) + if s.last() {
            0nat
        } else {
            1nat
        }
    }
}

/// Marking one unmarked entry lowers the false-count by one.
proof fn lemma_count_false_set(s: Seq<bool>, i: int)
    requires
        0 <= i < s.len(),
        !s[i],
    ensures
        seq_count_false(s.update(i, true)) + 1 == seq_count_false(s),
    decreases s.len(),
{
    if i == s.len() - 1 {
        assert(s.update(i, true).drop_last() =~= s.drop_last());
    } else {
        lemma_count_false_set(s.drop_last(), i);
        assert(s.update(i, true).drop_last() =~= s.drop_last().update(i, true));
        assert(s.update(i, true).last() == s.last());
    }
}

} // verus!
