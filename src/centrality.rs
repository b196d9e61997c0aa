use vstd::prelude::*;
use vstd::set_lib::{lemma_len_subset, range_set_properties};
use crate::graph::SimilarityGraph;

verus! {

/// The breadth-first shortest-path structure from one source, on which Brandes'
/// betweenness accumulates path counts and dependencies: the nodes in order of
/// discovery, each reached node's hop distance, and for each node the
/// neighbours one hop closer to the source.
pub struct ShortestPathDag {
    pub order: Vec<usize>,
    pub distance: Vec<Option<usize>>,
    pub predecessors: Vec<Vec<usize>>,
}

/// A hop distance, or -1 for a node not reached.
pub open spec fn hops(d: Option<usize>) -> int {
    match d {
        Some(x) => x as int,
        None => -1,
    }
}

/// Every neighbour at the first `upto` places of `v`'s adjacency list is
/// reached, at most one hop farther than `v`, and lists `v` as a predecessor
/// when exactly one hop farther.
pub open spec fn closed_at(
    graph: &SimilarityGraph,
    distance: Seq<Option<usize>>,
    preds: Seq<Vec<usize>>,
    v: usize,
    upto: int,
) -> bool {
    forall|j: int|
        0 <= j < upto ==> {
            let u = #[trigger] graph.adjacency@[v as int]@[j];
            &&& distance[u as int] is Some
            &&& hops(distance[u as int]) <= hops(distance[v as int]) + 1
            &&& hops(distance[u as int]) == hops(distance[v as int]) + 1 ==> preds[u as int]@.contains(v)
        }
}

/// Each predecessor of a node is a reached neighbour exactly one hop closer.
pub open spec fn preds_sound(graph: &SimilarityGraph, distance: Seq<Option<usize>>, preds: Seq<Vec<usize>>) -> bool {
    forall|w: int, j: int|
        0 <= w < preds.len() && 0 <= j < preds[w]@.len() ==> {
            let p = #[trigger] preds[w]@[j];
            &&& (p as int) < graph.nodes@.len()
            &&& graph.adjacent(p as int, w)
            &&& distance[p as int] is Some
            &&& hops(distance[w]) == hops(distance[p as int]) + 1
        }
}

impl ShortestPathDag {
    /// This is the breadth-first structure of `graph` from `source`: the
    /// reached nodes are discovered in order of distance, exactly once each,
    /// the reached set is closed under adjacency (so it is the source's
    /// component), and the predecessor lists hold exactly the neighbours one
    /// hop closer.
    pub open spec fn is_bfs_of(&self, graph: &SimilarityGraph, source: usize) -> bool {
        let n = graph.nodes@.len();
        let d = self.distance@;
        &&& self.order@.len() >= 1 && self.order@[0] == source
        &&& d.len() == n && self.predecessors@.len() == n
        &&& d[source as int] == Some(0usize)
        &&& self.order@.no_duplicates()
        &&& forall|k: int|
            0 <= k < self.order@.len() ==> (#[trigger] self.order@[k] as int) < n && d[self.order@[k] as int] is Some
        &&& forall|v: int| 0 <= v < n && (#[trigger] d[v]) is Some ==> self.order@.contains(v as usize)
        &&& forall|a: int, b: int|
            0 <= a < b < self.order@.len() ==> hops(d[#[trigger] self.order@[a] as int]) <= hops(
                d[#[trigger] self.order@[b] as int],
            )
        &&& preds_sound(graph, d, self.predecessors@)
        &&& forall|v: int|
            0 <= v < n && (#[trigger] d[v]) is Some ==> closed_at(
                graph,
                d,
                self.predecessors@,
                v as usize,
                graph.adjacency@[v]@.len() as int,
            )
        &&& forall|v: int|
            0 <= v < n && v != source && (#[trigger] d[v]) is Some ==> self.predecessors@[v]@.len() > 0
    }
}

proof fn lemma_distinct_nodes_bounded(s: Seq<usize>, n: usize)
    requires
        s.no_duplicates(),
        forall|k: int| 0 <= k < s.len() ==> (#[trigger] s[k]) < n,
    ensures
        s.len() <= n,
{
    s.unique_seq_to_set();
    range_set_properties::<usize>(0, n);
    assert(s.to_set().subset_of(Set::range(0usize, n)));
    lemma_len_subset(s.to_set(), Set::range(0usize, n));
}

/// In a graph without edges the breadth-first structure from any source holds
/// the source alone and no predecessor, so every dependency that Brandes'
/// accumulation adds up is zero.
pub proof fn lemma_edgeless_dag(graph: &SimilarityGraph, source: usize, dag: &ShortestPathDag)
    requires
        graph.wf(),
        graph.edges@.len() == 0,
        dag.is_bfs_of(graph, source),
    ensures
        dag.order@ == seq![source],
        forall|w: int| 0 <= w < dag.predecessors@.len() ==> (#[trigger] dag.predecessors@[w])@.len() == 0,
{
    assert forall|w: int| 0 <= w < dag.predecessors@.len() implies (#[trigger] dag.predecessors@[w])@.len() == 0 by {
        if dag.predecessors@[w]@.len() > 0 {
            let p = dag.predecessors@[w]@[0];
            assert(graph.adjacent(p as int, w));
        }
    }
    assert forall|k: int| 0 <= k < dag.order@.len() implies #[trigger] dag.order@[k] == source by {
        let v = dag.order@[k] as int;
        assert(dag.distance@[v] is Some);
        if v != source {
            assert(dag.predecessors@[v]@.len() > 0);
        }
    }
    if dag.order@.len() > 1 {
        assert(dag.order@[1] == source);
    }
    assert(dag.order@ =~= seq![source]);
}

proof fn lemma_dist_dominates(
    ga: &SimilarityGraph,
    gb: &SimilarityGraph,
    source: usize,
    a: &ShortestPathDag,
    b: &ShortestPathDag,
    v: int,
)
    requires
        ga.wf(),
        gb.wf(),
        ga.nodes@.len() == gb.nodes@.len(),
        ga.edges@ == gb.edges@,
        a.is_bfs_of(ga, source),
        b.is_bfs_of(gb, source),
        0 <= v < ga.nodes@.len(),
        a.distance@[v] is Some,
    ensures
        b.distance@[v] is Some,
        hops(b.distance@[v]) <= hops(a.distance@[v]),
    decreases hops(a.distance@[v]),
{
    if v != source {
        assert(a.predecessors@[v]@.len() > 0);
        let p = a.predecessors@[v]@[0];
        assert(ga.adjacent(p as int, v));
        lemma_dist_dominates(ga, gb, source, a, b, p as int);
        let e = choose|e: int|
            0 <= e < ga.edges@.len() && ((ga.edges@[e].a == p && ga.edges@[e].b == v) || (ga.edges@[e].a == v
                && ga.edges@[e].b == p));
        assert(gb.edges@[e] == ga.edges@[e]);
        assert(gb.adjacency@[p as int]@.contains(v as usize));
        let j = choose|j: int| 0 <= j < gb.adjacency@[p as int]@.len() && gb.adjacency@[p as int]@[j] == v as usize;
        assert(closed_at(gb, b.distance@, b.predecessors@, p, gb.adjacency@[p as int]@.len() as int));
        assert(gb.adjacency@[p as int]@[j] == v as usize);
    }
}

/// Two breadth-first structures from the same source, over graphs with the
/// same nodes and edges (say, one graph built twice from the same input),
/// reach the same nodes at the same distances and list the same predecessors:
/// the inputs of Brandes' accumulation agree, whatever order the adjacency
/// lists were filled in.
pub proof fn lemma_bfs_agree(
    ga: &SimilarityGraph,
    gb: &SimilarityGraph,
    source: usize,
    a: &ShortestPathDag,
    b: &ShortestPathDag,
)
    requires
        ga.wf(),
        gb.wf(),
        ga.nodes@.len() == gb.nodes@.len(),
        ga.edges@ == gb.edges@,
        a.is_bfs_of(ga, source),
        b.is_bfs_of(gb, source),
    ensures
        a.distance@ == b.distance@,
        forall|w: int, p: usize|
            0 <= w < ga.nodes@.len() ==> (a.predecessors@[w]@.contains(p) <==> b.predecessors@[w]@.contains(p)),
{
    let n = ga.nodes@.len();
    assert forall|v: int| 0 <= v < n implies a.distance@[v] == b.distance@[v] by {
        if a.distance@[v] is Some {
            lemma_dist_dominates(ga, gb, source, a, b, v);
            lemma_dist_dominates(gb, ga, source, b, a, v);
        } else if b.distance@[v] is Some {
            lemma_dist_dominates(gb, ga, source, b, a, v);
        }
    }
    assert(a.distance@ =~= b.distance@);
    assert forall|w: int, p: usize|
        0 <= w < n implies (a.predecessors@[w]@.contains(p) <==> b.predecessors@[w]@.contains(p)) by {
        lemma_pred_in_other(ga, gb, source, a, b, w, p);
        lemma_pred_in_other(gb, ga, source, b, a, w, p);
    }
}

proof fn lemma_pred_in_other(
    ga: &SimilarityGraph,
    gb: &SimilarityGraph,
    source: usize,
    a: &ShortestPathDag,
    b: &ShortestPathDag,
    w: int,
    p: usize,
)
    requires
        ga.wf(),
        gb.wf(),
        ga.nodes@.len() == gb.nodes@.len(),
        ga.edges@ == gb.edges@,
        a.is_bfs_of(ga, source),
        b.is_bfs_of(gb, source),
        a.distance@ == b.distance@,
        0 <= w < ga.nodes@.len(),
    ensures
        a.predecessors@[w]@.contains(p) ==> b.predecessors@[w]@.contains(p),
{
    if a.predecessors@[w]@.contains(p) {
        let i = choose|i: int| 0 <= i < a.predecessors@[w]@.len() && a.predecessors@[w]@[i] == p;
        assert(a.predecessors@[w]@[i] == p);
        assert(ga.adjacent(p as int, w));
        let e = choose|e: int|
            0 <= e < ga.edges@.len() && ((ga.edges@[e].a == p && ga.edges@[e].b == w) || (ga.edges@[e].a == w
                && ga.edges@[e].b == p));
        assert(gb.edges@[e] == ga.edges@[e]);
        assert(gb.adjacency@[p as int]@.contains(w as usize));
        let j = choose|j: int| 0 <= j < gb.adjacency@[p as int]@.len() && gb.adjacency@[p as int]@[j] == w as usize;
        assert(closed_at(gb, b.distance@, b.predecessors@, p, gb.adjacency@[p as int]@.len() as int));
        assert(gb.adjacency@[p as int]@[j] == w as usize);
    }
}

/// Breadth-first search from `source`, ignoring edge weights: records the
/// order of discovery, hop distances, and shortest-path predecessors.
pub fn shortest_path_dag(graph: &SimilarityGraph, source: usize) -> (dag: ShortestPathDag)
    requires
        graph.wf(),
        (source as int) < graph.nodes@.len(),
    ensures
        dag.is_bfs_of(graph, source),
{
    let n = graph.node_count();
    let mut distance: Vec<Option<usize>> = Vec::new();
    let mut predecessors: Vec<Vec<usize>> = Vec::new();
    let mut k: usize = 0;
    while k < n
        invariant
            k <= n,
            distance@.len() == k,
            predecessors@.len() == k,
            forall|u: int| 0 <= u < k ==> (#[trigger] distance@[u]) is None,
            forall|u: int| 0 <= u < k ==> (#[trigger] predecessors@[u])@.len() == 0,
        decreases n - k,
    {
        distance.push(None);
        predecessors.push(Vec::new());
        k = k + 1;
    }
    distance.set(source, Some(0));
    let mut order: Vec<usize> = Vec::new();
    order.push(source);
    let mut head: usize = 0;
    while head < order.len()
        invariant
            graph.wf(),
            n == graph.nodes@.len(),
            (source as int) < n,
            distance@.len() == n,
            predecessors@.len() == n,
            head <= order@.len() <= n,
            order@.len() >= 1 && order@[0] == source,
            distance@[source as int] == Some(0usize),
            order@.no_duplicates(),
            forall|k: int|
                0 <= k < order@.len() ==> (#[trigger] order@[k] as int) < n && distance@[order@[k] as int] is Some
                    && hops(distance@[order@[k] as int]) <= k,
            forall|v: int| 0 <= v < n && (#[trigger] distance@[v]) is Some ==> order@.contains(v as usize),
            forall|a: int, b: int|
                0 <= a < b < order@.len() ==> hops(distance@[#[trigger] order@[a] as int]) <= hops(
                    distance@[#[trigger] order@[b] as int],
                ),
            head < order@.len() ==> forall|b: int|
                0 <= b < order@.len() ==> hops(distance@[#[trigger] order@[b] as int]) <= hops(
                    distance@[order@[head as int] as int],
                ) + 1,
            preds_sound(graph, distance@, predecessors@),
            forall|k: int|
                0 <= k < head ==> closed_at(
                    graph,
                    distance@,
                    predecessors@,
                    #[trigger] order@[k],
                    graph.adjacency@[order@[k] as int]@.len() as int,
                ),
            forall|v: int|
                0 <= v < n && v != source && (#[trigger] distance@[v]) is Some ==> predecessors@[v]@.len() > 0,
        decreases n - head,
    {
        let v = order[head];
        let dv: usize = match distance[v] {
            Some(d) => d,
            None => 0,
        };
        let deg = graph.adjacency[v].len();
        let mut j: usize = 0;
        while j < deg
            invariant
                graph.wf(),
                n == graph.nodes@.len(),
                (source as int) < n,
                (v as int) < n,
                deg == graph.adjacency@[v as int]@.len(),
                distance@.len() == n,
                predecessors@.len() == n,
                head < order@.len() <= n,
                order@[head as int] == v,
                distance@[v as int] == Some(dv),
                dv <= head,
                j <= deg,
                order@.len() >= 1 && order@[0] == source,
                distance@[source as int] == Some(0usize),
                order@.no_duplicates(),
                forall|k: int|
                    0 <= k < order@.len() ==> (#[trigger] order@[k] as int) < n && distance@[order@[k] as int] is Some
                        && hops(distance@[order@[k] as int]) <= k,
                forall|u: int| 0 <= u < n && (#[trigger] distance@[u]) is Some ==> order@.contains(u as usize),
                forall|a: int, b: int|
                    0 <= a < b < order@.len() ==> hops(distance@[#[trigger] order@[a] as int]) <= hops(
                        distance@[#[trigger] order@[b] as int],
                    ),
                forall|b: int| 0 <= b < order@.len() ==> hops(distance@[#[trigger] order@[b] as int]) <= dv + 1,
                preds_sound(graph, distance@, predecessors@),
                forall|k: int|
                    0 <= k < head ==> closed_at(
                        graph,
                        distance@,
                        predecessors@,
                        #[trigger] order@[k],
                        graph.adjacency@[order@[k] as int]@.len() as int,
                    ),
                closed_at(graph, distance@, predecessors@, v, j as int),
                forall|u: int|
                    0 <= u < n && u != source && (#[trigger] distance@[u]) is Some ==> predecessors@[u]@.len() > 0,
            decreases deg - j,
        {
            let u = graph.adjacency[v][j];
            proof {
                assert(graph.adjacency@[v as int]@[j as int] == u);
            }
            let ghost d0 = distance@;
            let ghost p0 = predecessors@;
            let ghost o0 = order@;
            if distance[u].is_none() {
                distance.set(u, Some(dv + 1));
                order.push(u);
                proof {
                    assert(!o0.contains(u));
                    assert forall|a: int, b: int| 0 <= a < b < order@.len() implies order@[a] != order@[b] by {
                        if b == o0.len() {
                            assert(o0[a] != u);
                        }
                    }
                    assert(order@.no_duplicates());
                    lemma_distinct_nodes_bounded(order@, n);
                    assert forall|w: int| 0 <= w < n && (#[trigger] distance@[w]) is Some implies order@.contains(
                        w as usize,
                    ) by {
                        if w == u {
                            assert(order@[o0.len() as int] == u);
                        } else {
                            assert(d0[w] is Some);
                            let i = choose|i: int| 0 <= i < o0.len() && o0[i] == w as usize;
                            assert(order@[i] == w as usize);
                        }
                    }
                    assert forall|k: int| 0 <= k < order@.len() implies (#[trigger] order@[k] as int) < n
                        && distance@[order@[k] as int] is Some && hops(distance@[order@[k] as int]) <= k by {
                        if k < o0.len() {
                            assert(o0[k] != u);
                        }
                    }
                    assert forall|k: int|
                        0 <= k < head implies closed_at(
                            graph,
                            distance@,
                            predecessors@,
                            #[trigger] order@[k],
                            graph.adjacency@[order@[k] as int]@.len() as int,
                        ) by {
                        let x = order@[k];
                        assert(x == o0[k]);
                        assert(closed_at(graph, d0, p0, x, graph.adjacency@[x as int]@.len() as int));
                        assert forall|jj: int| 0 <= jj < graph.adjacency@[x as int]@.len() implies {
                            let y = #[trigger] graph.adjacency@[x as int]@[jj];
                            distance@[y as int] == d0[y as int]
                        } by {
                            let y = graph.adjacency@[x as int]@[jj];
                            assert(d0[y as int] is Some);
                        }
                    }
                    assert forall|jj: int| 0 <= jj < j implies {
                        let y = #[trigger] graph.adjacency@[v as int]@[jj];
                        distance@[y as int] == d0[y as int]
                    } by {
                        let y = graph.adjacency@[v as int]@[jj];
                        assert(d0[y as int] is Some);
                    }
                    assert forall|w: int, jj: int|
                        0 <= w < predecessors@.len() && 0 <= jj < predecessors@[w]@.len() implies {
                            let p = #[trigger] predecessors@[w]@[jj];
                            &&& (p as int) < graph.nodes@.len()
                            &&& graph.adjacent(p as int, w)
                            &&& distance@[p as int] is Some
                            &&& hops(distance@[w]) == hops(distance@[p as int]) + 1
                        } by {
                        let p = predecessors@[w]@[jj];
                        assert(d0[w] is Some);
                        assert(d0[p as int] is Some);
                    }
                }
            }
            let du: usize = match distance[u] {
                Some(d) => d,
                None => 0,
            };
            if du == dv + 1 {
                let ghost d1 = distance@;
                let ghost p1 = predecessors@;
                predecessors[u].push(v);
                proof {
                    assert(graph.adjacent(v as int, u as int));
                    assert forall|w: int, y: usize| 0 <= w < n && p1[w]@.contains(y) implies predecessors@[w]@.contains(y) by {
                        let i = choose|i: int| 0 <= i < p1[w]@.len() && p1[w]@[i] == y;
                        assert(predecessors@[w]@[i] == y);
                    }
                    assert(predecessors@[u as int]@[p1[u as int]@.len() as int] == v);
                    assert forall|w: int, jj: int|
                        0 <= w < predecessors@.len() && 0 <= jj < predecessors@[w]@.len() implies {
                            let p = #[trigger] predecessors@[w]@[jj];
                            &&& (p as int) < graph.nodes@.len()
                            &&& graph.adjacent(p as int, w)
                            &&& distance@[p as int] is Some
                            &&& hops(distance@[w]) == hops(distance@[p as int]) + 1
                        } by {
                        if w == u && jj == p1[u as int]@.len() {
                        } else {
                            assert(predecessors@[w]@[jj] == p1[w]@[jj]);
                        }
                    }
                    assert forall|k: int|
                        0 <= k < head implies closed_at(
                            graph,
                            distance@,
                            predecessors@,
                            #[trigger] order@[k],
                            graph.adjacency@[order@[k] as int]@.len() as int,
                        ) by {
                        let x = order@[k];
                        assert(closed_at(graph, d1, p1, x, graph.adjacency@[x as int]@.len() as int));
                    }
                }
            }
            proof {
                assert(closed_at(graph, distance@, predecessors@, v, j + 1));
            }
            j = j + 1;
        }
        proof {
            if head + 1 < order@.len() {
                assert(hops(distance@[order@[head as int] as int]) <= hops(distance@[order@[head + 1] as int]));
            }
        }
        head = head + 1;
    }
    let dag = ShortestPathDag { order, distance, predecessors };
    proof {
        assert forall|w: int| 0 <= w < n && (#[trigger] dag.distance@[w]) is Some implies closed_at(
            graph,
            dag.distance@,
            dag.predecessors@,
            w as usize,
            graph.adjacency@[w]@.len() as int,
        ) by {
            assert(dag.order@.contains(w as usize));
            let i = choose|i: int| 0 <= i < dag.order@.len() && dag.order@[i] == w as usize;
            assert(closed_at(graph, dag.distance@, dag.predecessors@, dag.order@[i], graph.adjacency@[dag.order@[i] as int]@.len() as int));
        }
    }
    dag
}

} // verus!
