use vstd::prelude::*;
use crate::movie::Movie;

verus! {

/// An undirected edge between nodes `a` and `b`. Its weight is the category
/// weight of the catalog item at position `first`, the first item of the pair
/// that produced the edge.
#[derive(Clone, Copy, Debug, PartialEq, Eq)]
pub struct SimilarityEdge {
    pub a: usize,
    pub b: usize,
    pub first: usize,
}

/// The similarity graph: node `k` holds the `k`-th catalog item; an edge joins
/// nodes named by item identifiers. `adjacency[u]` lists the other end of each
/// edge at `u`, once per edge end.
pub struct SimilarityGraph {
    pub nodes: Vec<Movie>,
    pub edges: Vec<SimilarityEdge>,
    pub adjacency: Vec<Vec<usize>>,
}

/// Whether identifier `id` names a node of a graph with `n` nodes.
pub open spec fn id_is_node(id: i32, n: int) -> bool {
    0 <= id && id < n
}

/// The edge that the pair of items `i < j` contributes, if any: only the first
/// item's category weight is consulted, through `linked[i]`.
pub open spec fn pair_edges(ids: Seq<i32>, linked: Seq<bool>, i: int, j: int) -> Seq<SimilarityEdge> {
    if linked[i] && id_is_node(ids[i], ids.len() as int) && id_is_node(ids[j], ids.len() as int) {
        seq![SimilarityEdge { a: ids[i] as usize, b: ids[j] as usize, first: i as usize }]
    } else {
        Seq::empty()
    }
}

/// Edges of the pairs `(i, k)` with `i < k < j`, in order of `k`.
pub open spec fn row_edges(ids: Seq<i32>, linked: Seq<bool>, i: int, j: int) -> Seq<SimilarityEdge>
    decreases j - i,
{
    if j <= i + 1 {
        Seq::empty()
    } else {
        row_edges(ids, linked, i, j - 1) + pair_edges(ids, linked, i, j - 1)
    }
}

/// Edges of all pairs whose first item lies before position `i`, in order.
pub open spec fn prefix_edges(ids: Seq<i32>, linked: Seq<bool>, i: int) -> Seq<SimilarityEdge>
    decreases i,
{
    if i <= 0 {
        Seq::empty()
    } else {
        prefix_edges(ids, linked, i - 1) + row_edges(ids, linked, i - 1, ids.len() as int)
    }
}

/// The edge list of the graph built over items with identifiers `ids`, where
/// `linked[i]` says whether item `i`'s category weight is strictly positive.
pub open spec fn similarity_edges(ids: Seq<i32>, linked: Seq<bool>) -> Seq<SimilarityEdge> {
    prefix_edges(ids, linked, ids.len() as int)
}

/// The identifiers of a list of items.
pub open spec fn ids_of(movies: Seq<Movie>) -> Seq<i32> {
    movies.map_values(|m: Movie| m.movie_id)
}

impl SimilarityGraph {
    /// Whether some edge joins `u` and `v`, in either direction.
    pub open spec fn adjacent(&self, u: int, v: int) -> bool {
        exists|e: int|
            0 <= e < self.edges@.len() && ((self.edges@[e].a == u && self.edges@[e].b == v) || (
            self.edges@[e].a == v && self.edges@[e].b == u))
    }

    /// Every edge joins two nodes, and the adjacency lists hold exactly the
    /// ends of the edges.
    pub open spec fn wf(&self) -> bool {
        &&& self.adjacency@.len() == self.nodes@.len()
        &&& forall|e: int|
            0 <= e < self.edges@.len() ==> (self.edges@[e].a as int) < self.nodes@.len() && (
            self.edges@[e].b as int) < self.nodes@.len()
        &&& forall|u: int, k: int|
            0 <= u < self.adjacency@.len() && 0 <= k < self.adjacency@[u]@.len() ==> {
                let v = #[trigger] self.adjacency@[u]@[k];
                (v as int) < self.nodes@.len() && self.adjacent(u, v as int)
            }
        &&& forall|e: int|
            0 <= e < self.edges@.len() ==> {
                let edge = #[trigger] self.edges@[e];
                self.adjacency@[edge.a as int]@.contains(edge.b) && self.adjacency@[edge.b as int]@.contains(edge.a)
            }
    }

    pub fn node_count(&self) -> (r: usize)
        ensures
            r == self.nodes@.len(),
    {
        self.nodes.len()
    }

    pub fn edge_count(&self) -> (r: usize)
        ensures
            r == self.edges@.len(),
    {
        self.edges.len()
    }

    /// Adds edge `e` and records both of its ends in the adjacency lists.
    fn add_edge(&mut self, e: SimilarityEdge)
        requires
            old(self).wf(),
            (e.a as int) < old(self).nodes@.len(),
            (e.b as int) < old(self).nodes@.len(),
        ensures
            final(self).wf(),
            final(self).nodes@ == old(self).nodes@,
            final(self).edges@ == old(self).edges@.push(e),
    {
        let ghost old_edges = self.edges@;
        let ghost old_adj = self.adjacency@;
        self.edges.push(e);
        self.adjacency[e.a].push(e.b);
        self.adjacency[e.b].push(e.a);
        proof {
            let n = self.edges@.len() - 1;
            assert(self.edges@[n as int] == e);
            assert forall|ed: int| 0 <= ed < old_edges.len() implies #[trigger] self.edges@[ed] == old_edges[ed] by {}
            assert forall|u: int, k: int|
                0 <= u < self.adjacency@.len() && 0 <= k < self.adjacency@[u]@.len() implies {
                    let v = #[trigger] self.adjacency@[u]@[k];
                    (v as int) < self.nodes@.len() && self.adjacent(u, v as int)
                } by {
                let v = self.adjacency@[u]@[k];
                if k < old_adj[u]@.len() && !(u == e.a && k == old_adj[u]@.len()) {
                    assert(old(self).adjacent(u, v as int));
                    let ed = choose|ed: int|
                        0 <= ed < old_edges.len() && ((old_edges[ed].a == u && old_edges[ed].b == v) || (
                        old_edges[ed].a == v && old_edges[ed].b == u));
                    assert(self.edges@[ed] == old_edges[ed]);
                } else {
                    assert(self.edges@[n as int] == e);
                }
            }
            assert forall|ed: int| 0 <= ed < self.edges@.len() implies {
                let edge = #[trigger] self.edges@[ed];
                self.adjacency@[edge.a as int]@.contains(edge.b) && self.adjacency@[edge.b as int]@.contains(edge.a)
            } by {
                let edge = self.edges@[ed];
                if ed < n {
                    assert(old_edges[ed] == edge);
                    assert(old_adj[edge.a as int]@.contains(edge.b));
                    assert(old_adj[edge.b as int]@.contains(edge.a));
                    let i1 = choose|i: int| 0 <= i < old_adj[edge.a as int]@.len() && old_adj[edge.a as int]@[i] == edge.b;
                    let i2 = choose|i: int| 0 <= i < old_adj[edge.b as int]@.len() && old_adj[edge.b as int]@[i] == edge.a;
                    assert(self.adjacency@[edge.a as int]@[i1] == edge.b);
                    assert(self.adjacency@[edge.b as int]@[i2] == edge.a);
                } else {
                    let la = self.adjacency@[e.a as int]@;
                    let lb = self.adjacency@[e.b as int]@;
                    assert(lb[lb.len() - 1] == e.a);
                    if e.a != e.b {
                        assert(la[la.len() - 1] == e.b);
                    } else {
                        assert(la[la.len() - 2] == e.b);
                    }
                }
            }
        }
    }
}

proof fn lemma_row_unlinked(ids: Seq<i32>, linked: Seq<bool>, i: int, j: int)
    requires
        0 <= i < linked.len(),
        !linked[i],
    ensures
        row_edges(ids, linked, i, j) == Seq::<SimilarityEdge>::empty(),
    decreases j - i,
{
    if j > i + 1 {
        lemma_row_unlinked(ids, linked, i, j - 1);
    }
}

proof fn lemma_prefix_unlinked(ids: Seq<i32>, linked: Seq<bool>, i: int)
    requires
        i <= linked.len(),
        forall|k: int| 0 <= k < linked.len() ==> !linked[k],
    ensures
        prefix_edges(ids, linked, i) == Seq::<SimilarityEdge>::empty(),
    decreases i,
{
    if i > 0 {
        lemma_prefix_unlinked(ids, linked, i - 1);
        lemma_row_unlinked(ids, linked, i - 1, ids.len() as int);
    }
}

/// With no item linked (an empty category-weight mapping links none), the
/// graph has one node per item and no edge.
pub proof fn lemma_unlinked_graph_has_no_edges(movies: Seq<Movie>, linked: Seq<bool>)
    requires
        linked.len() == movies.len(),
        forall|k: int| 0 <= k < linked.len() ==> !linked[k],
    ensures
        similarity_edges(ids_of(movies), linked) == Seq::<SimilarityEdge>::empty(),
{
    lemma_prefix_unlinked(ids_of(movies), linked, movies.len() as int);
}

/// Rebuilding from the same identifiers and the same link flags gives the same
/// nodes and the same edge list, whatever else differs between the two item
/// lists (titles, label order).
pub proof fn lemma_rebuild_same_graph(
    movies1: Seq<Movie>,
    movies2: Seq<Movie>,
    linked: Seq<bool>,
    g1: SimilarityGraph,
    g2: SimilarityGraph,
)
    requires
        linked.len() == movies1.len(),
        ids_of(movies1) == ids_of(movies2),
        g1.nodes@ == movies1 && g1.edges@ == similarity_edges(ids_of(movies1), linked),
        g2.nodes@ == movies2 && g2.edges@ == similarity_edges(ids_of(movies2), linked),
    ensures
        g1.nodes@.len() == g2.nodes@.len(),
        g1.edges@ == g2.edges@,
        forall|u: int, v: int| g1.adjacent(u, v) <==> g2.adjacent(u, v),
{
    assert(ids_of(movies1).len() == movies1.len());
    assert(ids_of(movies2).len() == movies2.len());
}

/// Builds the similarity graph: one node per item, in input order, and for
/// each pair of items `i < j` whose first item is linked (its category weight
/// is strictly positive) an edge between the nodes named by the two items'
/// identifiers, when both name existing nodes.
pub fn create_graph(movies: Vec<Movie>, linked: &Vec<bool>) -> (graph: SimilarityGraph)
    requires
        linked@.len() == movies@.len(),
    ensures
        graph.wf(),
        graph.nodes@ == movies@,
        graph.edges@ == similarity_edges(ids_of(movies@), linked@),
{
    let n = movies.len();
    let ghost ids = ids_of(movies@);
    let mut adjacency: Vec<Vec<usize>> = Vec::new();
    let mut k: usize = 0;
    while k < n
        invariant
            k <= n,
            adjacency@.len() == k,
            forall|u: int| 0 <= u < k ==> (#[trigger] adjacency@[u])@.len() == 0,
        decreases n - k,
    {
        adjacency.push(Vec::new());
        k = k + 1;
    }
    let mut graph = SimilarityGraph { nodes: movies, edges: Vec::new(), adjacency };
    let mut i: usize = 0;
    while i < n
        invariant
            n == movies@.len(),
            linked@.len() == n,
            i <= n,
            graph.wf(),
            graph.nodes@ == movies@,
            ids == ids_of(movies@),
            graph.edges@ == prefix_edges(ids, linked@, i as int),
        decreases n - i,
    {
        let mut j: usize = i + 1;
        while j < n
            invariant
                n == movies@.len(),
                linked@.len() == n,
                i < n,
                i + 1 <= j <= n,
                graph.wf(),
                graph.nodes@ == movies@,
                ids == ids_of(movies@),
                graph.edges@ == prefix_edges(ids, linked@, i as int) + row_edges(ids, linked@, i as int, j as int),
            decreases n - j,
        {
            let id_a = graph.nodes[i].movie_id;
            let id_b = graph.nodes[j].movie_id;
            let ghost before = graph.edges@;
            if linked[i] && 0 <= id_a && (id_a as usize) < n && 0 <= id_b && (id_b as usize) < n {
                let e = SimilarityEdge { a: id_a as usize, b: id_b as usize, first: i };
                graph.add_edge(e);
                proof {
                    assert(pair_edges(ids, linked@, i as int, j as int) == seq![e]);
                    assert(before.push(e) == before + seq![e]);
                }
            } else {
                proof {
                    assert(pair_edges(ids, linked@, i as int, j as int) == Seq::<SimilarityEdge>::empty());
                }
            }
            proof {
                assert(row_edges(ids, linked@, i as int, j + 1) == row_edges(ids, linked@, i as int, j as int)
                    + pair_edges(ids, linked@, i as int, j as int));
                assert(graph.edges@ == prefix_edges(ids, linked@, i as int) + row_edges(ids, linked@, i as int, j + 1));
            }
            j = j + 1;
        }
        proof {
            assert(ids.len() == n);
            assert(prefix_edges(ids, linked@, i + 1) == prefix_edges(ids, linked@, i as int) + row_edges(ids, linked@, i as int, n as int));
        }
        i = i + 1;
    }
    graph
}

} // verus!
