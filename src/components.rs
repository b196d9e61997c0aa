use vstd::prelude::*;
use crate::graph::{SimilarityEdge, SimilarityGraph};

verus! {

/// Node `v` stands somewhere in `groups`.
pub open spec fn in_some_group(groups: Seq<Vec<usize>>, v: int) -> bool {
    exists|g: int, k: int| 0 <= g < groups.len() && 0 <= k < groups[g]@.len() && #[trigger] groups[g]@[k] == v
}

/// `groups` partitions the nodes `0..n`: each node stands in exactly one place
/// of exactly one group, and nothing else does.
pub open spec fn partitions_nodes(groups: Seq<Vec<usize>>, n: int) -> bool {
    &&& forall|g: int, k: int|
        0 <= g < groups.len() && 0 <= k < groups[g]@.len() ==> (#[trigger] groups[g]@[k] as int) < n
    &&& forall|v: int| 0 <= v < n ==> #[trigger] in_some_group(groups, v)
    &&& forall|g1: int, k1: int, g2: int, k2: int|
        0 <= g1 < groups.len() && 0 <= k1 < groups[g1]@.len() && 0 <= g2 < groups.len() && 0 <= k2
            < groups[g2]@.len() && #[trigger] groups[g1]@[k1] == #[trigger] groups[g2]@[k2] ==> g1 == g2 && k1
            == k2
}

/// Both ends of every edge stand in the same group, and no group is empty.
pub open spec fn groups_respect_edges(groups: Seq<Vec<usize>>, edges: Seq<SimilarityEdge>) -> bool {
    &&& forall|g: int| 0 <= g < groups.len() ==> (#[trigger] groups[g])@.len() > 0
    &&& forall|g: int, e: int|
        0 <= g < groups.len() && 0 <= e < edges.len() ==> (#[trigger] groups[g]@.contains(
            #[trigger] edges[e].a) <==> groups[g]@.contains(edges[e].b))
}

/// Some edge of `edges` joins `u` and `v`, in either direction.
pub open spec fn joined(edges: Seq<SimilarityEdge>, u: usize, v: usize) -> bool {
    exists|e: int| 0 <= e < edges.len() && ((edges[e].a == u && edges[e].b == v) || (edges[e].a == v && edges[e].b == u))
}

/// `w` is a walk along `edges` from `u` to `v`.
pub open spec fn is_walk(edges: Seq<SimilarityEdge>, w: Seq<usize>, u: usize, v: usize) -> bool {
    &&& w.len() >= 1 && w[0] == u && w[w.len() - 1] == v
    &&& forall|i: int| 0 <= i < w.len() - 1 ==> joined(edges, #[trigger] w[i], w[i + 1])
}

/// Any two members of a group are joined by a walk along `edges`.
pub open spec fn groups_connected(groups: Seq<Vec<usize>>, edges: Seq<SimilarityEdge>) -> bool {
    forall|g: int, k1: int, k2: int|
        0 <= g < groups.len() && 0 <= k1 < groups[g]@.len() && 0 <= k2 < groups[g]@.len() ==> exists|w: Seq<usize>|
            is_walk(edges, w, #[trigger] groups[g]@[k1], #[trigger] groups[g]@[k2])
}

/// Relies on `petgraph::algo::kosaraju_scc` on an undirected `petgraph::Graph`
/// with `node_count` nodes and one edge per element of `edges`: it returns the
/// strongly connected components, which on an undirected graph are the
/// connected components; each node lies in exactly one of them, none is empty,
/// and the members of one are joined by walks.
/// `Graph::add_node` and `Graph::add_edge` panic past `u32::MAX` nodes or edges
/// and on an edge end that is not a node.
#[verifier::external_body]
fn kosaraju_components(node_count: usize, edges: &Vec<SimilarityEdge>) -> (r: Vec<Vec<usize>>)
    requires
        node_count < u32::MAX,
        edges@.len() < u32::MAX,
        forall|e: int| 0 <= e < edges@.len() ==> (#[trigger] edges@[e].a as int) < node_count && (edges@[e].b as int) < node_count,
    ensures
        partitions_nodes(r@, node_count as int),
        groups_respect_edges(r@, edges@),
        groups_connected(r@, edges@),
{
    let mut g = petgraph::graph::UnGraph::<(), ()>::with_capacity(node_count, edges.len());
    for _ in 0..node_count {
        g.add_node(());
    }
    for e in edges.iter() {
        g.add_edge(petgraph::graph::NodeIndex::new(e.a), petgraph::graph::NodeIndex::new(e.b), ());
    }
    let sccs = petgraph::algo::kosaraju_scc(&g);
    sccs.into_iter().map(|c| c.into_iter().map(|v| v.index()).collect()).collect()
}

/// Partitions the graph's nodes into its connected components: maximal groups
/// of nodes joined by walks.
pub fn connected_components(graph: &SimilarityGraph) -> (groups: Vec<Vec<usize>>)
    requires
        graph.wf(),
        graph.nodes@.len() < u32::MAX,
        graph.edges@.len() < u32::MAX,
    ensures
        partitions_nodes(groups@, graph.nodes@.len() as int),
        groups_respect_edges(groups@, graph.edges@),
        groups_connected(groups@, graph.edges@),
{
    kosaraju_components(graph.node_count(), &graph.edges)
}

/// Index of the largest group, the first such on a tie; 0 for an empty list.
pub open spec fn is_largest_index(groups: Seq<Vec<usize>>, r: int) -> bool {
    if groups.len() == 0 {
        r == 0
    } else {
        &&& 0 <= r < groups.len()
        &&& forall|g: int| 0 <= g < groups.len() ==> (#[trigger] groups[g])@.len() <= groups[r]@.len()
        &&& forall|g: int| 0 <= g < r ==> (#[trigger] groups[g])@.len() < groups[r]@.len()
    }
}

/// Selects the group of greatest size, the first one seen on a tie; 0 when
/// there is no group.
pub fn find_largest_component(components: &Vec<Vec<usize>>) -> (r: usize)
    ensures
        is_largest_index(components@, r as int),
{
    let mut largest: usize = 0;
    let mut max_size: usize = 0;
    let mut i: usize = 0;
    while i < components.len()
        invariant
            i <= components@.len(),
            i == 0 ==> largest == 0 && max_size == 0,
            i > 0 ==> largest < i,
            largest < components@.len() || components@.len() == 0,
            i > 0 ==> max_size == components@[largest as int]@.len(),
            forall|g: int| 0 <= g < i ==> (#[trigger] components@[g])@.len() <= max_size,
            forall|g: int| 0 <= g < largest ==> (#[trigger] components@[g])@.len() < max_size,
        decreases components@.len() - i,
    {
        if components[i].len() > max_size {
            max_size = components[i].len();
            largest = i;
        } else if i == 0 {
            proof {
                assert(components@[0]@.len() == 0);
            }
        }
        i = i + 1;
    }
    largest
}

} // verus!
