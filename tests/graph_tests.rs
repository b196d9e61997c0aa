use movie_graph::centrality::shortest_path_dag;
use movie_graph::components::{connected_components, find_largest_component};
use movie_graph::graph::{create_graph, SimilarityEdge};
use movie_graph::movie::{get_genres_key, Movie};
use movie_graph::ranking::select_top;

fn movie(id: i32, title: &str, genres: &[&str]) -> Movie {
    Movie {
        movie_id: id,
        title: title.to_string(),
        genres: genres.iter().map(|g| g.to_string()).collect(),
    }
}

fn edge(a: usize, b: usize, first: usize) -> SimilarityEdge {
    SimilarityEdge { a, b, first }
}

/// Items whose pairs give the path 0 - 1 - 2: only the first item (id 1) is linked.
fn path_of_three() -> movie_graph::graph::SimilarityGraph {
    let movies = vec![
        movie(1, "Middle", &["Drama"]),
        movie(0, "Left", &["Comedy"]),
        movie(2, "Right", &["Horror"]),
    ];
    create_graph(movies, &vec![true, false, false])
}

#[test]
fn test_create_graph() {
    let movies = vec![];
    let graph = create_graph(movies, &vec![]);
    assert!(graph.node_count() == 0);
    assert!(graph.edge_count() == 0);
}

#[test]
fn test_find_largest_component() {
    let components: Vec<Vec<usize>> = vec![vec![], vec![]];
    let largest_component_index = find_largest_component(&components);
    assert_eq!(largest_component_index, 0);
}

#[test]
fn genres_key_sorts_and_joins() {
    let genres = vec!["Thriller".to_string(), "Action".to_string(), "Drama".to_string()];
    assert_eq!(get_genres_key(&genres), "Action,Drama,Thriller");
}

#[test]
fn genres_key_of_one_and_of_none() {
    assert_eq!(get_genres_key(&vec!["Comedy".to_string()]), "Comedy");
    assert_eq!(get_genres_key(&vec![]), "");
}

#[test]
fn unlinked_items_give_nodes_without_edges() {
    let movies = vec![movie(0, "A", &["Drama"]), movie(1, "B", &["Drama"]), movie(2, "C", &["Comedy"])];
    let graph = create_graph(movies, &vec![false, false, false]);
    assert_eq!(graph.node_count(), 3);
    assert_eq!(graph.edge_count(), 0);
}

#[test]
fn edges_follow_the_first_item_of_each_pair() {
    let movies = vec![movie(0, "A", &["Drama"]), movie(1, "B", &["Comedy"]), movie(2, "C", &["Drama"])];
    let graph = create_graph(movies, &vec![true, false, true]);
    assert_eq!(graph.node_count(), 3);
    assert_eq!(graph.edges, vec![edge(0, 1, 0), edge(0, 2, 0)]);
    assert_eq!(graph.adjacency, vec![vec![1, 2], vec![0], vec![0]]);
}

#[test]
fn identifiers_past_the_node_count_are_skipped() {
    let movies = vec![movie(5, "A", &["Drama"]), movie(0, "B", &["Drama"]), movie(-1, "C", &["Drama"])];
    let graph = create_graph(movies, &vec![true, true, true]);
    assert_eq!(graph.node_count(), 3);
    assert_eq!(graph.edge_count(), 0);
}

#[test]
fn identical_inputs_rebuild_identical_edges() {
    let first = vec![movie(2, "A", &["Drama", "Action"]), movie(0, "B", &["Comedy"]), movie(1, "C", &["Drama"])];
    let second = vec![movie(2, "A", &["Action", "Drama"]), movie(0, "B", &["Comedy"]), movie(1, "C", &["Drama"])];
    let g1 = create_graph(first, &vec![true, true, false]);
    let g2 = create_graph(second, &vec![true, true, false]);
    assert_eq!(g1.edges, g2.edges);
    assert_eq!(g1.edges, vec![edge(2, 0, 0), edge(2, 1, 0), edge(0, 1, 1)]);
}

#[test]
fn components_of_empty_graph() {
    let graph = create_graph(vec![], &vec![]);
    assert!(connected_components(&graph).is_empty());
}

#[test]
fn components_of_connected_and_isolated_nodes() {
    let movies = vec![movie(0, "A", &["Drama"]), movie(1, "B", &["Comedy"]), movie(2, "C", &["Drama"])];
    let graph = create_graph(movies, &vec![false, true, false]);
    let mut groups: Vec<Vec<usize>> = connected_components(&graph)
        .into_iter()
        .map(|mut g| {
            g.sort();
            g
        })
        .collect();
    groups.sort();
    assert_eq!(groups, vec![vec![0], vec![1, 2]]);
    let largest = find_largest_component(&connected_components(&graph));
    let mut chosen = connected_components(&graph)[largest].clone();
    chosen.sort();
    assert_eq!(chosen, vec![1, 2]);
}

#[test]
fn largest_component_first_on_tie() {
    let components = vec![vec![1], vec![2, 3], vec![4, 5], vec![]];
    assert_eq!(find_largest_component(&components), 1);
    assert_eq!(find_largest_component(&vec![]), 0);
}

#[test]
fn bfs_on_a_path() {
    let graph = path_of_three();
    let dag = shortest_path_dag(&graph, 0);
    assert_eq!(dag.order, vec![0, 1, 2]);
    assert_eq!(dag.distance, vec![Some(0), Some(1), Some(2)]);
    assert_eq!(dag.predecessors, vec![vec![], vec![0], vec![1]]);
    let middle = shortest_path_dag(&graph, 1);
    assert_eq!(middle.order, vec![1, 0, 2]);
    assert_eq!(middle.distance, vec![Some(1), Some(0), Some(1)]);
    assert_eq!(middle.predecessors, vec![vec![1], vec![], vec![1]]);
}

#[test]
fn bfs_without_edges_reaches_the_source_only() {
    let movies = vec![movie(0, "A", &["Drama"]), movie(1, "B", &["Drama"])];
    let graph = create_graph(movies, &vec![false, false]);
    let dag = shortest_path_dag(&graph, 1);
    assert_eq!(dag.order, vec![1]);
    assert_eq!(dag.distance, vec![None, Some(0)]);
    assert_eq!(dag.predecessors, vec![Vec::<usize>::new(), vec![]]);
}

#[test]
fn bfs_counts_both_shortest_routes() {
    // A square 0-1, 0-2, 1-3, 2-3 via two linked items with ids 0 and 3.
    let movies = vec![
        movie(0, "A", &["Drama"]),
        movie(3, "D", &["Drama"]),
        movie(1, "B", &["Comedy"]),
        movie(2, "C", &["Comedy"]),
    ];
    let graph = create_graph(movies, &vec![true, true, false, false]);
    assert_eq!(graph.edges, vec![edge(0, 3, 0), edge(0, 1, 0), edge(0, 2, 0), edge(3, 1, 1), edge(3, 2, 1)]);
    let dag = shortest_path_dag(&graph, 1);
    assert_eq!(dag.distance, vec![Some(1), Some(0), Some(2), Some(1)]);
    assert_eq!(dag.predecessors[2], vec![0, 3]);
}

#[test]
fn top_selection_with_room_for_all() {
    let keys = vec![5, 3, 9, 3];
    assert_eq!(select_top(&keys, 10), vec![(9, 2), (5, 0), (3, 3), (3, 1)]);
    assert_eq!(select_top(&keys, 4), vec![(9, 2), (5, 0), (3, 3), (3, 1)]);
}

#[test]
fn top_selection_bounded() {
    let keys = vec![5, 3, 9, 3, 7];
    let top = select_top(&keys, 2);
    assert_eq!(top, vec![(9, 2), (7, 4)]);
    for i in 0..keys.len() {
        if !top.contains(&(keys[i], i)) {
            assert!(top.iter().all(|t| t.0 >= keys[i]));
        }
    }
}

#[test]
fn top_selection_keeps_first_seen_on_equal_keys() {
    // Which of several equal keys stays follows the order the candidates come in.
    assert_eq!(select_top(&vec![1, 1, 1], 2), vec![(1, 1), (1, 0)]);
}

#[test]
fn top_selection_of_nothing() {
    assert_eq!(select_top(&vec![4, 2], 0), vec![]);
    assert_eq!(select_top(&vec![], 3), vec![]);
}

#[test]
fn rebuilt_graph_gives_the_same_search_structure() {
    let first = vec![movie(1, "A", &["Drama", "Action"]), movie(0, "B", &["Comedy"]), movie(2, "C", &["Drama"])];
    let second = vec![movie(1, "A2", &["Action", "Drama"]), movie(0, "B2", &["Comedy"]), movie(2, "C2", &["Drama"])];
    let g1 = create_graph(first, &vec![true, false, false]);
    let g2 = create_graph(second, &vec![true, false, false]);
    for source in 0..3 {
        let d1 = shortest_path_dag(&g1, source);
        let d2 = shortest_path_dag(&g2, source);
        assert_eq!(d1.distance, d2.distance);
        assert_eq!(d1.predecessors, d2.predecessors);
    }
}
