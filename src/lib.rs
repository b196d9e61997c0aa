//! Similarity graph over a movie catalog, with the verified parts of its
//! centrality analysis: graph assembly, connected components, breadth-first
//! shortest-path structure for Brandes' betweenness, and bounded top-N ranking.
pub mod movie;
pub mod graph;
pub mod components;
pub mod ranking;
pub mod centrality;
