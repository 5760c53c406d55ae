pub mod graph;
pub mod segment_tree;
pub mod dijkstra;
