pub mod b_tree;
pub mod binary_search_tree;
pub mod breadth_first_search;
pub mod dijkstra;
