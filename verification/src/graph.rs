pub mod list_graph;
pub mod matrix_graph;
pub mod reach;
