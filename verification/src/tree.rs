pub mod avl_tree;
pub mod binary_search_tree;
pub mod binary_tree;
pub mod levels;
pub mod max_heap;
pub mod search_laws;
pub mod shape;
pub mod walk;
