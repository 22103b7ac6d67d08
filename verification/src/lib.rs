//! Data structures and algorithms with proved contracts: a self-balancing search tree at the
//! centre, and around it plain trees, a heap, stacks, queues and deques, hash tables, graphs,
//! sorts and a Base64 codec.

pub mod array_deque;
pub mod array_queue;
pub mod chain;
pub mod cloning;
pub mod encode;
pub mod graph;
pub mod hash_table;
pub mod link_queue;
pub mod link_stack;
pub mod order;
pub mod permutation;
pub mod queue;
pub mod sort;
pub mod stack;
pub mod tree;
