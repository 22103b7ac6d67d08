pub mod link_deque;
pub mod link_queue;
