pub mod bubble_sort;
pub mod counting_sort;
pub mod heap_sort;
pub mod insert_sort;
pub mod merge_sort;
pub mod quick_sort;
pub mod select_sort;
pub mod sorted;
