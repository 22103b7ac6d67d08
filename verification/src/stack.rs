pub mod array_stack;
