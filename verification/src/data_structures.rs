//! Containers.

pub mod fenwick_tree;
pub mod min_stack;
pub mod sparse_table;
pub mod union_find;
