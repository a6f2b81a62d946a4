//! An in-memory ordered index built on a multi-way search tree that splits
//! overfull nodes on insertion, together with an array-backed binary heap.

pub mod b_tree;
pub mod binary_heap;
pub mod laws;
pub mod seq_facts;
