pub mod error;
pub mod graphs;
pub mod weighted_graphs;

mod frontier;
mod keyed;

pub mod arrays;
pub mod avl_trees;
pub mod hash_tables;
pub mod heaps;
pub mod lists;
pub mod queues;
pub mod search;
pub mod sorting;
pub mod stacks;
pub mod trees;
