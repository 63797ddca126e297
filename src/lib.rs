//! An undirected graph whose nodes live in a reference-counted arena, with
//! breadth-first traversal.

pub mod graph;

pub use crate::graph::{Arena, Graph, Node, NodeRef};
