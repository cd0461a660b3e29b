//! atlas — the autobuilder corpus as a queryable graph of typed nodes.
//!
//! **Read-only invariant:** atlas never writes any file in the corpus.
pub mod args;
pub mod doctor;
pub mod edges;
pub mod graph;
pub mod model;
pub mod order;
pub mod output;
pub mod parsers;
pub mod paths;
pub mod perm;
pub mod render;
pub mod text;
