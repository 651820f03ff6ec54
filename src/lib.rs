//! A read-mostly spatial index over line-delimited geographic records.
//!
//! Records are indexed by their bounding boxes in a flat, pre-order,
//! threaded binary tree, and served by resumable bounding-box queries.
pub mod bbox;
pub mod node;
pub mod tree;
pub mod search;
pub mod index;
pub mod laws;
pub mod table;
pub mod codec;
pub mod file;
pub mod database;
