//! A rewrite engine for tensor dataflow graphs.
//!
//! The crate holds a symbolic description of how one consumer looks at a
//! producer's buffer ([`view::ShapeView`]), a dataflow graph whose edges carry
//! such views, template graphs and a matcher that finds their occurrences,
//! and three passes that fuse an algebraic idiom into a single operator node.

pub mod fault;
pub mod expr;
pub mod axis;
pub mod view;
pub mod transform;
pub mod ops;
pub mod node;
pub mod edge;
pub mod store;
pub mod graph;
pub mod pattern;
pub mod matcher;
pub mod passes;
pub mod identity;
