//! An object graph kept in memory: vertices with 32-bit identifiers, edges
//! that carry a label unique among the edges leaving one vertex, and an optional
//! payload of bytes on each vertex.
//!
//! [`Sodg`] is the store. [`Sodg::merge`] copies what one graph holds below a
//! vertex into another graph, folding edges with equal labels onto each other.
//! [`Script`] builds a graph from a short text of commands.
//!
//! Every function states its result over [`Graph`], the mathematical model of a
//! store.

pub mod bounds;
pub mod clone;
pub mod deploy;
pub mod error;
pub mod faults;
pub mod graph;
pub mod grows;
pub mod image;
pub mod merge;
pub mod payload;
pub mod reach;
pub mod script;
pub mod store;
pub mod text;
pub mod token;
pub mod tree;
pub mod twin;

pub use error::{CommandError, MergeError, ScriptError, StoreError};
pub use graph::{Graph, Link, Node};
pub use script::Script;
pub use store::Sodg;
