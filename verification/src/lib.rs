//! A forest of nodes held in one arena and addressed by stable handles.
//!
//! Every node carries a value, an optional parent, an ordered list of children
//! and a cached depth. Nodes are attached below a parent one at a time or in a
//! batch, and are taken out alone or together with their subtree. Every
//! operation leaves the parent and child links in agreement and the cached
//! depths exact.
//!
//! - [`tree`] holds the nodes, the arena and the operations;
//! - [`model`] says what a forest is to the contracts, and what each operation
//!   does to it;
//! - [`theorems`] states what holds of every well-formed forest and of every
//!   outcome of an operation;
//! - [`lemmas`] holds the facts on which the proofs rest;
//! - [`error`] holds the one way in which an attachment fails.

pub mod error;
pub mod lemmas;
pub mod model;
pub mod theorems;
pub mod tree;

pub use error::AlreadyAttached;
pub use tree::{Forest, TreeNode};
