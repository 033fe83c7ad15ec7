//! A bookmark tree: folders and bookmarks held in an arena, reshaped by
//! validated operations and exchanged as nested JSON documents.
//!
//! Every operation keeps the tree well formed: one root, one parent per node,
//! ordered children without repeats, no cycles, and at most one toolbar folder,
//! which sits directly below the root. An operation that is refused reports an
//! error and leaves the tree as it was.
//!
//! - [`tree`] holds the mathematical model of a tree, [`rules`] says when an
//!   operation is refused and where an accepted one puts its node, and
//!   [`shape`] proves that the changes keep the model well formed.
//! - [`arena`] holds the nodes and the primitive changes, [`bookmarks`] the
//!   operations built on them, and [`commands`] the entry points of a user
//!   interface.
//! - [`serialize`] writes a tree as a nested document, [`load`] reads one
//!   back, and [`roundtrip`] proves that nothing is lost on the way. [`json`]
//!   and [`web`] hold what is taken on trust from `serde_json` and `url`.
//! - [`laws`] states what holds of every tree that the operations produce.

pub mod error;
pub mod node;
pub mod seqs;
pub mod tree;
pub mod shape;
pub mod rules;
pub mod web;
pub mod json;
pub mod arena;
pub mod bookmarks;
pub mod serialize;
pub mod load;
pub mod commands;
pub mod laws;
pub mod roundtrip;
