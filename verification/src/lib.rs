//! Reconciliation, layout caching and primitive extraction for a retained-mode
//! user interface.
//!
//! Every frame the host re-evaluates a declarative tree of widget instances.
//! This crate decides what changed, keeps the persistent scene tree up to date,
//! tracks which nodes need new geometry, and flattens the finished tree into an
//! ordered list of paint primitives. Windowing, text shaping, the box-model
//! solver and the GPU are the host's business: they talk to this crate through
//! plain values.

pub mod calculate_nodes;
pub mod context;
pub mod diff;
pub mod focus_tree;
pub mod id_map;
pub mod layout;
pub mod node;
pub mod node_set;
pub mod plugin;
pub mod registry;
pub mod render_primitive;
pub mod scheduler;
pub mod store;
pub mod styles;
pub mod tree;
pub mod tree_model;
