//! Core data model of a node-graph editor for nested configuration trees.
//!
//! Configuration trees arrive as schema-less nested objects in which child
//! nodes are embedded as nested objects, selected among interchangeable
//! shapes ("variants") by a discriminator field. This crate covers the data
//! modelling beneath the editor: a registry of node-type descriptors with
//! their grouping and variant metadata, resolution of the concrete descriptor
//! at each embedding point, normalization of a raw nested tree into a
//! validated intermediate tree, and flattening of that tree into explicit
//! node and connection lists for graph-style editing.

pub mod color;
pub mod common;
pub mod graph;
pub mod lookup;
pub mod nodes;
pub mod norm;
pub mod raw;
pub mod schema;
pub mod value_edit;
pub mod workspace;
