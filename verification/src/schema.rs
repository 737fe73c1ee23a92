//! The workspace schema: names, groupings and variant tables.
//!
//! All maps are ordered key/value lists (see [`crate::lookup`]); their order
//! is the declaration order of the schema file and is an explicit contract of
//! every structure derived from them.

use vstd::prelude::*;

verus! {

/// A named root entry of a workspace: which descriptor a new sheet of this
/// kind starts from, and under which menu name it is offered.
#[derive(Debug, Clone)]
pub struct Root {
    pub root_node_type: String,
    pub menu_name: String,
}

/// One variant table entry: the field of a child payload that discriminates
/// the concrete shape, and the discriminator value to descriptor id mapping.
#[derive(Debug, Clone)]
pub struct Variant {
    pub variant_field_name: String,
    pub variants: Vec<(String, String)>,
}

/// The schema of a workspace: its name, export flag, root entries, category
/// groupings of descriptor ids, and the variant tables keyed by the target
/// node id written at a pin.
#[derive(Debug, Clone)]
pub struct WorkspaceSchema {
    pub workspace_name: String,
    pub export_defaults: bool,
    pub roots: Vec<(String, Root)>,
    pub node_categories: Vec<(String, Vec<String>)>,
    pub variants: Vec<(String, Variant)>,
}

} // verus!
