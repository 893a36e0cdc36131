//! An interactive outline model for hierarchical documents: a navigable node
//! tree built from a parsed value, a flattening of that tree into the ordered
//! list of visible rows, and cursor/toggle navigation over those rows.
pub mod value;
pub mod tree;
pub mod nav;
pub mod render;
