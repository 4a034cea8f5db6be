//! Verified core of a tool that stitches a project's files into one text document:
//! hierarchy parsing and rendering, comment stripping, source filters, path logic,
//! directory-tree assembly and workspace profile handling.
pub mod chars;
pub mod text;
pub mod strip;
pub mod paths;
pub mod slint_filters;
pub mod hierarchy;
pub mod tree;
pub mod scan_trace;
pub mod tree_scan;
pub mod selection;
pub mod session;
pub mod workspace;
pub mod ui_state;
pub mod rust_comments;
pub mod rust_signatures;
pub mod rust_filters;
pub mod wildcard;
pub mod hierarchy_laws;
pub mod text_laws;
pub mod path_laws;
pub mod output;
pub mod filter_laws;
