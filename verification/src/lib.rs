//! A verified core for a file-deleting command-line tool: a breadth-first
//! directory walker driven by a per-entry decision rule, the deletion policy
//! that matches basenames against target and exclude sets, confirmed-deletion
//! planning with byte accounting, human-readable byte formatting, and the
//! parsing of confirmation answers. The directory tree is modelled as an
//! arena of nodes that the surrounding program reads from disk.
pub mod confirm;
pub mod format;
pub mod request;
pub mod traverse;
pub mod tree;
