//! Decoding of packed archives: one JSON header that describes a tree of
//! files, followed by the concatenated contents of those files.

pub mod archive;
pub mod classify;
pub mod disk;
pub mod extract;
pub mod json;
pub mod layout;
pub mod text;
pub mod tree;
