//! Revlog manifest core: the binary format for directory snapshot
//! manifests (parse and generate), node hashes and paths, and lazy
//! resolution of entry content against a content-addressed store.

pub mod errors;
pub mod hex;
pub mod linknodes;
pub mod manifest;
pub mod nodehash;
pub mod order;
pub mod path;
pub mod revlog;
