//! A literate-programming "tangle" engine.
//!
//! Markdown documents may carry fenced code blocks whose info string is a
//! tangle address such as `tangle://src/lib.rs?at=a`.  This crate extracts
//! those blocks, validates their addressing, groups them by destination
//! path, orders them by a validated position key, and renders the final
//! content of each destination file.  Reading documents from disk and
//! writing the rendered files back is left to the surrounding application.

pub mod address;
pub mod aggregate;
pub mod blocks;
pub mod document;
pub mod errors;
pub mod position;
pub mod render;
