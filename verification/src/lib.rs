//! Legend Keeper world files: schema, in-memory stores, world building and
//! ProseMirror/markdown conversion.

pub mod json;
pub mod lk;
pub mod prosemirror;
pub mod server;
pub mod text;
