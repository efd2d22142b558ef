//! Compiler core for a small component-description language: a source file
//! combines pass-through declarations, an optional `server` block, an optional
//! `client` block, and exactly one markup-root expression. The library carves
//! the top-level statement tree into those sections, builds a pruned reactive
//! scope graph, lowers the markup tree into a flat template of literal
//! fragments and dynamic expression slots, and serializes the result.
pub mod ast;
pub mod boomer;
pub mod codegen;
pub mod parser;
pub mod reactive;
pub mod transform;
pub mod jsx_transform;
