//! Extraction of marker-annotated declarations from a parsed module body.
//!
//! A module body is a sequence of declaration nodes; some kinds of node
//! (structs, traits, modules, enums, functions) carry an ordered list of
//! annotations. Given a marker-name prefix, the extraction engine removes,
//! from each node, the first annotation whose plain identifier contains the
//! prefix as a substring, and groups the removed annotations, paired with
//! references to their nodes, by the exact identifier text.

pub mod ast;
pub mod engine;
pub mod extract;
pub mod groups;
pub mod laws;
pub mod text;
