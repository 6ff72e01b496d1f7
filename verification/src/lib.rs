//! Turns a flat sequence of keyed values into a forest whose nesting follows the prefix
//! order of the keys, as lines of text nest by their indentation.
//!
//! `prefix` holds the prefix test on keys, `tree` the trees, `forest` what building means,
//! and `builder` the code that builds. `laws`, `traversal`, `depth`, `hierarchy`, `roots`
//! and `relabel` prove what holds of every forest that is built. `layout` describes how a
//! tree is laid out as a document.

pub mod builder;
pub mod depth;
pub mod error;
pub mod forest;
pub mod hierarchy;
pub mod laws;
pub mod layout;
pub mod prefix;
pub mod relabel;
pub mod roots;
pub mod traversal;
pub mod tree;
