//! Edit trees for lemmatization: a compact, learnable representation of the
//! transformation from a word's surface form to its lemma.
//!
//! The crate offers four operations on character sequences:
//! encoding a `(form, lemma)` pair into a [`tree::EditTree`], decoding a tree
//! applied to a form back into a lemma, and rendering a tree to and from its
//! canonical textual label, usable as a single classification category.

pub mod decode;
pub mod encode;
pub mod job;
pub mod label;
pub mod laws;
pub mod parse;
pub mod tree;
pub mod util;
