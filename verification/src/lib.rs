//! A parser library for a lightweight markup language: a character-level
//! recursive-descent grammar with try/backtrack productions, a document tree
//! model, hierarchical section re-nesting, and an anchor/splice mechanism for
//! merging independently produced (imported) subtrees in place.
pub mod anchor_node;
pub mod document;
pub mod elements;
pub mod parser;
pub mod postprocess;
pub mod section_anchors;
pub mod shims;
pub mod tokenizer;
pub mod tree_parser;
pub mod tokens;
