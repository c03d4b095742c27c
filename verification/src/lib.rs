//! Duplicate-code evidence: structural and lexical matching of functions,
//! statement windows and token clones.
pub mod audit;
pub mod blocks;
pub mod bodies;
pub mod clones;
pub mod comments;
pub mod evidence;
pub mod exclude;
pub mod extract;
pub mod gitdiff;
pub mod glob_set;
pub mod grouping;
pub mod index;
pub mod normalized;
pub mod order;
pub mod renaming;
pub mod sitter;
pub mod syntax;
pub mod text;
pub mod walk;
