//! The semantic tree of an XML document.
//!
//! A document is parsed ([`process`]), its syntax tree ([`tree`]) is normalised
//! ([`normalize`]), and the normalised tree, once its nodes are hashed ([`hashed`]), is
//! converted to a semantic tree ([`semantic`]). Forms that mean the same have the same
//! normal form:
//!
//! - CDATA sections and escaped text ([`content`], [`entities`]),
//! - namespace prefixes and default namespaces ([`namespaces`]),
//! - attributes in whatever order ([`attributes`]).
//!
//! [`laws`] holds what is proved of the library as a whole.

pub mod attributes;
pub mod content;
pub mod entities;
pub mod hashed;
pub mod labels;
pub mod laws;
pub mod namespaces;
pub mod normalize;
pub mod plugin;
pub mod process;
pub mod semantic;
pub mod text;
pub mod tree;
