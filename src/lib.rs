//! Querying and navigating a parsed HTML document held as a flat arena of
//! node records, with composable predicates and ordered node selections.
pub mod arena;
pub mod bits;
pub mod builder;
pub mod document;
pub mod dom;
pub mod laws;
pub mod markup;
pub mod node;
pub mod parse;
pub mod predicate;
pub mod selection;
pub mod strings;
pub mod tree;
