//! Lexical scope environment: a flat arena of blocks organised as a
//! left-child/right-sibling tree, grouped into regions that own contiguous
//! block ranges and carry symbol bindings.

pub mod env;
pub mod scenarios;
