//! Reads game records written in the Smart Game Format notation: a
//! parenthesized collection of game trees, each a sequence of `;` nodes whose
//! properties carry bracketed values.
pub mod document;
pub mod grammar;
pub mod laws;

pub use document::{parse_collection, parse_node, Collection, GameTree, Node, NodeSeq, Property, Sgf};
pub use grammar::{CollectionPair, GameTreePair, NodePair, PropertyPair, SgfParser};

