//! A HOCON configuration parser with verified contracts.
//!
//! `lexer` recognises the tokens of the format, `grammar` states the grammar
//! as mathematical functions and `parser` implements it, turning text into a
//! flat list of path/value entries (`internal`) of the values in `value`;
//! `locality` shows that the grammar reads only what follows a position.
//! `builder` places the entries into a tree, resolving what substitutions it
//! can on the way; `tree` holds the tree and finishes it into a `Hocon`
//! document; `loader` ties the steps together, with includes; `document`
//! reads a finished document. `primitives` holds the calls into std and into
//! the `uuid` crate that the rest is proved against.
pub mod lexer;
pub mod primitives;
pub mod value;
pub mod internal;
pub mod grammar;
pub mod locality;
pub mod parser;
pub mod tree;
pub mod builder;
pub mod loader;
pub mod document;
