//! An in-memory index over layered configuration files in the section/key/value
//! format of `.gitconfig` and `.gitmodules`.
//!
//! Files are loaded in priority order; a later directive for a key shadows every
//! earlier one. Typed lookups interpret the winning value as an integer, a
//! boolean, a string or a path.

pub mod bytes;
pub mod directive;
pub mod grammar;
pub mod key;
pub mod laws;
pub mod number;
pub mod parser;
pub mod path;
pub mod set;
pub mod text;
