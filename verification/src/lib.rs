//! An extensible-data-notation library: a value model with total ordering,
//! a text parser and printer that are mutual inverses on canonical forms,
//! a deduplicating symbol store, and an encoder bridge for structured data.

pub mod error;
pub mod float;
pub mod foreign;
pub mod parser;
pub mod printer;
pub mod ser;
pub mod symbol;
pub mod value;
pub mod text;
