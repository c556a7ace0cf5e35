//! A block-level Markdown parser that turns a text buffer into a stream of
//! structural events, with every step stated as a contract and proved.
//!
//! The input is scanned byte by byte. The block tree is kept in an arena with
//! a cursor, and walked in pre-order to give the events.
pub mod balance;
pub mod block_level_parser;
pub mod frontier;
pub mod grammar;
pub mod html;
pub mod marks;
pub mod parser;
pub mod scanner;
pub mod spans;
pub mod text;
pub mod tree;
pub mod types;
