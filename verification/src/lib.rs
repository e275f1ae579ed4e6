//! A small CommonMark-oriented Markdown scanner and parser, with the
//! behaviour of every stage stated as a contract and proved.

pub mod token_type;
pub mod chars;
pub mod token;
pub mod scanner;
pub mod ast;
pub mod parser;
pub mod render;
