pub mod base;
pub mod delimiter;
pub mod block_detector;
pub mod code;
pub mod header;
pub mod image;
pub mod text;
pub mod parser;
