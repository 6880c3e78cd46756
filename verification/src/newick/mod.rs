pub mod binary_tree_parser;
pub mod binary_tree_writer;
pub mod lexer;
pub mod round_trip;
pub mod writer;

pub use binary_tree_parser::{BinaryTreeParser, ParserError};
pub use writer::NewickWriter;
