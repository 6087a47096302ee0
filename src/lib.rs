//! A bencode codec: a lexer and recursive-descent parser that turn bytes
//! into a value tree, and a serializer that writes a tree back in canonical
//! form.
//!
//! Decoding succeeds exactly on the texts of admissible values (`decodable`),
//! and yields the value with every dictionary in key order (`decodes_to`);
//! serializing writes `encode` of the value.
pub mod value;
pub mod decimal;
pub mod encoding;
pub mod node;
pub mod lexer;
pub mod parser;
pub mod laws;

pub use lexer::{Error, ErrorKind, Lexer, Token};
pub use node::{BDict, BNode};
pub use parser::{parse, Parser};
