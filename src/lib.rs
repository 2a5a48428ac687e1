//! A parser for CONL, an indentation-structured configuration format.
//!
//! [`tokenize`] scans a byte buffer into a tolerant stream of lexical tokens;
//! [`parse`] wraps it, enforces the key/value and map/list structure and stops
//! at the first structural error. [`Token::unescape`] decodes the raw lexeme of
//! a token into its logical string value.
pub mod token;
pub mod unescape;
pub mod tokenizer;
pub mod parser;

pub use token::{SyntaxError, Text, Token};
pub use tokenizer::{tokenize, Tokenizer};
pub use parser::{parse, Parser, SectionType};
