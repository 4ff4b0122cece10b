//! A single-pass, allocation-free JSON tokenizer.
//!
//! The tokenizer scans a byte buffer left to right and fills a caller-owned,
//! fixed-capacity array of [`Token`]s, each describing the kind and byte range
//! of one JSON element (object, array, string or primitive). No tree is built
//! and no value is decoded: numbers, booleans and strings are returned as raw
//! byte ranges into the input.
//!
//! The parser state ([`JsonParser`]) is a plain value that persists across
//! calls, so a buffer that grows over time can be fed incrementally: a call
//! that returns [`Error::Part`] can be retried with the same state once more
//! bytes have been appended to the same buffer.
//!
//! Every operation is specified against a mathematical model of the scan
//! (module [`model`]) and verified against it; the laws that follow from the
//! model (idempotence of the token count, resumability, capacity boundaries)
//! are stated and proved in module [`laws`].

pub mod laws;
pub mod model;
pub mod parser;
pub mod token;

pub use parser::JsonParser;
pub use token::Error;
pub use token::Token;
pub use token::TokenKind;
