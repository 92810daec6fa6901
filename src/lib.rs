//! Parses line-oriented chat protocol messages (an optional `:prefix`, a
//! command, middle parameters and one trailing parameter, ended by CRLF) out
//! of a byte stream that may arrive in pieces.
//!
//! `read_parser` holds the scanner and the decoded message, `parser` the
//! incremental reader built on it, `message` the ways a message can be read,
//! `grammar` and `wire` the mathematics the code is proved against.
pub mod boundaries;
pub mod bytes;
pub mod grammar;
pub mod message;
pub mod parser;
pub mod read_parser;
pub mod spans;
pub mod text;
pub mod wire;
