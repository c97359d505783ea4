//! Line- and byte-oriented text utilities over in-memory byte streams:
//! concatenation with line numbers, counting of lines, words, bytes and
//! characters, and truncation to the first lines or bytes.

pub mod cat;
pub mod config;
pub mod decimal;
pub mod decode;
pub mod head;
pub mod lines;
pub mod report;
pub mod source;
pub mod text;
pub mod wc;
pub mod words;
