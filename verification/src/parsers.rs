//! Parsers: from a text to blocks of words.

pub mod markdown;
pub mod plaintext;

pub use markdown::MarkdownParser;
pub use plaintext::PlaintextParser;
