//! Prose linting: tokenizing, part-of-speech tagging and pattern matching over
//! tagged text, with every step stated and proved.
//!
//! A text goes through the library in steps. A parser (see [`parsers`]) cuts
//! it into blocks of spans, and the tokenizer (see [`tokenize`]) cuts the
//! spans into words. The tagger (see [`tagger`] and [`perceptron`]) gives
//! every word a part of speech, from a model (see [`model`]). Rules and
//! measures (see [`rule`], [`rules`] and [`measures`]) search the tagged
//! words with patterns (see [`matcher`]) and hand back warnings and
//! measurements, sorted (see [`sort`]), which [`lines`] turns into lines and
//! columns. That the order in which rules and measures are applied does not
//! show in the results is proved in [`order`].

pub mod block;
pub mod data;
pub mod doc;
pub mod export;
pub mod gather;
pub mod lines;
pub mod matcher;
pub mod measures;
pub mod model;
pub mod order;
pub mod parsers;
pub mod perceptron;
pub mod pos;
pub mod rule;
pub mod rules;
pub mod sort;
pub mod span;
pub mod tagger;
pub mod text;
pub mod tokenize;

pub use block::Block;
pub use block::Word;
pub use doc::Document;
pub use lines::LineCharRange;
pub use pos::Tag;
pub use span::ByteSpan;
pub use tagger::Tagger;
