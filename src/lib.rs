//! A parser-combinator engine: primitive matchers composed by sequencing,
//! ordered choice, repetition, lookahead and annotation into recursive-descent
//! parsers that yield a labeled parse tree or a traceable error.
pub mod cursor;
pub mod tree;
pub mod error;
pub mod primitives;
pub mod combinators;
pub mod parser;
pub mod laws;
pub mod text;
