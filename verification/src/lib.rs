//! Lossless syntax trees: tokenizers, a recursive-descent parser core that
//! drives a `rowan` tree builder, and typed views over the resulting trees,
//! instantiated for a small COBOL subset and for S-expressions.

pub mod cobol;
pub mod feed;
pub mod green;
pub mod s_expression;
pub mod syntax;
pub mod text;
