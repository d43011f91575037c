//! A lexical analyzer that turns a flat source string (JavaScript-like
//! syntax) into a nested tree of tokens, resolving matched bracket pairs
//! (`()`, `[]`, `{}`) into grouping nodes in a single stack-based pass.
//!
//! `lexer::to_tokens` is the entry point; its result is specified exactly
//! by `model::spec_tokenize`. `serial::to_source` re-serializes a token
//! tree, and `laws` proves the library's laws: tokenizing whitespace yields
//! nothing, re-tokenizing a re-serialized tree restores it, unmatched and
//! mismatched delimiters fail with their named errors, and matched
//! delimiter pairs correspond one to one to `Group` tokens.

pub mod token;
pub mod model;
pub mod stream;
pub mod lexer;
pub mod serial;
pub mod laws;
