//! Lexical-analysis front end for a small programming language: it turns raw
//! source text into a sequence of classified tokens with exact position
//! information, and renders source-anchored diagnostics when scanning fails.

pub mod gl_exception;
pub mod gl_lexer;
pub mod gl_strings;
pub mod gl_token;
pub mod gl_token_position;
pub mod gl_tokens;
