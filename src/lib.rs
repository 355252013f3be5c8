//! A backtracking recursive-descent parser for a small expression language:
//! integer and string literals, identifiers, `let` bindings, braced scopes,
//! parenthesised groups and curried function literals.
//!
//! Every executable function is proved equal to a spec-level reading of the
//! grammar, so callers can reason about what a parse returns without running it.
pub mod text;
pub mod parsing;
pub mod ast;
pub mod grammar;
pub mod parsers;
pub mod laws;
