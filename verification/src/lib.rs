//! The pattern-matching sublanguage of a text-based test-assertion tool.
//!
//! A matcher source string mixes literal text, `$$name` variable references,
//! and `[[...]]` inline regular-expression fragments (anonymous, or named as
//! `[[name:...]]`).  [`matcher::Matcher::parse`] turns such a string into an
//! ordered sequence of components, [`matcher::Matcher::serialize`] renders the
//! components back into source text, and [`matcher::Matcher::resolve`] compiles
//! the components against a table of variable bindings into one executable
//! regular expression.

pub mod bindings;
pub mod config;
pub mod laws;
pub mod matcher;
pub mod model;
