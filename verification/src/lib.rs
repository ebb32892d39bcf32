//! An in-memory roster of employees grouped by department, driven by
//! free-form text commands.
//!
//! The library has two parts: a parser that classifies one line of text
//! into an `add` or `list` command (or rejects it), and a store that
//! keeps the employees in insertion order together with a department
//! index. All responses are returned as plain strings; reading input
//! and printing belong to the caller.

pub mod parse;
pub mod store;
pub mod text;
