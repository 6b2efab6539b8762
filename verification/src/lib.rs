//! A small policy language for network state. A policy names capture
//! expressions, which filter or rewrite the current state, and holds a
//! desired state whose placeholders are filled in from what was captured.
//!
//! The pipeline: `lex` turns an expression into tokens, `parse` builds the
//! syntax tree, `resolve` evaluates the capture entries on state trees, and
//! `expand` fills in the placeholders. `operations::generate_state` runs it
//! all.
pub mod ast;
pub mod capture;
pub mod error;
pub mod expand;
pub mod lex;
pub mod operations;
pub mod parse;
pub mod resolve;
pub mod snippet;
pub mod state;
pub mod text;
pub mod types;

pub use crate::error::NmpolicyError;
