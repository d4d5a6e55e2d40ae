//! Policy-as-code compliance checking for configuration files.
//!
//! A policy author writes rules as literal configuration snippets with a
//! small embedded operator language (wildcards, OR lists, named operators).
//! This crate compiles such snippets into tree-pattern queries for a
//! structural matcher, evaluates the predicates the matcher does not handle
//! natively, and resolves one Allow/Deny verdict per matched entity.

pub mod ast;
pub mod builder;
pub mod document;
pub mod operations;
pub mod report;
pub mod rule;
pub mod strutil;
pub mod syntax;
