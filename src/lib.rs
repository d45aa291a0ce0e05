//! Directory-scoped environment configuration: a parser for per-directory
//! configuration files, the walk that collects them along a directory chain,
//! and the fixpoint engine that resolves their variables into one namespace.

pub mod text;

pub mod parser;
pub mod syntax_lemmas;

pub mod varmap;
pub mod resolve;
pub mod resolve_lemmas;

pub mod visit;
pub mod shells;
pub mod config;
