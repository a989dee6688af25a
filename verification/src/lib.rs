//! Authorization pattern scanning: compiled scan rules, extraction of
//! permission checks from source text, catalogs of registered permissions
//! and the reports built from scan results.
pub mod catalog;
pub mod cli;
pub mod config;
pub mod matcher;
pub mod pattern;
pub mod reporter;
pub mod scanner;
pub mod text;
