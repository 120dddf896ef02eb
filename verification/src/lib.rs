//! Formatting, linting and editing of org-mode documents.
pub mod archive;
pub mod cache;
pub mod config;
pub mod cookie;
pub mod diagnostic;
pub mod document;
pub mod formatter;
pub mod lines;
pub mod props;
pub mod rules;
pub mod runner;
pub mod source;
pub mod state;
pub mod tblfm;
pub mod text;
pub mod unicode;
pub mod edna;
pub mod entry;
pub mod id;
pub mod locator;
