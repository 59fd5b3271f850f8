//! Turns a git commit range into grouped release notes: commits are resolved
//! against a cache of pull-request associations, each pull request is
//! summarized through a text-generation oracle under a strict parsing
//! contract, and the tagged summaries are rendered as markdown.

pub mod cache;
pub mod datefmt;
pub mod errors;
pub mod graph;
pub mod jsonval;
pub mod lookup;
pub mod reconcile;
pub mod records;
pub mod render;
pub mod summarize;
pub mod text;
