//! Verified core of sakuin, a full-text search engine for large code bases.

pub mod binary_detect;
pub mod bridge;
pub mod cli;
pub mod ffi;
pub mod git;
pub mod index;
pub mod indexing;
pub mod logging;
pub mod order;
pub mod path_filter;
pub mod paths;
pub mod project_config;
pub mod search;
pub mod search_worker;
pub mod state;
pub mod text;
pub mod tokenizer;
pub mod types;
pub mod walker;
pub mod watcher;
