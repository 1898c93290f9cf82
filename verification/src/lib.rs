//! Filesystem walking.
pub mod aborting;
pub mod absolute;
pub mod agreement;
pub mod bytes;
pub mod classify;
pub mod components;
pub mod config_laws;
pub mod dirent;
pub mod ending;
pub mod failure;
pub mod git_config;
pub mod gitignore;
pub mod glob;
pub mod ignore_rules;
pub mod line_laws;
pub mod listing;
pub mod literal;
pub mod options;
pub mod path_laws;
pub mod paths;
pub mod pattern;
pub mod pattern_error;
pub mod repository;
pub mod rewrite_laws;
pub mod rule_laws;
pub mod rule_syntax;
pub mod runs;
pub mod search;
pub mod stream;
pub mod unicode;
pub mod volume;
pub mod walk;
pub mod walker;
