//! A small verified text-search library.
//!
//! Given a query string and a block of text, [`search`] and
//! [`search_case_insensitive`] return the lines of the text that contain the
//! query, in source order; [`Config::build`] resolves raw invocation
//! arguments into a [`Config`] that says what to search for and how.

pub mod config;
pub mod search;
pub mod text;

pub use config::Config;
pub use config::ConfigError;
pub use search::search;
pub use search::search_case_insensitive;
pub use search::search_with;
pub use text::contains;
pub use text::split_lines;
