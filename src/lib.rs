pub mod config;
pub mod find;
pub mod lines;
pub mod text;

pub use config::{matching_lines, Config};
pub use find::{search, search_case_insensitive};
