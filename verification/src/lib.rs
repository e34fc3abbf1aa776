//! Line-oriented text search: find the lines of a text that contain a query,
//! with or without regard to letter case.

pub mod casefold;
pub mod config;
pub mod encoding;
pub mod finder;
pub mod lines;
pub mod pattern;
pub mod sequences;

pub use crate::casefold::{folds_like_ascii, is_own_lowercase};
pub use crate::config::{run, Config};
pub use crate::finder::{search, search_case_insensitive, search_with, CaseSensitivity};
pub use crate::lines::split_first_line;
pub use crate::pattern::{contains, Pattern};
