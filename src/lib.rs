//! A small line filter in the manner of `grep`: given a query and a block of
//! text, it returns the lines of the text that contain the query, either
//! exactly or after folding both to lower case.
//!
//! Text is modelled by its UTF-8 bytes. A line is a maximal run of bytes
//! between newline bytes (`b'\n'`); a carriage return stays part of its line,
//! and the empty piece after a final newline (or an empty text) is no line.

use vstd::prelude::*;

pub mod config;
pub mod laws;
pub mod model;
pub mod search;

pub use config::Config;
pub use search::{contains, filter, search, search_case_insensitive, split_lines};
