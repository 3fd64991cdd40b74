//! Conversion between shell-style glob patterns and the regular
//! expressions that describe the same matches, and matching a glob
//! directly against a text.
use vstd::prelude::*;

pub mod braces;
pub mod cli;
pub mod glob;
pub mod laws;
pub mod matcher;
pub mod regex;
pub mod syntax_laws;
pub mod text;
pub mod to_glob;
pub mod to_regex;

pub use cli::{convert_one, usage};
pub use matcher::glob_match;
pub use to_glob::regex_to_glob;
pub use to_regex::glob_to_regex;

verus! {

} // verus!
