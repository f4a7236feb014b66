//! JSON text: minifying it, parsing it into values whose numbers are kept
//! as the text they were written with, and editing such values by path.

pub mod minify;
pub mod value;
pub mod parser;

pub use minify::{minify_json, MinifyError};
