//! Tokenizing markup into start-tag, end-tag and text events: a one-shot
//! tokenizer that returns owned events, and a queued tokenizer that takes
//! input in pieces and hands out events that borrow from what it was given.

pub mod native;
pub mod compat;
pub mod split;
