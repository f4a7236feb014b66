//! A small Redis-compatible server core: request parsing, an in-memory
//! key space with strings and lists, reply encoding, client sessions.

pub mod resp;
pub mod reply;
pub mod db;
pub mod session;
pub mod persistence;
pub mod resp_split;
