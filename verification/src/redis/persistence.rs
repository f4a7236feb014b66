//! Types of the persistence layer.
use vstd::prelude::*;

verus! {

/// How often an append-only file is synced.
#[derive(Debug, Copy, Clone)]
pub enum AofFsyncPolicy {
    Always,
    EverySec,
    NoFsync,
}

/// `std::io::Error`, carried through opaquely.
#[verifier::external_type_specification]
#[verifier::external_body]
pub struct ExIoError(std::io::Error);

/// Why persisted state could not be written or read.
#[derive(Debug)]
pub enum PersistenceError {
    Io(std::io::Error),
    Corrupt(String),
}

impl From<std::io::Error> for PersistenceError {
    fn from(e: std::io::Error) -> (r: Self) {
        PersistenceError::Io(e)
    }
}

impl vstd::std_specs::convert::FromSpecImpl<std::io::Error> for PersistenceError {
    open spec fn obeys_from_spec() -> bool {
        true
    }

    open spec fn from_spec(e: std::io::Error) -> PersistenceError {
        PersistenceError::Io(e)
    }
}

} // verus!
