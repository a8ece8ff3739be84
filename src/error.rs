//! The errors that the library reports.

use vstd::prelude::*;

verus! {

/// Errors of the storage engines and of the datafile naming scheme.
#[derive(Debug)]
pub enum DbError {
    /// `remove` named a key that the store does not hold.
    KeyNotFound,
    /// The index pointed at a record that is not a `Set` record.
    OffsetError,
    /// The log holds a record that does not parse, or ends in an unterminated record.
    Parse,
    /// A directory entry looked like a datafile but its name does not parse.
    InvalidDatafileName(String),
    /// The sled backend returned a value that is not UTF-8.
    BackendUtf8,
    /// The sled backend failed.
    Backend(sled::Error),
}

} // verus!
