//! The write-ahead log: its format, and what the writer decides. Files are read and
//! written elsewhere.

pub mod codec;
pub mod frame;
pub mod frontier;
pub mod header;
pub mod record;
pub mod segments;
pub mod sync_backend;
pub mod writer;

use vstd::prelude::*;

verus! {

/// The number of a log record. Records count from one; zero stands for none.
pub type Lsn = u64;

/// An error of the log.
#[derive(Debug)]
pub enum WalError {
    /// The log file exists already.
    AlreadyExists,
    /// There is no log file.
    NotFound,
    /// The directory of the log file does not exist.
    ParentNotFound,
    /// Reading or writing failed.
    Io { message: String },
    /// A record cannot be read or published.
    CorruptedRecord { message: String },
    /// The log file does not begin with a header.
    CorruptedHeader,
    /// The log cannot change its rank regime here.
    InvalidRegimeStamp { message: String },
}

} // verus!
