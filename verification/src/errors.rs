//! The ways a command can fail. Every error is terminal for the command
//! that hit it: the caller reports the message and stops.

use vstd::prelude::*;

verus! {

/// What went wrong. `IOError` and `EncodeError` carry or mark failures
/// that only the surrounding process can produce (an unreadable file, a
/// failed write); the store itself reports the other three.
#[derive(Debug)]
pub enum Error {
    /// The per-user storage directory cannot be resolved.
    StorageUnavailable,
    /// A file could not be opened, read or written; carries the
    /// system's description.
    IOError(String),
    /// No snapshot of the given name is stored.
    NotFound(String),
    /// A stored text is not a ledger encoding.
    DecodeError,
    /// A ledger could not be serialised.
    EncodeError,
    /// An entry of the given name is already in the ledger.
    DuplicateName(String),
}

impl Error {
    /// The one-line diagnostic for this error.
    pub fn describe(&self) -> (r: String)
        ensures
            (match self {
                Error::StorageUnavailable => r@ ==
                "An error occurred while attempting to find the current user's home directory; couldn't find it"@,
                Error::IOError(d) => r@ ==
                "An error occurred while attempting to open the data file: "@ + d@,
                Error::NotFound(n) => r@ == "An error occurred: there is no ledger called "@ + n@,
                Error::DecodeError => r@ ==
                "An error occurred while attempting to load from the data file"@,
                Error::EncodeError => r@ ==
                "An error occurred while attempting to save to the data file"@,
                Error::DuplicateName(n) => r@ == "An error occurred: a transaction called "@ + n@
                    + " is already present in the ledger"@,
            }),
    {
        match self {
            Error::StorageUnavailable => {
                "An error occurred while attempting to find the current user's home directory; couldn't find it".to_owned()
            },
            Error::IOError(d) => {
                let mut s = "An error occurred while attempting to open the data file: ".to_owned();
                s.append(d.as_str());
                s
            },
            Error::NotFound(n) => {
                let mut s = "An error occurred: there is no ledger called ".to_owned();
                s.append(n.as_str());
                s
            },
            Error::DecodeError => {
                "An error occurred while attempting to load from the data file".to_owned()
            },
            Error::EncodeError => {
                "An error occurred while attempting to save to the data file".to_owned()
            },
            Error::DuplicateName(n) => {
                let mut s = "An error occurred: a transaction called ".to_owned();
                s.append(n.as_str());
                s.append(" is already present in the ledger");
                s
            },
        }
    }
}

} // verus!
