use vstd::prelude::*;

verus! {

/// The ways an operation of the store can fail.
#[derive(Debug, Clone, PartialEq, Eq)]
pub enum Error {
    /// The log could not be read or written; the text says why.
    Io(String),
    /// A record's payload is not the encoding of any command.
    CorruptRecord,
    /// An index entry does not address a `Put` record for its key.
    CorruptIndex,
    /// The encoded command does not fit the two-byte length prefix.
    RecordTooLarge,
    /// `remove` was asked for a key that holds no value.
    KeyNotFound(String),
}

} // verus!
