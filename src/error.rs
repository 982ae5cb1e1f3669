use vstd::prelude::*;

verus! {

/// The errors of the library.
///
/// The store and the serializer live outside the library, so their failures
/// are carried here as the message that the caller took from them.
#[derive(Debug, Clone)]
pub enum Error {
    /// The store could not be reached or answered with a protocol error.
    Store(String),
    /// A stored value could not be read as the expected record.
    Serialization(String),
    /// A single-record lookup found no record under the key it names.
    NotFound(String),
    /// A field rule failed; the message says which.
    Validation(String),
    /// The connection to the store could not be set up.
    Connection(String),
    /// A query or a pattern could not be built from what was given.
    InvalidQuery(String),
    /// Any other failure.
    Other(String),
}

/// The result type of the library.
pub type Result<T> = core::result::Result<T, Error>;

} // verus!
