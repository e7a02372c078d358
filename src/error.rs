use vstd::prelude::*;

verus! {

#[verifier::external_type_specification]
#[verifier::external_body]
pub struct ExIoError(std::io::Error);

#[verifier::external_type_specification]
#[verifier::external_body]
pub struct ExJsonError(serde_json::Error);

/// Everything that can go wrong in the store.
#[derive(Debug)]
pub enum KvsError {
    /// The store's internal consistency is broken: an index entry that does
    /// not lead to a `Set` record of its key, a segment that cannot be placed,
    /// or a length that cannot be accounted for.
    Unexpected,
    /// `remove` of a key that the store does not hold.
    KeyNotFound,
    /// The storage path exists but is not a directory.
    InvalidPath,
    /// A filesystem operation failed.
    IoError(std::io::Error),
    /// A record on disk could not be decoded, or one could not be encoded.
    SerdeJsonError(serde_json::Error),
}

/// The description of each error kind.
pub open spec fn message_of(e: &KvsError) -> Seq<char> {
    match e {
        KvsError::Unexpected => "Unexpected internal state"@,
        KvsError::KeyNotFound => "Key not found"@,
        KvsError::InvalidPath => "Invalid path"@,
        KvsError::IoError(_) => "I/O error"@,
        KvsError::SerdeJsonError(_) => "Malformed record"@,
    }
}

impl KvsError {
    /// A short description of the error kind.
    pub fn message(&self) -> (r: String)
        ensures
            r@ == message_of(self),
    {
        match self {
            KvsError::Unexpected => String::from_str("Unexpected internal state"),
            KvsError::KeyNotFound => String::from_str("Key not found"),
            KvsError::InvalidPath => String::from_str("Invalid path"),
            KvsError::IoError(_) => String::from_str("I/O error"),
            KvsError::SerdeJsonError(_) => String::from_str("Malformed record"),
        }
    }
}

impl From<std::io::Error> for KvsError {
    fn from(e: std::io::Error) -> (r: KvsError) {
        KvsError::IoError(e)
    }
}

impl vstd::std_specs::convert::FromSpecImpl<std::io::Error> for KvsError {
    open spec fn obeys_from_spec() -> bool {
        true
    }

    open spec fn from_spec(e: std::io::Error) -> KvsError {
        KvsError::IoError(e)
    }
}

impl From<serde_json::Error> for KvsError {
    fn from(e: serde_json::Error) -> (r: KvsError) {
        KvsError::SerdeJsonError(e)
    }
}

impl vstd::std_specs::convert::FromSpecImpl<serde_json::Error> for KvsError {
    open spec fn obeys_from_spec() -> bool {
        true
    }

    open spec fn from_spec(e: serde_json::Error) -> KvsError {
        KvsError::SerdeJsonError(e)
    }
}

} // verus!
