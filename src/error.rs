use vstd::prelude::*;

verus! {

#[verifier::external_type_specification]
#[verifier::external_body]
pub struct ExIoError(std::io::Error);

/// What can go wrong in the store.
#[derive(Debug)]
pub enum EngineError {
    /// A failure of the file system.
    IoError(std::io::Error),
    /// `remove` of a key that has no value.
    KeyNotFound,
    /// Bytes that are not a well-formed record, or a failed encoding.
    BincodeError(String),
    /// A lock whose holder panicked.
    LockPoisoned(String),
    /// The index points at a record that is not a `SET` of the key looked up.
    UnexpectedResult,
}

impl EngineError {
    /// The message that describes the error.
    pub fn message(&self) -> (r: String)
        ensures
            self is KeyNotFound ==> r@ == "Key not found"@,
            self is UnexpectedResult ==> r@ == "Unexpected result"@,
            self matches EngineError::BincodeError(m) ==> r@ == "Serde error: "@ + m@,
            self matches EngineError::LockPoisoned(m) ==> r@ == "Lock poisoned: "@ + m@,
            self is IoError ==> r@.len() >= "IO error: "@.len() && r@.subrange(0, "IO error: "@.len() as int)
                == "IO error: "@,
    {
        match self {
            EngineError::IoError(e) => {
                let prefix = String::from_str("IO error: ");
                let detail = e.to_string();
                let r = prefix.concat(detail.as_str());
                assert(r@.subrange(0, "IO error: "@.len() as int) =~= "IO error: "@);
                r
            },
            EngineError::KeyNotFound => String::from_str("Key not found"),
            EngineError::BincodeError(m) => String::from_str("Serde error: ").concat(m.as_str()),
            EngineError::LockPoisoned(m) => String::from_str("Lock poisoned: ").concat(m.as_str()),
            EngineError::UnexpectedResult => String::from_str("Unexpected result"),
        }
    }
}

} // verus!
