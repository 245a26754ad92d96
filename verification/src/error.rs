use vstd::prelude::*;

verus! {

/// The error taxonomy of the library.
///
/// `IoError` wraps a description of a failure of the underlying storage,
/// `UnexpectedComportment` reports a malformed object or a broken invariant
/// met during a traversal, and `Encryptor` reports a failure of the stream
/// codec that carries objects to durable storage.
#[derive(Debug)]
pub enum RepTreeError {
    IoError(String),
    UnexpectedComportment(String),
    Encryptor(String),
}

impl RepTreeError {
    /// The human-readable description carried by the error.
    pub open spec fn text(self) -> Seq<char> {
        match self {
            RepTreeError::IoError(m) => m@,
            RepTreeError::UnexpectedComportment(m) => m@,
            RepTreeError::Encryptor(m) => m@,
        }
    }

    /// Returns the description carried by the error.
    pub fn message(&self) -> (m: &String)
        ensures
            m@ == self.text(),
    {
        match self {
            RepTreeError::IoError(m) => m,
            RepTreeError::UnexpectedComportment(m) => m,
            RepTreeError::Encryptor(m) => m,
        }
    }
}

} // verus!
