//! Error kinds of the library.

use vstd::prelude::*;

verus! {

#[derive(Debug, Clone, Copy, PartialEq, Eq, Structural)]
pub enum LinderaErrorKind {
    Args,
    Content,
    Decode,
    Deserialize,
    Io,
    Serialize,
    Compress,
    NotFound,
    Parse,
}

/// An error: its kind and a message naming the cause.
#[derive(Debug)]
pub struct LinderaError {
    pub kind: LinderaErrorKind,
    pub message: String,
}

impl LinderaErrorKind {
    pub fn with_message(self, message: String) -> (r: LinderaError)
        ensures
            r.kind == self,
            r.message@ == message@,
    {
        LinderaError { kind: self, message }
    }
}

impl LinderaError {
    /// The message naming the cause.
    pub fn describe(&self) -> (r: String)
        ensures
            r@ == self.message@,
    {
        self.message.clone()
    }
}

} // verus!
