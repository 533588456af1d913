use vstd::prelude::*;

verus! {

/// Why a record could not be read or written in the binary document format.
#[derive(Clone, Copy, Debug, PartialEq, Eq, Structural)]
pub enum Error {
    /// The length declared in the first four bytes is not the length of the buffer.
    LengthMismatch,
    /// An element or a terminator is not where the declared lengths put it.
    Malformed,
    /// The document needs more bytes than a declared length can express.
    TooLarge,
}

impl Error {
    /// A short description for diagnostics.
    pub fn describe(&self) -> (text: &'static str)
        ensures
            text@ == match *self {
                Error::LengthMismatch => "declared document length differs from buffer length"@,
                Error::Malformed => "element layout runs outside its document"@,
                Error::TooLarge => "document exceeds the largest declarable length"@,
            },
    {
        match self {
            Error::LengthMismatch => "declared document length differs from buffer length",
            Error::Malformed => "element layout runs outside its document",
            Error::TooLarge => "document exceeds the largest declarable length",
        }
    }
}

} // verus!
