use vstd::prelude::*;

verus! {

/// The decoding failure detail that the standard library reports.
#[verifier::external_type_specification]
#[verifier::external_body]
pub struct ExUtf8Error(std::str::Utf8Error);

/// An error encountered while parsing an RSV stream.
#[derive(Debug, Clone, Copy, PartialEq, Eq)]
pub enum Error {
    /// The input ended without a row terminator byte.
    UnterminatedRow,
    /// The row ended without a value terminator byte.
    UnterminatedValue,
    /// A value contained invalid UTF-8.
    BadUTF8(std::str::Utf8Error),
}

/// The kind of an [`Error`], without the decoding detail: what the model of
/// the format speaks of.
pub enum Fault {
    /// The buffer ended inside a row.
    UnterminatedRow,
    /// A row ended inside a value.
    UnterminatedValue,
    /// A value's span was neither the null marker nor UTF-8.
    BadUtf8,
}

impl Error {
    /// The kind of this error.
    pub open spec fn fault(self) -> Fault {
        match self {
            Error::UnterminatedRow => Fault::UnterminatedRow,
            Error::UnterminatedValue => Fault::UnterminatedValue,
            Error::BadUTF8(_) => Fault::BadUtf8,
        }
    }
}

} // verus!
