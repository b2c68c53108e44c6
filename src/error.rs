use vstd::prelude::*;

verus! {

/// What went wrong while reading a torrent or deriving from it.
#[derive(Debug, Clone, Copy, PartialEq, Eq, Structural)]
pub enum Error {
    /// The bytes do not follow the bencode grammar.
    StructuralError,
    /// A field holds another kind of value than the one it must hold.
    TypeMismatchError,
    /// A field that must be present is absent.
    MissingFieldError,
    /// The piece blob is not a whole number of digests.
    PieceAlignmentError,
    /// A length or size is negative or does not fit the integer that holds it.
    RangeError,
}

impl Error {
    /// A short description of the error kind.
    pub fn message(&self) -> (r: &'static str) {
        match self {
            Error::StructuralError => "malformed bencode",
            Error::TypeMismatchError => "a field holds a value of the wrong kind",
            Error::MissingFieldError => "a required field is missing",
            Error::PieceAlignmentError => "the piece blob is not a multiple of the digest size",
            Error::RangeError => "a length or size is out of range",
        }
    }
}

pub type Result<T> = core::result::Result<T, Error>;

} // verus!
