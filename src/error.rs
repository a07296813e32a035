use vstd::prelude::*;

verus! {

/// Why a key was refused or a text could not be transformed.
#[derive(Debug, Clone, Copy, PartialEq, Eq, Structural)]
pub enum CipherError {
    /// An Affine key component lies outside its range.
    KeyOutOfRange,
    /// The Affine multiplier shares a factor with 26.
    KeyNotCoprime,
    /// A Caesar rotation outside 1..=26.
    InvalidRotation,
    /// A Scytale key of zero faces.
    ZeroKey,
    /// The two Bacon symbols are the same character.
    IdenticalSymbols,
    /// A key-stream key with no characters.
    EmptyKey,
    /// A key stream of length zero was asked for.
    InvalidLength,
    /// A Polybius ciphertext of odd length.
    OddLength,
    /// A Polybius ciphertext holding a character that is not a digit.
    NonNumeric,
    /// A Polybius digit outside 1..=5.
    InvalidCoordinate,
    /// A Hill text whose length is not a multiple of the key dimension.
    InvalidBlockLength,
    /// A Hill text holding a character outside `A`..=`Z`.
    InvalidCharacter,
    /// A value or matrix without an inverse modulo the modulus.
    NotInvertible,
    /// Matrix shapes that do not fit the operation.
    DimensionMismatch,
    /// A matrix without rows.
    EmptyMatrix,
    /// A matrix entry that does not fit in an `i32`.
    Overflow,
}

} // verus!
