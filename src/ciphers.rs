pub mod affine;
pub mod atbash;
pub mod bacon;
pub mod caesar;
pub mod hill;
pub mod polybius_square;
pub mod rot;
pub mod scytale;
pub mod vigenere;
pub mod xor;
