//! Classical ciphers with verified contracts: Affine, Atbash, Bacon, Caesar,
//! Hill, Polybius square, Rot, Scytale, Vigenère and XOR.
pub mod ciphers;
pub mod common;
pub mod error;
pub mod matrix;
pub mod text;
