use cienli::ciphers::hill::{char_to_code, code_to_char, hill_cipher, hill_cipher_decrypt};
use cienli::error::CipherError;

fn key() -> Vec<Vec<i32>> {
    vec![vec![6, 24, 1], vec![13, 16, 10], vec![20, 17, 15]]
}

#[test]
fn test_hill_cipher_encryption() {
    assert_eq!(
        hill_cipher(
            "ACT",
            vec![vec![6, 24, 1], vec![13, 16, 10], vec![20, 17, 15]]
        )
        .unwrap(),
        "POH"
    );
}

#[test]
fn test_hill_cipher_decryption() {
    assert_eq!(
        hill_cipher_decrypt(
            "POH",
            vec![vec![6, 24, 1], vec![13, 16, 10], vec![20, 17, 15]]
        )
        .unwrap(),
        "ACT"
    );
}

#[test]
fn test_char_to_code() {
    assert_eq!(char_to_code('A'), 0);
    assert_eq!(char_to_code('Z'), 25);
}

#[test]
fn test_code_to_char() {
    assert_eq!(code_to_char(0), 'A');
    assert_eq!(code_to_char(25), 'Z');
}

#[test]
fn hill_round_trip_several_blocks() {
    let text = "RETREATNOWXYZ";
    let padded = format!("{}{}", text, "QR");
    let enc = hill_cipher(&padded, key()).unwrap();
    assert_eq!(padded.len(), enc.len());
    assert_eq!(padded, hill_cipher_decrypt(&enc, key()).unwrap());
}

#[test]
fn hill_empty_text() {
    assert_eq!(Ok(String::new()), hill_cipher("", key()));
}

#[test]
fn hill_errors() {
    assert_eq!(hill_cipher("AC", key()), Err(CipherError::InvalidBlockLength));
    assert_eq!(hill_cipher("AbT", key()), Err(CipherError::InvalidCharacter));
    assert_eq!(hill_cipher("A T", key()), Err(CipherError::InvalidCharacter));
    assert_eq!(hill_cipher("ACT", vec![]), Err(CipherError::EmptyMatrix));
    assert_eq!(hill_cipher("ACT", vec![vec![1, 2], vec![3, 4]]), Err(CipherError::InvalidBlockLength));
    assert_eq!(hill_cipher("AC", vec![vec![1, 2, 3], vec![4, 5, 6]]), Err(CipherError::DimensionMismatch));
    assert_eq!(hill_cipher("AB", vec![vec![1, 2], vec![3]]), Err(CipherError::DimensionMismatch));
    assert_eq!(hill_cipher("Z", vec![vec![i32::MAX]]), Err(CipherError::Overflow));
    assert_eq!(
        hill_cipher_decrypt("AB", vec![vec![2, 0], vec![0, 1]]),
        Err(CipherError::NotInvertible)
    );
    assert_eq!(
        hill_cipher_decrypt("AB", vec![vec![13, 0], vec![0, 1]]),
        Err(CipherError::NotInvertible)
    );
}

#[test]
fn hill_one_by_one_key() {
    assert_eq!("DGJ", hill_cipher("BCD", vec![vec![3]]).unwrap());
    assert_eq!("BCD", hill_cipher_decrypt("DGJ", vec![vec![3]]).unwrap());
}
