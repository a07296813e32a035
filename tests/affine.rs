use cienli::ciphers::affine::Affine;
use cienli::error::CipherError;

#[test]
fn invalid_key_length_test() {
    assert!(Affine::new((27, 2)).is_err())
}

#[test]
fn invalid_key_coprime_test() {
    assert!(Affine::new((10, 2)).is_err())
}

#[test]
fn affine_encipher_test() {
    let affine = Affine::new((5, 2)).unwrap();
    assert_eq!("Lwffu :)", affine.encipher("Hello :)"))
}

#[test]
fn affine_decipher_test() {
    let affine = Affine::new((5, 2)).unwrap();
    assert_eq!("Hello :)", affine.decipher("Lwffu :)"))
}

#[test]
fn affine_key_errors() {
    assert_eq!(Affine::new((27, 2)).err(), Some(CipherError::KeyOutOfRange));
    assert_eq!(Affine::new((0, 2)).err(), Some(CipherError::KeyOutOfRange));
    assert_eq!(Affine::new((5, 27)).err(), Some(CipherError::KeyOutOfRange));
    assert_eq!(Affine::new((10, 2)).err(), Some(CipherError::KeyNotCoprime));
    assert_eq!(Affine::new((13, 0)).err(), Some(CipherError::KeyNotCoprime));
    assert_eq!(Affine::new((26, 0)).err(), Some(CipherError::KeyNotCoprime));
}

#[test]
fn affine_coprime_keys_accepted() {
    for alpha in [1u16, 3, 5, 7, 9, 11, 15, 17, 19, 21, 23, 25] {
        assert!(Affine::new((alpha, 26)).is_ok());
    }
}

#[test]
fn affine_round_trip_all_keys() {
    let text = "The Quick Brown Fox, jumps over 13 lazy dogs!";
    for alpha in [1u16, 3, 5, 7, 9, 11, 15, 17, 19, 21, 23, 25] {
        for beta in 0u16..=26 {
            let affine = Affine::new((alpha, beta)).unwrap();
            assert_eq!(text, affine.decipher(&affine.encipher(text)));
        }
    }
}

#[test]
fn affine_decipher_below_beta() {
    let affine = Affine::new((5, 2)).unwrap();
    assert_eq!("ch", affine.encipher("ab"));
    assert_eq!("kf", affine.decipher("ab"));
    assert_eq!("ab", affine.encipher("kf"));
}

#[test]
fn affine_case_preserved() {
    let affine = Affine::new((7, 3)).unwrap();
    let out = affine.encipher("aB c-D");
    let flags: Vec<(bool, bool)> = out.chars().map(|c| (c.is_ascii_uppercase(), c.is_ascii_lowercase())).collect();
    assert_eq!(flags, vec![(false, true), (true, false), (false, false), (false, true), (false, false), (true, false)]);
    assert_eq!(out.chars().nth(2), Some(' '));
    assert_eq!(out.chars().nth(4), Some('-'));
}
