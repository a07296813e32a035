use cienli::ciphers::vigenere::Vigenere;
use cienli::error::CipherError;

#[test]
fn vigenere_encipher_test() {
    let v = Vigenere::new("ABCDE").unwrap();

    assert_eq!("QXGUX :)", v.encipher("QWERT :)"));
}

#[test]
fn vigenere_decipher_test() {
    let v = Vigenere::new("ABCDE").unwrap();

    assert_eq!("Qwert :)", v.decipher("Qxgux :)"));
}

#[test]
fn vigenere_concrete_vector() {
    let v = Vigenere::new("ABCDE").unwrap();
    assert_eq!("QXGUX", v.encipher("QWERT"));
    let lower_key = Vigenere::new("ABcdE").unwrap();
    assert_eq!("Qxgux :)", lower_key.encipher("Qwert :)"));
}

#[test]
fn vigenere_empty_key_error() {
    assert_eq!(Vigenere::new("").err(), Some(CipherError::EmptyKey));
}

#[test]
fn vigenere_empty_message() {
    let v = Vigenere::new("KEY").unwrap();
    assert_eq!("", v.encipher(""));
    assert_eq!("", v.decipher(""));
}

#[test]
fn vigenere_round_trip_and_case() {
    let v = Vigenere::new("LeMoN").unwrap();
    let text = "Attack at Dawn, 5 o'clock!";
    let enc = v.encipher(text);
    assert!(enc.starts_with("Lxfopv "));
    assert_eq!(text, v.decipher(&enc));
}
