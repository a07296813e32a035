use cienli::ciphers::xor::Xor;
use cienli::error::CipherError;

#[test]
fn encipher() {
    let xor = Xor::new("VMMN8").unwrap();

    assert_eq!("<=|zv", xor.encipher("jp14N"));
}

#[test]
fn decipher() {
    let xor = Xor::new("VMMN8").unwrap();

    assert_eq!("jp14N", xor.decipher("<=|zv"));
}

#[test]
fn xor_empty_key_error() {
    assert_eq!(Xor::new("").err(), Some(CipherError::EmptyKey));
}

#[test]
fn xor_round_trip_ascii() {
    let xor = Xor::new("k3y").unwrap();
    let text = "Some ASCII text, 1234567890!";
    assert_eq!(text, xor.decipher(&xor.encipher(text)));
    assert_eq!(xor.encipher(text), xor.decipher(text));
}

#[test]
fn xor_key_repeats() {
    let xor = Xor::new("\u{1}").unwrap();
    assert_eq!("`cb", xor.encipher("abc"));
    assert_eq!("", xor.encipher(""));
}
