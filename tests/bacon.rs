use cienli::ciphers::bacon::Bacon;
use cienli::error::CipherError;

#[test]
fn bacon_encipher_test() {
    let bacon = Bacon::new(('a', 'b')).unwrap();

    assert_eq!(
        "aabbbaabaaababbababbabbba aababbaaababaaaaabaaabbabaaabb",
        bacon.encipher("Hello Friend")
    );
}

#[test]
fn bacon_decipher_test() {
    let bacon = Bacon::new(('a', 'b')).unwrap();

    assert_eq!(
        "HELLO FRIEND",
        bacon.decipher("aabbbaabaaababbababbabbba aababbaaababaaaaabaaabbabaaabb")
    );
}

#[test]
fn encipher_with_different_letters() {
    let bacon = Bacon::new(('+', '=')).unwrap();

    assert_eq!(
        "++===++=+++=+==+=+==+===+ ++=+==+++=+=+++++=+++==+=+++==",
        bacon.encipher("Hello Friend")
    );
}

#[test]
fn decipher_with_different_letters() {
    let bacon = Bacon::new(('+', '=')).unwrap();

    assert_eq!(
        "HELLO FRIEND",
        bacon.decipher("++===++=+++=+==+=+==+===+ ++=+==+++=+=+++++=+++==+=+++==")
    );
}

#[test]
fn same_letters() {
    assert!(Bacon::new(('a', 'a')).is_err());
}

#[test]
fn bacon_identical_symbols_error() {
    assert_eq!(Bacon::new(('x', 'x')).err(), Some(CipherError::IdenticalSymbols));
}

#[test]
fn bacon_round_trip() {
    let bacon = Bacon::new(('x', 'y')).unwrap();
    let text = "ATTACK AT DAWN, ZEBRA!";
    assert_eq!(text, bacon.decipher(&bacon.encipher(text)));
    assert_eq!("ABZ", bacon.decipher(&bacon.encipher("abz")));
}

#[test]
fn bacon_letter_codes() {
    let bacon = Bacon::new(('0', '1')).unwrap();
    assert_eq!("00000", bacon.encipher("A"));
    assert_eq!("11001", bacon.encipher("Z"));
    assert_eq!("`", bacon.decipher("11111"));
    assert_eq!("0101", bacon.decipher("0101"));
}
