use cienli::ciphers::scytale::Scytale;
use cienli::error::CipherError;

#[test]
fn invalid_key_test() {
    assert!(Scytale::new(0).is_err());
}

#[test]
fn big_key_test() {
    let scytale = Scytale::new(15).unwrap();
    assert_eq!("Hello :)", scytale.encipher("Hello :)"))
}

#[test]
fn equal_key_test() {
    let scytale = Scytale::new(8).unwrap();
    assert_eq!("Hello :)", scytale.encipher("Hello :)"))
}

#[test]
fn scytale_encipher_test() {
    let scytale = Scytale::new(3).unwrap();
    assert_eq!("Hl:eo)l ", scytale.encipher("Hello :)"));
}

#[test]
fn scytale_decipher_test() {
    let scytale = Scytale::new(3).unwrap();
    assert_eq!("Hello :)", scytale.decipher("Hl:eo)l "));
}

#[test]
fn scytale_zero_key_error() {
    assert_eq!(Scytale::new(0).err(), Some(CipherError::ZeroKey));
}

#[test]
fn scytale_round_trip_many_keys() {
    let texts = ["Hello :)", "WE ARE DISCOVERED FLEE AT ONCE", "ab", "abcde", "x"];
    for text in texts {
        for key in 1..12 {
            let scytale = Scytale::new(key).unwrap();
            assert_eq!(text, scytale.decipher(&scytale.encipher(text)), "key {}", key);
        }
    }
}

#[test]
fn scytale_interior_padding() {
    let scytale = Scytale::new(3).unwrap();
    assert_eq!("adgbe\0cf", scytale.encipher("abcdefg"));
    assert_eq!("abcdefg", scytale.decipher("adgbe\0cf"));
}

#[test]
fn scytale_key_one_is_identity() {
    let scytale = Scytale::new(1).unwrap();
    assert_eq!("hello", scytale.encipher("hello"));
    assert_eq!("hello", scytale.decipher("hello"));
}
