use cienli::ciphers::caesar::Caesar;
use cienli::error::CipherError;

#[test]
fn caesar_encipher_test() {
    let caesar = Caesar::new(5).unwrap();

    assert_eq!(
        "Mjqqt, Ymnx Nx F Yjxy",
        caesar.encipher("Hello, This Is A Test")
    );
}

#[test]
fn caesar_decipher_test() {
    let caesar = Caesar::new(5).unwrap();

    assert_eq!(
        "Hello, This Is A Test",
        caesar.decipher("Mjqqt, Ymnx Nx F Yjxy")
    );
}

#[test]
fn big_rotation() {
    assert!(Caesar::new(34).is_err());
}

#[test]
fn small_rotation() {
    assert!(Caesar::new(0).is_err());
}

#[test]
fn caesar_rotation_error() {
    assert_eq!(Caesar::new(27).err(), Some(CipherError::InvalidRotation));
    assert!(Caesar::new(1).is_ok());
    assert!(Caesar::new(26).is_ok());
}

#[test]
fn caesar_full_rotation_is_identity() {
    let caesar = Caesar::new(26).unwrap();
    assert_eq!("Zz Aa!", caesar.encipher("Zz Aa!"));
    assert_eq!("Zz Aa!", caesar.decipher("Zz Aa!"));
}

#[test]
fn caesar_round_trip_all_rotations() {
    let text = "Wrap Around: xyz XYZ abc.";
    for k in 1u8..=26 {
        let caesar = Caesar::new(k).unwrap();
        assert_eq!(text, caesar.decipher(&caesar.encipher(text)));
    }
}

#[test]
fn caesar_wraps() {
    let caesar = Caesar::new(3).unwrap();
    assert_eq!("abc ABC", caesar.encipher("xyz XYZ"));
}
