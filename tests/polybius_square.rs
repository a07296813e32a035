use cienli::ciphers::polybius_square::PolybiusSquare;
use cienli::error::CipherError;

#[test]
fn polybius_square_encipher_test() {
    let polybius = PolybiusSquare::new("Hello World :)");

    assert_eq!("23153131345234423114", polybius.encipher());
}

#[test]
fn polybius_square_decipher_test() {
    let polybius = PolybiusSquare::new("23153131345234423114");

    assert_eq!("HELLOWORLD", polybius.decipher().unwrap());
}

#[test]
fn polybius_grid_corners_and_merged_cell() {
    assert_eq!("1155", PolybiusSquare::new("az").encipher());
    assert_eq!("2424", PolybiusSquare::new("IJ").encipher());
    assert_eq!("25", PolybiusSquare::new("K").encipher());
    assert_eq!("JJ", PolybiusSquare::new("2424").decipher().unwrap());
    assert_eq!("", PolybiusSquare::new("123 !?").encipher());
}

#[test]
fn polybius_errors() {
    assert_eq!(PolybiusSquare::new("123").decipher(), Err(CipherError::OddLength));
    assert_eq!(PolybiusSquare::new("1a").decipher(), Err(CipherError::NonNumeric));
    assert_eq!(PolybiusSquare::new("16").decipher(), Err(CipherError::InvalidCoordinate));
    assert_eq!(PolybiusSquare::new("01").decipher(), Err(CipherError::InvalidCoordinate));
    assert_eq!(PolybiusSquare::new("").decipher(), Ok(String::new()));
}

#[test]
fn polybius_round_trip() {
    let text = "HELLOWORLDJUMPSOVERTHELAZYDOGQUACKBFX";
    let enc = PolybiusSquare::new(text).encipher();
    assert_eq!(text, PolybiusSquare::new(&enc).decipher().unwrap());
    let merged = PolybiusSquare::new("QUICK").encipher();
    assert_eq!("QUJCK", PolybiusSquare::new(&merged).decipher().unwrap());
}
