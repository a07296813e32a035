use cienli::ciphers::atbash::Atbash;

#[test]
fn atbash_encipher() {
    let atbash = Atbash::new("Hello Friend :)");
    assert_eq!("Svool Uirvmw :)", atbash.encipher())
}

#[test]
fn atbash_decipher() {
    let atbash = Atbash::new("Svool Uirvmw :)");
    assert_eq!("Hello Friend :)", atbash.decipher());
}

#[test]
fn atbash_self_inverse() {
    let text = "AZ az Mn 09 ~";
    let once = Atbash::new(text).encipher();
    assert_eq!("ZA za Nm 09 ~", once);
    assert_eq!(text, Atbash::new(&once).encipher());
    assert_eq!(Atbash::new(text).encipher(), Atbash::new(text).decipher());
}

#[test]
fn atbash_empty() {
    assert_eq!("", Atbash::new("").encipher());
}
