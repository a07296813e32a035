use cienli::ciphers::rot::{Rot, RotType};

#[test]
fn rot47_encipher() {
    let rot47 = Rot::new("• Hello Friend 83110 :) •", RotType::Rot47);

    assert_eq!("• w6==@ uC:6?5 gb``_ iX •", rot47.encipher());
}

#[test]
fn rot47_decipher() {
    let rot47 = Rot::new("• w6==@ uC:6?5 gb``_ iX •", RotType::Rot47);

    assert_eq!("• Hello Friend 83110 :) •", rot47.decipher());
}

#[test]
fn rot18_encipher() {
    let rot18 = Rot::new("• Hello Friend 83110 :) •", RotType::Rot18);

    assert_eq!("• Uryyb Sevraq 38665 :) •", rot18.encipher());
}

#[test]
fn rot18_decipher() {
    let rot18 = Rot::new("• Uryyb Sevraq 38665 :) •", RotType::Rot18);

    assert_eq!("• Hello Friend 83110 :) •", rot18.decipher());
}

#[test]
fn rot13_encipher() {
    let rot13 = Rot::new("• Hello Friend 83110 :) •", RotType::Rot13);

    assert_eq!("• Uryyb Sevraq 83110 :) •", rot13.encipher());
}

#[test]
fn rot13_decipher() {
    let rot13 = Rot::new("• Uryyb Sevraq 83110 :) •", RotType::Rot13);

    assert_eq!("• Hello Friend 83110 :) •", rot13.decipher());
}

#[test]
fn rot5_encipher() {
    let rot5 = Rot::new("• Hello Friend 83110 :) •", RotType::Rot5);

    assert_eq!("• Hello Friend 38665 :) •", rot5.encipher());
}

#[test]
fn rot5_decipher() {
    let rot5 = Rot::new("• Hello Friend 38665 :) •", RotType::Rot5);

    assert_eq!("• Hello Friend 83110 :) •", rot5.decipher());
}

#[test]
fn rot_self_inverse_every_kind() {
    let text = "!~ AZ az 09 O P Mn é";
    for kind in [RotType::Rot5, RotType::Rot13, RotType::Rot18, RotType::Rot47] {
        let once = Rot::new(text, kind).encipher();
        assert_eq!(once, Rot::new(text, kind).decipher());
        assert_eq!(text, Rot::new(&once, kind).encipher());
    }
}

#[test]
fn rot_range_edges() {
    assert_eq!("P~ !O", Rot::new("!O P~", RotType::Rot47).encipher());
    assert_eq!("NZAM", Rot::new("AMNZ", RotType::Rot13).encipher());
    assert_eq!("5904", Rot::new("0459", RotType::Rot5).encipher());
}

#[test]
fn rot13_case_preserved() {
    assert_eq!("nA Zm-", Rot::new("aN Mz-", RotType::Rot13).encipher());
}

#[test]
fn rot47_leaves_other_text() {
    assert_eq!("  \t•é", Rot::new("  \t•é", RotType::Rot47).encipher());
}
