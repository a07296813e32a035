use cienli::common::key_gen;
use cienli::error::CipherError;

#[test]
fn make_key_bigger() {
    assert_eq!(String::from("TESTTESTTE"), key_gen("TEST", 10).unwrap());
}

#[test]
fn make_key_smaller() {
    assert_eq!(String::from("TE"), key_gen("TEST", 2).unwrap());
}

#[test]
fn key_is_equal() {
    assert_eq!(String::from("TEST"), key_gen("TEST", 4).unwrap());
}

#[test]
fn too_small_value() {
    assert!(key_gen("TEST", 0).is_err());

    assert!(key_gen("", 4).is_err());
}

#[test]
fn key_gen_errors() {
    assert_eq!(key_gen("", 4), Err(CipherError::EmptyKey));
    assert_eq!(key_gen("", 0), Err(CipherError::EmptyKey));
    assert_eq!(key_gen("K", 0), Err(CipherError::InvalidLength));
}

#[test]
fn key_gen_lengths() {
    for n in 1..40 {
        assert_eq!(n, key_gen("abc", n).unwrap().chars().count());
    }
    assert_eq!("abcab", key_gen("abc", 5).unwrap());
    assert_eq!("a", key_gen("abc", 1).unwrap());
}
