use vstd::prelude::*;
use crate::text::{chars_of, is_lower, is_upper, push_char};

verus! {

/// A letter reflected in the alphabet (`A` and `Z` swap), keeping its case.
pub open spec fn atbash_char(c: char) -> char {
    if is_upper(c) {
        (155 - c as int) as char
    } else if is_lower(c) {
        (219 - c as int) as char
    } else {
        c
    }
}

pub open spec fn atbash(s: Seq<char>) -> Seq<char> {
    s.map_values(|c: char| atbash_char(c))
}

/// Atbash cipher over a text.
pub struct Atbash<'a> {
    message: &'a str,
}

impl<'a> View for Atbash<'a> {
    type V = Seq<char>;

    closed spec fn view(&self) -> Seq<char> {
        self.message@
    }
}

impl<'a> Atbash<'a> {
    /// An Atbash cipher over a plain text or a cipher text.
    pub fn new(message: &'a str) -> (r: Atbash<'a>)
        ensures
            r@ == message@,
    {
        Atbash { message }
    }

    /// Reflects every letter of the text.
    pub fn encipher(&self) -> (r: String)
        ensures
            r@ == atbash(self@),
    {
        let chars = chars_of(self.message);
        let mut out = String::new();
        for i in 0..chars.len()
            invariant
                chars@ == self@,
                out@ == atbash(chars@).take(i as int),
        {
            let c = chars[i];
            let e = if 'A' <= c && c <= 'Z' {
                ((90 - c as u32) + 65) as u8 as char
            } else if 'a' <= c && c <= 'z' {
                ((122 - c as u32) + 97) as u8 as char
            } else {
                c
            };
            push_char(&mut out, e);
            assert(out@ =~= atbash(chars@).take(i + 1));
        }
        assert(atbash(chars@).take(chars.len() as int) == atbash(chars@));
        out
    }

    /// The same reflection as `encipher`.
    pub fn decipher(&self) -> (r: String)
        ensures
            r@ == atbash(self@),
    {
        self.encipher()
    }
}

/// Atbash is its own inverse.
pub proof fn lemma_atbash_self_inverse(s: Seq<char>)
    ensures
        atbash(atbash(s)) == s,
{
    assert(atbash(atbash(s)) =~= s);
}

} // verus!
