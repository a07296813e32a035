use vstd::prelude::*;
use crate::error::CipherError;
use crate::text::{case_preserved, chars_of, is_lower, is_upper, push_char};

verus! {

/// A letter moved `k` places along the alphabet, wrapping and keeping its case.
pub open spec fn caesar_char(c: char, k: int) -> char {
    if is_upper(c) {
        ((c as int - 65 + k) % 26 + 65) as char
    } else if is_lower(c) {
        ((c as int - 97 + k) % 26 + 97) as char
    } else {
        c
    }
}

pub open spec fn caesar_shift(s: Seq<char>, k: int) -> Seq<char> {
    s.map_values(|c: char| caesar_char(c, k))
}

/// Caesar cipher with a rotation in 1..=26.
pub struct Caesar {
    rotation: u8,
}

impl View for Caesar {
    type V = int;

    closed spec fn view(&self) -> int {
        self.rotation as int
    }
}

impl Caesar {
    #[verifier::type_invariant]
    spec fn inv(self) -> bool {
        1 <= self.rotation <= 26
    }

    /// A Caesar cipher that moves letters `rotation` places.
    pub fn new(rotation: u8) -> (r: Result<Caesar, CipherError>)
        ensures
            !(1 <= rotation <= 26) ==> r == Err::<Caesar, CipherError>(
                CipherError::InvalidRotation,
            ),
            1 <= rotation <= 26 ==> (r matches Ok(c) && c@ == rotation as int),
    {
        if rotation >= 1 && rotation <= 26 {
            Ok(Caesar { rotation })
        } else {
            Err(CipherError::InvalidRotation)
        }
    }

    /// Moves every letter `rotation` places forward.
    pub fn encipher(&self, message: &str) -> (r: String)
        ensures
            r@ == caesar_shift(message@, self@),
            case_preserved(message@, r@),
    {
        proof {
            use_type_invariant(self);
        }
        Caesar::shift(message, self.rotation)
    }

    /// Moves every letter `rotation` places back.
    pub fn decipher(&self, message: &str) -> (r: String)
        ensures
            r@ == caesar_shift(message@, 26 - self@),
            case_preserved(message@, r@),
    {
        proof {
            use_type_invariant(self);
        }
        Caesar::shift(message, 26 - self.rotation)
    }

    fn shift(message: &str, rotation: u8) -> (r: String)
        requires
            rotation <= 26,
        ensures
            r@ == caesar_shift(message@, rotation as int),
            case_preserved(message@, r@),
    {
        let chars = chars_of(message);
        let mut out = String::new();
        for i in 0..chars.len()
            invariant
                chars@ == message@,
                rotation <= 26,
                out@ == caesar_shift(chars@, rotation as int).take(i as int),
        {
            let c = chars[i];
            let e = if 'A' <= c && c <= 'Z' {
                ((((c as u32 - 65) as u8 + rotation) % 26) + 65) as char
            } else if 'a' <= c && c <= 'z' {
                ((((c as u32 - 97) as u8 + rotation) % 26) + 97) as char
            } else {
                c
            };
            push_char(&mut out, e);
            assert(out@ =~= caesar_shift(chars@, rotation as int).take(i + 1));
        }
        assert(caesar_shift(chars@, rotation as int).take(chars.len() as int) == caesar_shift(
            chars@,
            rotation as int,
        ));
        out
    }
}

/// Shifting back by `26 - k` undoes a shift by `k`.
pub proof fn lemma_caesar_round_trip(s: Seq<char>, k: int)
    requires
        1 <= k <= 26,
    ensures
        caesar_shift(caesar_shift(s, k), 26 - k) == s,
{
    assert forall|i: int| 0 <= i < s.len() implies caesar_char(
        caesar_char(#[trigger] s[i], k),
        26 - k,
    ) == s[i] by {
        let c = s[i];
        if is_upper(c) {
            let p = c as int - 65;
            assert(((p + k) % 26 + 26 - k) % 26 == p);
        } else if is_lower(c) {
            let p = c as int - 97;
            assert(((p + k) % 26 + 26 - k) % 26 == p);
        }
    }
    assert(caesar_shift(caesar_shift(s, k), 26 - k) =~= s);
}

} // verus!
