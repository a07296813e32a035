use vstd::prelude::*;
use vstd::arithmetic::div_mod::{lemma_mod_add_multiples_vanish, lemma_mod_multiples_vanish};
use crate::common::{key_gen, key_stream};
use crate::error::CipherError;
use crate::text::{case_preserved, chars_of, is_lower, is_upper, push_char, to_upper, upper_char};

verus! {

/// How far a key character moves a letter: its alphabet position once
/// upper-cased, counted modulo 26 for any other character.
pub open spec fn key_shift(k: char) -> int {
    (to_upper(k) as int - 65) % 26
}

/// A letter moved forward by the key character's shift, keeping its case.
pub open spec fn vig_enc_char(c: char, k: char) -> char {
    if is_upper(c) {
        ((c as int - 65 + key_shift(k)) % 26 + 65) as char
    } else if is_lower(c) {
        ((c as int - 97 + key_shift(k)) % 26 + 97) as char
    } else {
        c
    }
}

/// A letter moved back by the key character's shift, keeping its case.
pub open spec fn vig_dec_char(c: char, k: char) -> char {
    if is_upper(c) {
        ((c as int - 65 - key_shift(k)) % 26 + 65) as char
    } else if is_lower(c) {
        ((c as int - 97 - key_shift(k)) % 26 + 97) as char
    } else {
        c
    }
}

/// Vigenère encipherment: character `i` moves by key-stream character `i`.
pub open spec fn vigenere_encipher(m: Seq<char>, key: Seq<char>) -> Seq<char> {
    Seq::new(m.len(), |i: int| vig_enc_char(m[i], key_stream(key, m.len())[i]))
}

pub open spec fn vigenere_decipher(m: Seq<char>, key: Seq<char>) -> Seq<char> {
    Seq::new(m.len(), |i: int| vig_dec_char(m[i], key_stream(key, m.len())[i]))
}

/// Vigenère cipher with a non-empty key.
pub struct Vigenere<'a> {
    key: &'a str,
}

impl<'a> View for Vigenere<'a> {
    type V = Seq<char>;

    closed spec fn view(&self) -> Seq<char> {
        self.key@
    }
}

impl<'a> Vigenere<'a> {
    #[verifier::type_invariant]
    spec fn inv(self) -> bool {
        self.key@.len() > 0
    }

    /// A Vigenère cipher with the given key.
    pub fn new(key: &'a str) -> (r: Result<Vigenere<'a>, CipherError>)
        ensures
            key@.len() == 0 ==> r == Err::<Vigenere<'a>, CipherError>(CipherError::EmptyKey),
            key@.len() > 0 ==> (r matches Ok(v) && v@ == key@),
    {
        if key.is_empty() {
            Err(CipherError::EmptyKey)
        } else {
            Ok(Vigenere { key })
        }
    }

    /// Moves each letter forward by the matching key-stream letter.
    pub fn encipher(&self, message: &str) -> (r: String)
        ensures
            r@ == vigenere_encipher(message@, self@),
            case_preserved(message@, r@),
    {
        self.transform(message, true)
    }

    /// Moves each letter back by the matching key-stream letter.
    pub fn decipher(&self, message: &str) -> (r: String)
        ensures
            r@ == vigenere_decipher(message@, self@),
            case_preserved(message@, r@),
    {
        self.transform(message, false)
    }

    fn transform(&self, message: &str, forward: bool) -> (r: String)
        ensures
            forward ==> r@ == vigenere_encipher(message@, self@),
            !forward ==> r@ == vigenere_decipher(message@, self@),
            case_preserved(message@, r@),
    {
        proof {
            use_type_invariant(self);
        }
        let chars = chars_of(message);
        let n = chars.len();
        let mut out = String::new();
        if n == 0 {
            assert(vigenere_encipher(message@, self@) =~= out@);
            assert(vigenere_decipher(message@, self@) =~= out@);
            return out;
        }
        let stream = match key_gen(self.key, n) {
            Ok(s) => chars_of(s.as_str()),
            Err(_) => {
                proof {
                    assert(false);
                }
                Vec::new()
            },
        };
        let ghost goal = if forward {
            vigenere_encipher(chars@, self@)
        } else {
            vigenere_decipher(chars@, self@)
        };
        for i in 0..n
            invariant
                n == chars@.len(),
                chars@ == message@,
                stream@ == key_stream(self@, n as nat),
                goal == (if forward {
                    vigenere_encipher(chars@, self@)
                } else {
                    vigenere_decipher(chars@, self@)
                }),
                out@ == goal.take(i as int),
                case_preserved(chars@.take(i as int), out@),
        {
            let c = chars[i];
            let k = upper_char(stream[i]) as u32;
            let shift = (k + 13) % 26;
            proof {
                lemma_mod_multiples_vanish(3, k - 65, 26);
                assert(shift == key_shift(stream@[i as int]));
            }
            let e = if 'A' <= c && c <= 'Z' {
                let p = c as u32 - 65;
                if forward {
                    ((p + shift) % 26 + 65) as u8 as char
                } else {
                    proof {
                        lemma_mod_add_multiples_vanish(p - shift, 26);
                    }
                    ((p + 26 - shift) % 26 + 65) as u8 as char
                }
            } else if 'a' <= c && c <= 'z' {
                let p = c as u32 - 97;
                if forward {
                    ((p + shift) % 26 + 97) as u8 as char
                } else {
                    proof {
                        lemma_mod_add_multiples_vanish(p - shift, 26);
                    }
                    ((p + 26 - shift) % 26 + 97) as u8 as char
                }
            } else {
                c
            };
            push_char(&mut out, e);
            assert(out@ =~= goal.take(i + 1));
            assert(chars@.take(i + 1) =~= chars@.take(i as int).push(c));
        }
        assert(goal.take(n as int) == goal);
        assert(chars@.take(n as int) == chars@);
        out
    }
}

/// Deciphering with the same key gives back what was enciphered.
pub proof fn lemma_vigenere_round_trip(m: Seq<char>, key: Seq<char>)
    requires
        key.len() > 0,
    ensures
        vigenere_decipher(vigenere_encipher(m, key), key) == m,
{
    let e = vigenere_encipher(m, key);
    assert forall|i: int| 0 <= i < m.len() implies vig_dec_char(
        #[trigger] e[i],
        key_stream(key, m.len())[i],
    ) == m[i] by {
        let k = key_shift(key_stream(key, m.len())[i]);
        let c = m[i];
        if is_upper(c) {
            let p = c as int - 65;
            assert(((p + k) % 26 - k) % 26 == p);
        } else if is_lower(c) {
            let p = c as int - 97;
            assert(((p + k) % 26 - k) % 26 == p);
        }
    }
    assert(vigenere_decipher(e, key) =~= m);
}

} // verus!
