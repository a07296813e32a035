use vstd::prelude::*;
use vstd::arithmetic::div_mod::{lemma_mod_multiples_vanish, lemma_mul_mod_noop_left};
use num_integer::Integer;
use crate::error::CipherError;
use crate::matrix::{
    inverse_mod, is_inverse, is_least_inverse, lemma_inverses_agree, lemma_least_inverse_unique,
    modular_inverse,
};
use crate::text::{case_preserved, chars_of, is_lower, is_upper, push_char};

verus! {

/// Greatest common divisor, by Euclid's recursion.
pub open spec fn gcd(a: nat, b: nat) -> nat
    decreases b,
{
    if b == 0 {
        a
    } else {
        gcd(b, a % b)
    }
}

/// Relies on num_integer's `Integer::gcd` for `u16` (Stein's algorithm): the
/// greatest common divisor, with `gcd(a, 0) == a`.
#[verifier::external_body]
fn gcd_u16(a: u16, b: u16) -> (r: u16)
    ensures
        r == gcd(a as nat, b as nat),
{
    a.gcd(&b)
}

/// A usable Affine key: `alpha` in 1..=26 and prime to 26, `beta` in 0..=26.
pub open spec fn valid_key(alpha: int, beta: int) -> bool {
    &&& 1 <= alpha <= 26
    &&& 0 <= beta <= 26
    &&& gcd(alpha as nat, 26) == 1
}

/// One character enciphered: a letter at position `p` goes to `p * alpha + beta`
/// modulo 26, in its own case.
pub open spec fn affine_enc_char(c: char, alpha: int, beta: int) -> char {
    if is_upper(c) {
        (((c as int - 65) * alpha + beta) % 26 + 65) as char
    } else if is_lower(c) {
        (((c as int - 97) * alpha + beta) % 26 + 97) as char
    } else {
        c
    }
}

/// One character deciphered: a letter at position `p` goes to
/// `alpha⁻¹ * (p - beta)` modulo 26, in its own case.
pub open spec fn affine_dec_char(c: char, alpha: int, beta: int) -> char {
    if is_upper(c) {
        ((inverse_mod(alpha, 26) * (c as int - 65 - beta)) % 26 + 65) as char
    } else if is_lower(c) {
        ((inverse_mod(alpha, 26) * (c as int - 97 - beta)) % 26 + 97) as char
    } else {
        c
    }
}

pub open spec fn affine_encipher(s: Seq<char>, alpha: int, beta: int) -> Seq<char> {
    s.map_values(|c: char| affine_enc_char(c, alpha, beta))
}

pub open spec fn affine_decipher(s: Seq<char>, alpha: int, beta: int) -> Seq<char> {
    s.map_values(|c: char| affine_dec_char(c, alpha, beta))
}

/// Affine cipher with a validated key `(alpha, beta)`.
pub struct Affine {
    alpha: u16,
    beta: u16,
}

impl View for Affine {
    type V = (int, int);

    closed spec fn view(&self) -> (int, int) {
        (self.alpha as int, self.beta as int)
    }
}

/// Among 1..=26 the numbers prime to 26 are the odd ones but 13.
proof fn lemma_prime_to_26(a: nat)
    requires
        1 <= a <= 26,
    ensures
        gcd(a, 26) == 1 <==> (a % 2 == 1 && a != 13),
{
    reveal_with_fuel(gcd, 8);
    if a == 1 {
        assert(gcd(1, 26) == 1);
    }
    if a == 2 {
        assert(gcd(2, 26) == 2);
    }
    if a == 3 {
        assert(gcd(3, 26) == 1);
    }
    if a == 4 {
        assert(gcd(4, 26) == 2);
    }
    if a == 5 {
        assert(gcd(5, 26) == 1);
    }
    if a == 6 {
        assert(gcd(6, 26) == 2);
    }
    if a == 7 {
        assert(gcd(7, 26) == 1);
    }
    if a == 8 {
        assert(gcd(8, 26) == 2);
    }
    if a == 9 {
        assert(gcd(9, 26) == 1);
    }
    if a == 10 {
        assert(gcd(10, 26) == 2);
    }
    if a == 11 {
        assert(gcd(11, 26) == 1);
    }
    if a == 12 {
        assert(gcd(12, 26) == 2);
    }
    if a == 13 {
        assert(gcd(13, 26) == 13);
    }
    if a == 14 {
        assert(gcd(14, 26) == 2);
    }
    if a == 15 {
        assert(gcd(15, 26) == 1);
    }
    if a == 16 {
        assert(gcd(16, 26) == 2);
    }
    if a == 17 {
        assert(gcd(17, 26) == 1);
    }
    if a == 18 {
        assert(gcd(18, 26) == 2);
    }
    if a == 19 {
        assert(gcd(19, 26) == 1);
    }
    if a == 20 {
        assert(gcd(20, 26) == 2);
    }
    if a == 21 {
        assert(gcd(21, 26) == 1);
    }
    if a == 22 {
        assert(gcd(22, 26) == 2);
    }
    if a == 23 {
        assert(gcd(23, 26) == 1);
    }
    if a == 24 {
        assert(gcd(24, 26) == 2);
    }
    if a == 25 {
        assert(gcd(25, 26) == 1);
    }
    if a == 26 {
        assert(gcd(26, 26) == 26);
    }
}

/// An odd `a` other than 13 has an inverse modulo 26 below 26.
proof fn lemma_inverse_below_26(a: int) -> (x: int)
    requires
        1 <= a <= 26,
        a % 2 == 1,
        a != 13,
    ensures
        is_least_inverse(a, 26, x),
{
    let x = if a == 1 {
        1
    } else if a == 3 {
        9
    } else if a == 5 {
        21
    } else if a == 7 {
        15
    } else if a == 9 {
        3
    } else if a == 11 {
        19
    } else if a == 15 {
        7
    } else if a == 17 {
        23
    } else if a == 19 {
        11
    } else if a == 21 {
        5
    } else if a == 23 {
        17
    } else {
        25
    };
    assert(is_inverse(a, 26, x));
    assert forall|y: int| 0 <= y < x implies !#[trigger] is_inverse(a, 26, y) by {
        if is_inverse(a, 26, y) {
            lemma_inverses_agree(a, 26, x, y);
        }
    }
    x
}

impl Affine {
    #[verifier::type_invariant]
    spec fn inv(self) -> bool {
        valid_key(self.alpha as int, self.beta as int)
    }

    /// An Affine cipher with key `(alpha, beta)`.
    pub fn new(key: (u16, u16)) -> (r: Result<Affine, CipherError>)
        ensures
            !(1 <= key.0 <= 26 && key.1 <= 26) ==> r == Err::<Affine, CipherError>(
                CipherError::KeyOutOfRange,
            ),
            1 <= key.0 <= 26 && key.1 <= 26 && gcd(key.0 as nat, 26) != 1 ==> r == Err::<
                Affine,
                CipherError,
            >(CipherError::KeyNotCoprime),
            valid_key(key.0 as int, key.1 as int) ==> (r matches Ok(a) && a@ == (
                key.0 as int,
                key.1 as int,
            )),
    {
        match Affine::key_checker(key) {
            Ok(()) => Ok(Affine { alpha: key.0, beta: key.1 }),
            Err(e) => Err(e),
        }
    }

    /// Each letter at position `p` becomes the letter at `p * alpha + beta`
    /// modulo 26, in the same case; other characters are kept.
    pub fn encipher(&self, message: &str) -> (r: String)
        ensures
            r@ == affine_encipher(message@, self@.0, self@.1),
            case_preserved(message@, r@),
    {
        proof {
            use_type_invariant(self);
        }
        let chars = chars_of(message);
        let alpha = self.alpha;
        let beta = self.beta;
        let mut out = String::new();
        for i in 0..chars.len()
            invariant
                chars@ == message@,
                alpha == self.alpha,
                beta == self.beta,
                valid_key(alpha as int, beta as int),
                out@ == affine_encipher(chars@, self@.0, self@.1).take(i as int),
        {
            let c = chars[i];
            let e = if 'a' <= c && c <= 'z' {
                let p = (c as u32 - 97) as u16;
                assert(p * alpha <= 25 * 26) by (nonlinear_arith)
                    requires
                        p <= 25,
                        alpha <= 26,
                ;
                ((p * alpha + beta) % 26 + 97) as u8 as char
            } else if 'A' <= c && c <= 'Z' {
                let p = (c as u32 - 65) as u16;
                assert(p * alpha <= 25 * 26) by (nonlinear_arith)
                    requires
                        p <= 25,
                        alpha <= 26,
                ;
                ((p * alpha + beta) % 26 + 65) as u8 as char
            } else {
                c
            };
            push_char(&mut out, e);
            assert(out@ =~= affine_encipher(chars@, self@.0, self@.1).take(i + 1));
        }
        assert(affine_encipher(chars@, self@.0, self@.1).take(chars.len() as int)
            == affine_encipher(chars@, self@.0, self@.1));
        out
    }

    /// Each letter at position `p` becomes the letter at `alpha⁻¹ * (p - beta)`
    /// modulo 26, in the same case; other characters are kept.
    pub fn decipher(&self, message: &str) -> (r: String)
        ensures
            r@ == affine_decipher(message@, self@.0, self@.1),
            case_preserved(message@, r@),
    {
        proof {
            use_type_invariant(self);
            lemma_prime_to_26(self.alpha as nat);
        }
        let ghost w = lemma_inverse_below_26(self.alpha as int);
        assert(is_inverse(self.alpha as int, 26, w));
        let alpha_inv: u16 = match modular_inverse(self.alpha as i32, 26) {
            Ok(x) => x as u16,
            Err(_) => {
                proof {
                    assert(false);
                }
                0
            },
        };
        proof {
            lemma_least_inverse_unique(self.alpha as int, 26, alpha_inv as int);
        }
        let chars = chars_of(message);
        let mut out = String::new();
        for i in 0..chars.len()
            invariant
                chars@ == message@,
                valid_key(self.alpha as int, self.beta as int),
                alpha_inv < 26,
                alpha_inv == inverse_mod(self.alpha as int, 26),
                out@ == affine_decipher(chars@, self@.0, self@.1).take(i as int),
        {
            let c = chars[i];
            let d = if 'a' <= c && c <= 'z' {
                let p = (c as u32 - 97) as u16;
                proof {
                    Affine::lemma_shifted(p as int, self.beta as int, alpha_inv as int);
                }
                ((alpha_inv * (p + 26 - self.beta)) % 26 + 97) as u8 as char
            } else if 'A' <= c && c <= 'Z' {
                let p = (c as u32 - 65) as u16;
                proof {
                    Affine::lemma_shifted(p as int, self.beta as int, alpha_inv as int);
                }
                ((alpha_inv * (p + 26 - self.beta)) % 26 + 65) as u8 as char
            } else {
                c
            };
            push_char(&mut out, d);
            assert(out@ =~= affine_decipher(chars@, self@.0, self@.1).take(i + 1));
        }
        assert(affine_decipher(chars@, self@.0, self@.1).take(chars.len() as int)
            == affine_decipher(chars@, self@.0, self@.1));
        out
    }

    /// Adding 26 before subtracting `beta` does not change the result.
    proof fn lemma_shifted(p: int, beta: int, inv: int)
        requires
            0 <= p < 26,
            0 <= beta <= 26,
            0 <= inv < 26,
        ensures
            (inv * (p + 26 - beta)) % 26 == (inv * (p - beta)) % 26,
            0 <= inv * (p + 26 - beta) < 26 * 52,
    {
        assert(inv * (p + 26 - beta) == 26 * inv + inv * (p - beta)) by (nonlinear_arith);
        lemma_mod_multiples_vanish(inv, inv * (p - beta), 26);
        assert(0 <= inv * (p + 26 - beta) < 26 * 52) by (nonlinear_arith)
            requires
                0 <= inv < 26,
                0 <= p + 26 - beta < 52,
        ;
    }

    fn key_checker(key: (u16, u16)) -> (r: Result<(), CipherError>)
        ensures
            !(1 <= key.0 <= 26 && key.1 <= 26) ==> r == Err::<(), CipherError>(
                CipherError::KeyOutOfRange,
            ),
            1 <= key.0 <= 26 && key.1 <= 26 && gcd(key.0 as nat, 26) != 1 ==> r == Err::<
                (),
                CipherError,
            >(CipherError::KeyNotCoprime),
            valid_key(key.0 as int, key.1 as int) ==> r == Ok::<(), CipherError>(()),
    {
        if (key.0 >= 1 && key.0 <= 26) && key.1 <= 26 {
            if gcd_u16(key.0, 26) == 1 {
                Ok(())
            } else {
                Err(CipherError::KeyNotCoprime)
            }
        } else {
            Err(CipherError::KeyOutOfRange)
        }
    }
}

/// Deciphering an enciphered letter position gives it back.
proof fn lemma_affine_position(p: int, alpha: int, beta: int)
    requires
        0 <= p < 26,
        valid_key(alpha, beta),
    ensures
        (inverse_mod(alpha, 26) * ((p * alpha + beta) % 26 - beta)) % 26 == p,
{
    lemma_prime_to_26(alpha as nat);
    let w = lemma_inverse_below_26(alpha);
    lemma_least_inverse_unique(alpha, 26, w);
    let inv = inverse_mod(alpha, 26);
    assert(is_least_inverse(alpha, 26, inv));
    let x = p * alpha + beta;
    let q = x / 26;
    let e = x % 26;
    assert(x == 26 * q + e);
    assert(inv * (e - beta) == 26 * (-(inv * q)) + inv * (p * alpha)) by (nonlinear_arith)
        requires
            x == 26 * q + e,
            x == p * alpha + beta,
    ;
    lemma_mod_multiples_vanish(-(inv * q), inv * (p * alpha), 26);
    assert(inv * (p * alpha) == (alpha * inv) * p) by (nonlinear_arith);
    lemma_mul_mod_noop_left(alpha * inv, p, 26);
    assert((alpha * inv) % 26 == 1);
}

/// Deciphering what was enciphered with a valid key gives the text back.
pub proof fn lemma_affine_round_trip(s: Seq<char>, alpha: int, beta: int)
    requires
        valid_key(alpha, beta),
    ensures
        affine_decipher(affine_encipher(s, alpha, beta), alpha, beta) == s,
{
    assert forall|i: int| 0 <= i < s.len() implies affine_dec_char(
        affine_enc_char(#[trigger] s[i], alpha, beta),
        alpha,
        beta,
    ) == s[i] by {
        let c = s[i];
        if is_upper(c) {
            lemma_affine_position(c as int - 65, alpha, beta);
        } else if is_lower(c) {
            lemma_affine_position(c as int - 97, alpha, beta);
        }
    }
    assert(affine_decipher(affine_encipher(s, alpha, beta), alpha, beta) =~= s);
}

} // verus!
