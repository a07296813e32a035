use vstd::prelude::*;
use crate::error::CipherError;
use crate::text::{chars_of, is_upper, push_char, to_upper, upper_char};

verus! {

/// Grid cell, 0..25 in row-major order, of an upper-case letter; `I` and `J`
/// share the cell of `J`.
pub open spec fn cell_of(c: char) -> int {
    let i = c as int - 65;
    if i < 9 {
        i
    } else {
        i - 1
    }
}

/// The letter written in grid cell `cell` (0..25).
pub open spec fn letter_at(cell: int) -> char {
    if cell < 8 {
        (cell + 65) as char
    } else {
        (cell + 66) as char
    }
}

/// The decimal digit character for `d` in 0..10.
pub open spec fn digit_char(d: int) -> char {
    (d + 48) as char
}

/// The row digit and column digit, both 1-based, of an upper-case letter.
pub open spec fn pair_of(c: char) -> Seq<char> {
    seq![digit_char(cell_of(c) / 5 + 1), digit_char(cell_of(c) % 5 + 1)]
}

/// Polybius encoding: each letter, upper-cased, becomes its two digits;
/// every other character is dropped.
pub open spec fn polybius_encode(s: Seq<char>) -> Seq<char>
    decreases s.len(),
{
    if s.len() == 0 {
        seq![]
    } else {
        let c = to_upper(s.last());
        polybius_encode(s.drop_last()) + if is_upper(c) {
            pair_of(c)
        } else {
            seq![]
        }
    }
}

pub open spec fn is_digit(c: char) -> bool {
    '0' <= c <= '9'
}

/// A digit that names a row or a column of the grid.
pub open spec fn is_coordinate(c: char) -> bool {
    '1' <= c <= '5'
}

pub open spec fn all_digits(s: Seq<char>) -> bool {
    forall|i: int| 0 <= i < s.len() ==> is_digit(#[trigger] s[i])
}

pub open spec fn all_coordinates(s: Seq<char>) -> bool {
    forall|i: int| 0 <= i < s.len() ==> is_coordinate(#[trigger] s[i])
}

/// Polybius decoding: each pair of digits (row, column) becomes the letter of
/// that cell.
pub open spec fn polybius_decode(s: Seq<char>) -> Seq<char> {
    Seq::new(
        s.len() / 2,
        |i: int| letter_at((s[2 * i] as int - 49) * 5 + (s[2 * i + 1] as int - 49)),
    )
}

/// Polybius square cipher over a fixed 5x5 grid of the letters without `I`.
pub struct PolybiusSquare<'a> {
    message: &'a str,
}

impl<'a> View for PolybiusSquare<'a> {
    type V = Seq<char>;

    closed spec fn view(&self) -> Seq<char> {
        self.message@
    }
}

impl<'a> PolybiusSquare<'a> {
    /// A Polybius square over a plain text or a cipher text.
    pub fn new(message: &'a str) -> (r: PolybiusSquare<'a>)
        ensures
            r@ == message@,
    {
        PolybiusSquare { message }
    }

    /// The digits of each letter of the text; other characters are dropped.
    pub fn encipher(&self) -> (r: String)
        ensures
            r@ == polybius_encode(self@),
    {
        let chars = chars_of(self.message);
        let mut out = String::new();
        for i in 0..chars.len()
            invariant
                chars@ == self@,
                out@ == polybius_encode(chars@.take(i as int)),
        {
            let c = upper_char(chars[i]);
            proof {
                let t = chars@.take(i + 1);
                assert(t.drop_last() == chars@.take(i as int));
                assert(t.last() == chars@[i as int]);
            }
            if 'A' <= c && c <= 'Z' {
                let idx = c as u32 - 65;
                let cell = if idx < 9 {
                    idx
                } else {
                    idx - 1
                };
                let row = ((cell / 5 + 49) as u8) as char;
                let col = ((cell % 5 + 49) as u8) as char;
                push_char(&mut out, row);
                push_char(&mut out, col);
                proof {
                    assert(pair_of(c) == seq![row, col]);
                }
            }
            assert(out@ =~= polybius_encode(chars@.take(i + 1)));
        }
        assert(chars@.take(chars.len() as int) == chars@);
        out
    }

    /// The letters named by each pair of digits of the text.
    pub fn decipher(&self) -> (r: Result<String, CipherError>)
        ensures
            self@.len() % 2 != 0 ==> r == Err::<String, CipherError>(CipherError::OddLength),
            self@.len() % 2 == 0 && !all_digits(self@) ==> r == Err::<String, CipherError>(
                CipherError::NonNumeric,
            ),
            self@.len() % 2 == 0 && all_digits(self@) && !all_coordinates(self@) ==> r == Err::<
                String,
                CipherError,
            >(CipherError::InvalidCoordinate),
            self@.len() % 2 == 0 && all_coordinates(self@) ==> (r matches Ok(s) && s@
                == polybius_decode(self@)),
    {
        let chars = chars_of(self.message);
        let n = chars.len();
        if n % 2 != 0 {
            return Err(CipherError::OddLength);
        }
        if !PolybiusSquare::is_string_numeric(self.message) {
            return Err(CipherError::NonNumeric);
        }
        for i in 0..n
            invariant
                chars@ == self@,
                n == chars@.len(),
                n % 2 == 0,
                all_digits(chars@),
                forall|j: int| 0 <= j < i ==> is_coordinate(#[trigger] chars@[j]),
        {
            if chars[i] < '1' || chars[i] > '5' {
                return Err(CipherError::InvalidCoordinate);
            }
        }
        let mut result = String::new();
        let half = n / 2;
        for i in 0..half
            invariant
                chars@ == self@,
                n == chars@.len(),
                half == n / 2,
                all_coordinates(chars@),
                result@ == polybius_decode(chars@).take(i as int),
        {
            let row = chars[2 * i] as u32 - 49;
            let col = chars[2 * i + 1] as u32 - 49;
            let cell = row * 5 + col;
            let letter = if cell < 8 {
                ((cell + 65) as u8) as char
            } else {
                ((cell + 66) as u8) as char
            };
            push_char(&mut result, letter);
            assert(result@ =~= polybius_decode(chars@).take(i + 1));
        }
        assert(polybius_decode(chars@).take(half as int) == polybius_decode(chars@));
        Ok(result)
    }

    fn is_string_numeric(text: &str) -> (r: bool)
        ensures
            r == all_digits(text@),
    {
        let chars = chars_of(text);
        for i in 0..chars.len()
            invariant
                chars@ == text@,
                forall|j: int| 0 <= j < i ==> is_digit(#[trigger] chars@[j]),
        {
            if chars[i] < '0' || chars[i] > '9' {
                return false;
            }
        }
        true
    }
}

/// Encoding lays out two digits per letter, row then column.
proof fn lemma_encode_letters(t: Seq<char>)
    requires
        forall|i: int| 0 <= i < t.len() ==> is_upper(#[trigger] t[i]),
    ensures
        polybius_encode(t).len() == 2 * t.len(),
        forall|i: int|
            0 <= i < t.len() ==> polybius_encode(t)[2 * i] == digit_char(cell_of(#[trigger] t[i]) / 5 + 1)
                && polybius_encode(t)[2 * i + 1] == digit_char(cell_of(t[i]) % 5 + 1),
    decreases t.len(),
{
    if t.len() > 0 {
        let p = t.drop_last();
        lemma_encode_letters(p);
        assert forall|i: int| 0 <= i < t.len() implies polybius_encode(t)[2 * i] == digit_char(
            cell_of(#[trigger] t[i]) / 5 + 1,
        ) && polybius_encode(t)[2 * i + 1] == digit_char(cell_of(t[i]) % 5 + 1) by {
            if i < p.len() {
                assert(p[i] == t[i]);
            }
        }
    }
}

/// Deciphering an enciphered text of upper-case letters other than `I` gives
/// the text back: the encoding is an even run of grid coordinates, and
/// decoding it yields the same letters.
pub proof fn lemma_polybius_round_trip(t: Seq<char>)
    requires
        forall|i: int| 0 <= i < t.len() ==> is_upper(#[trigger] t[i]) && t[i] != 'I',
    ensures
        polybius_encode(t).len() % 2 == 0,
        all_coordinates(polybius_encode(t)),
        polybius_decode(polybius_encode(t)) == t,
{
    lemma_encode_letters(t);
    let e = polybius_encode(t);
    assert forall|k: int| 0 <= k < e.len() implies is_coordinate(#[trigger] e[k]) by {
        let i = k / 2;
        assert(k == 2 * i || k == 2 * i + 1);
        assert(0 <= cell_of(t[i]) < 25);
    }
    assert(polybius_decode(e) =~= t);
}

} // verus!
