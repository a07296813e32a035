use vstd::prelude::*;
use crate::error::CipherError;
use crate::text::{chars_of, is_lower, is_upper, push_char, to_upper, upper_text, upper_char};

verus! {

/// The symbol standing for bit `b`.
pub open spec fn symbol(b: int, l0: char, l1: char) -> char {
    if b == 0 {
        l0
    } else {
        l1
    }
}

/// The five bits of `v`, most significant first, written with the two symbols.
pub open spec fn bacon_group(v: int, l0: char, l1: char) -> Seq<char> {
    seq![
        symbol((v / 16) % 2, l0, l1),
        symbol((v / 8) % 2, l0, l1),
        symbol((v / 4) % 2, l0, l1),
        symbol((v / 2) % 2, l0, l1),
        symbol(v % 2, l0, l1),
    ]
}

/// What one character becomes: an upper-cased letter its five-symbol group
/// (`A` is 0, `Z` is 25), any other character itself.
pub open spec fn bacon_piece(c: char, l0: char, l1: char) -> Seq<char> {
    let u = to_upper(c);
    if is_upper(u) {
        bacon_group(u as int - 65, l0, l1)
    } else {
        seq![u]
    }
}

pub open spec fn bacon_encode(s: Seq<char>, l0: char, l1: char) -> Seq<char>
    decreases s.len(),
{
    if s.len() == 0 {
        seq![]
    } else {
        bacon_encode(s.drop_last(), l0, l1) + bacon_piece(s.last(), l0, l1)
    }
}

/// The first symbol becomes `0`; then the second symbol becomes `1`.
pub open spec fn to_binary(c: char, l0: char, l1: char) -> char {
    let c1 = if c == l0 {
        '0'
    } else {
        c
    };
    if c1 == l1 {
        '1'
    } else {
        c1
    }
}

pub open spec fn is_bit(c: char) -> bool {
    c == '0' || c == '1'
}

pub open spec fn bit_value(c: char) -> int {
    if c == '1' {
        1
    } else {
        0
    }
}

/// Five binary digits start at `i`.
pub open spec fn group_at(s: Seq<char>, i: int) -> bool {
    &&& 0 <= i
    &&& i + 5 <= s.len()
    &&& is_bit(s[i])
    &&& is_bit(s[i + 1])
    &&& is_bit(s[i + 2])
    &&& is_bit(s[i + 3])
    &&& is_bit(s[i + 4])
}

/// The number written by the five binary digits at `i`.
pub open spec fn group_value(s: Seq<char>, i: int) -> int {
    16 * bit_value(s[i]) + 8 * bit_value(s[i + 1]) + 4 * bit_value(s[i + 2]) + 2 * bit_value(
        s[i + 3],
    ) + bit_value(s[i + 4])
}

/// Left to right, each run of five binary digits becomes the letter with that
/// code (`A` plus the value); every other character is kept.
pub open spec fn bacon_scan(s: Seq<char>) -> Seq<char>
    decreases s.len(),
{
    if s.len() == 0 {
        seq![]
    } else if group_at(s, 0) {
        seq![(group_value(s, 0) + 65) as char] + bacon_scan(s.subrange(5, s.len() as int))
    } else {
        seq![s[0]] + bacon_scan(s.subrange(1, s.len() as int))
    }
}

pub open spec fn bacon_decode(s: Seq<char>, l0: char, l1: char) -> Seq<char> {
    bacon_scan(s.map_values(|c: char| to_binary(c, l0, l1)))
}

/// Bacon cipher with two distinct symbols for the bits 0 and 1.
pub struct Bacon {
    letters: (char, char),
}

impl View for Bacon {
    type V = (char, char);

    closed spec fn view(&self) -> (char, char) {
        self.letters
    }
}

impl Bacon {
    #[verifier::type_invariant]
    spec fn inv(self) -> bool {
        self.letters.0 != self.letters.1
    }

    /// A Bacon cipher writing bit 0 as `letters.0` and bit 1 as `letters.1`.
    pub fn new(letters: (char, char)) -> (r: Result<Bacon, CipherError>)
        ensures
            letters.0 == letters.1 ==> r == Err::<Bacon, CipherError>(
                CipherError::IdenticalSymbols,
            ),
            letters.0 != letters.1 ==> (r matches Ok(b) && b@ == letters),
    {
        if letters.0 == letters.1 {
            return Err(CipherError::IdenticalSymbols);
        }
        Ok(Bacon { letters })
    }

    /// Each letter becomes five symbols; other characters are kept.
    pub fn encipher(&self, message: &str) -> (r: String)
        ensures
            r@ == bacon_encode(message@, self@.0, self@.1),
    {
        let chars = chars_of(message);
        let l0 = self.letters.0;
        let l1 = self.letters.1;
        let mut out = String::new();
        for i in 0..chars.len()
            invariant
                chars@ == message@,
                l0 == self@.0,
                l1 == self@.1,
                out@ == bacon_encode(chars@.take(i as int), l0, l1),
        {
            let c = upper_char(chars[i]);
            proof {
                let t = chars@.take(i + 1);
                assert(t.drop_last() == chars@.take(i as int));
                assert(t.last() == chars@[i as int]);
            }
            if 'A' <= c && c <= 'Z' {
                let v = c as u32 - 65;
                let ghost before = out@;
                push_char(&mut out, if (v / 16) % 2 == 0 { l0 } else { l1 });
                push_char(&mut out, if (v / 8) % 2 == 0 { l0 } else { l1 });
                push_char(&mut out, if (v / 4) % 2 == 0 { l0 } else { l1 });
                push_char(&mut out, if (v / 2) % 2 == 0 { l0 } else { l1 });
                push_char(&mut out, if v % 2 == 0 { l0 } else { l1 });
                assert(out@ =~= before + bacon_group(v as int, l0, l1));
            } else {
                push_char(&mut out, c);
            }
            assert(out@ =~= bacon_encode(chars@.take(i + 1), l0, l1));
        }
        assert(chars@.take(chars.len() as int) == chars@);
        out
    }

    /// Symbols become binary digits, then each run of five digits becomes a
    /// letter.
    pub fn decipher(&self, message: &str) -> (r: String)
        ensures
            r@ == bacon_decode(message@, self@.0, self@.1),
    {
        let chars = chars_of(message);
        let l0 = self.letters.0;
        let l1 = self.letters.1;
        let mut bin: Vec<char> = Vec::new();
        for i in 0..chars.len()
            invariant
                chars@ == message@,
                l0 == self@.0,
                l1 == self@.1,
                bin@ == chars@.take(i as int).map_values(|c: char| to_binary(c, l0, l1)),
        {
            let c = chars[i];
            let c1 = if c == l0 {
                '0'
            } else {
                c
            };
            bin.push(
                if c1 == l1 {
                    '1'
                } else {
                    c1
                },
            );
            assert(bin@ =~= chars@.take(i + 1).map_values(|c: char| to_binary(c, l0, l1)));
        }
        assert(chars@.take(chars.len() as int) == chars@);
        let ghost b = bin@;
        let n = bin.len();
        let mut out = String::new();
        let mut i: usize = 0;
        assert(b.subrange(0, n as int) =~= b);
        while i < n
            invariant
                b == bin@,
                n == b.len(),
                i <= n,
                out@ + bacon_scan(b.subrange(i as int, n as int)) == bacon_scan(b),
            decreases n - i,
        {
            let ghost rest = b.subrange(i as int, n as int);
            if n - i >= 5 && (bin[i] == '0' || bin[i] == '1') && (bin[i + 1] == '0' || bin[i + 1]
                == '1') && (bin[i + 2] == '0' || bin[i + 2] == '1') && (bin[i + 3] == '0' || bin[i
                + 3] == '1') && (bin[i + 4] == '0' || bin[i + 4] == '1') {
                let v: u32 = 16 * (if bin[i] == '1' { 1 } else { 0 }) + 8 * (if bin[i + 1] == '1' {
                    1
                } else {
                    0
                }) + 4 * (if bin[i + 2] == '1' { 1 } else { 0 }) + 2 * (if bin[i + 3] == '1' {
                    1
                } else {
                    0
                }) + (if bin[i + 4] == '1' { 1 } else { 0 });
                assert(group_at(rest, 0));
                assert(v == group_value(rest, 0));
                assert(rest.subrange(5, rest.len() as int) =~= b.subrange(i + 5, n as int));
                push_char(&mut out, ((v + 65) as u8) as char);
                i = i + 5;
            } else {
                assert(!group_at(rest, 0));
                assert(rest.subrange(1, rest.len() as int) =~= b.subrange(i + 1, n as int));
                push_char(&mut out, bin[i]);
                i = i + 1;
            }
        }
        assert(b.subrange(n as int, n as int) =~= Seq::<char>::empty());
        out
    }
}

/// Encoding a character in front of a text puts its piece in front.
proof fn lemma_encode_prepend(c: char, s: Seq<char>, l0: char, l1: char)
    ensures
        bacon_encode(seq![c] + s, l0, l1) == bacon_piece(c, l0, l1) + bacon_encode(s, l0, l1),
    decreases s.len(),
{
    let cs = seq![c] + s;
    if s.len() == 0 {
        assert(cs.drop_last() =~= Seq::<char>::empty());
        assert(cs.last() == c);
        assert(bacon_encode(cs.drop_last(), l0, l1) =~= Seq::<char>::empty());
        assert(bacon_encode(s, l0, l1) =~= Seq::<char>::empty());
        assert(bacon_encode(cs, l0, l1) =~= bacon_piece(c, l0, l1) + bacon_encode(s, l0, l1));
    } else {
        lemma_encode_prepend(c, s.drop_last(), l0, l1);
        assert(cs.drop_last() =~= seq![c] + s.drop_last());
        assert(cs.last() == s.last());
        assert(bacon_encode(cs, l0, l1) =~= bacon_piece(c, l0, l1) + bacon_encode(s, l0, l1));
    }
}

/// A character that the round trip keeps: a letter, or a character that is
/// neither symbol nor a binary digit.
pub open spec fn bacon_safe(c: char, l0: char, l1: char) -> bool {
    is_upper(c) || is_lower(c) || (c != l0 && c != l1 && !is_bit(c))
}

/// With distinct symbols, the second of which is not `0`, deciphering an
/// enciphered text gives it back upper-cased, provided each non-letter is
/// neither symbol nor a binary digit; a text without lower-case letters
/// comes back unchanged.
pub proof fn lemma_bacon_round_trip(t: Seq<char>, l0: char, l1: char)
    requires
        l0 != l1,
        l1 != '0',
        forall|i: int| 0 <= i < t.len() ==> bacon_safe(#[trigger] t[i], l0, l1),
    ensures
        bacon_decode(bacon_encode(t, l0, l1), l0, l1) == upper_text(t),
        (forall|i: int| 0 <= i < t.len() ==> !is_lower(#[trigger] t[i])) ==> bacon_decode(
            bacon_encode(t, l0, l1),
            l0,
            l1,
        ) == t,
    decreases t.len(),
{
    if t.len() == 0 {
        assert(bacon_encode(t, l0, l1).map_values(|c: char| to_binary(c, l0, l1)) =~= seq![]);
        assert(upper_text(t) =~= t);
    } else {
        let c = t[0];
        let rest = t.drop_first();
        assert(t =~= seq![c] + rest);
        lemma_encode_prepend(c, rest, l0, l1);
        lemma_bacon_round_trip(rest, l0, l1);
        let piece = bacon_piece(c, l0, l1);
        let er = bacon_encode(rest, l0, l1);
        let pb = piece.map_values(|x: char| to_binary(x, l0, l1));
        let rb = er.map_values(|x: char| to_binary(x, l0, l1));
        assert((piece + er).map_values(|x: char| to_binary(x, l0, l1)) =~= pb + rb);
        let s = pb + rb;
        let u = to_upper(c);
        if is_upper(u) {
            let v = u as int - 65;
            assert(0 <= v < 26);
            assert(to_binary(l0, l0, l1) == '0');
            assert(to_binary(l1, l0, l1) == '1');
            assert(group_at(s, 0));
            assert(group_value(s, 0) == v);
            assert(s.subrange(5, s.len() as int) =~= rb);
            assert(bacon_scan(s) == seq![u] + bacon_scan(rb));
        } else {
            assert(s[0] == c);
            assert(!group_at(s, 0));
            assert(s.subrange(1, s.len() as int) =~= rb);
        }
        assert(upper_text(t) =~= seq![u] + upper_text(rest));
        if forall|i: int| 0 <= i < t.len() ==> !is_lower(#[trigger] t[i]) {
            assert forall|i: int| 0 <= i < rest.len() implies !is_lower(#[trigger] rest[i]) by {
                assert(rest[i] == t[i + 1]);
            }
            assert(upper_text(t) =~= t);
        }
    }
}

} // verus!
