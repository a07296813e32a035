use vstd::prelude::*;
use crate::text::{case_preserved, chars_of, push_char};

verus! {

/// The four rotations.
#[derive(Clone, Copy, Debug, PartialEq, Eq, Structural)]
pub enum RotType {
    Rot5,
    Rot13,
    Rot18,
    Rot47,
}

/// Digits `0`-`4` and `5`-`9` swap halves.
pub open spec fn rot5_char(c: char) -> char {
    if '0' <= c <= '4' {
        (c as int + 5) as char
    } else if '5' <= c <= '9' {
        (c as int - 5) as char
    } else {
        c
    }
}

/// Letters `A`-`M` and `N`-`Z` swap halves, in each case.
pub open spec fn rot13_char(c: char) -> char {
    if ('A' <= c <= 'M') || ('a' <= c <= 'm') {
        (c as int + 13) as char
    } else if ('N' <= c <= 'Z') || ('n' <= c <= 'z') {
        (c as int - 13) as char
    } else {
        c
    }
}

/// The printable characters `!`-`O` and `P`-`~` swap halves.
pub open spec fn rot47_char(c: char) -> char {
    if '!' <= c <= 'O' {
        (c as int + 47) as char
    } else if 'P' <= c <= '~' {
        (c as int - 47) as char
    } else {
        c
    }
}

pub open spec fn rot_char(t: RotType, c: char) -> char {
    match t {
        RotType::Rot5 => rot5_char(c),
        RotType::Rot13 => rot13_char(c),
        RotType::Rot18 => rot13_char(rot5_char(c)),
        RotType::Rot47 => rot47_char(c),
    }
}

pub open spec fn rot_text(t: RotType, s: Seq<char>) -> Seq<char> {
    s.map_values(|c: char| rot_char(t, c))
}

/// Rot cipher over a text.
pub struct Rot<'a> {
    message: &'a str,
    rot_type: RotType,
}

impl<'a> View for Rot<'a> {
    type V = (Seq<char>, RotType);

    closed spec fn view(&self) -> (Seq<char>, RotType) {
        (self.message@, self.rot_type)
    }
}

impl<'a> Rot<'a> {
    /// A Rot cipher of the given kind over a text.
    pub fn new(message: &'a str, rot_type: RotType) -> (r: Rot<'a>)
        ensures
            r@ == (message@, rot_type),
    {
        Rot { message, rot_type }
    }

    /// Rotates every character that the kind of rotation covers.
    pub fn encipher(&self) -> (r: String)
        ensures
            r@ == rot_text(self@.1, self@.0),
            self@.1 == RotType::Rot13 ==> case_preserved(self@.0, r@),
    {
        match self.rot_type {
            RotType::Rot5 => Rot::rot5(self.message),
            RotType::Rot13 => Rot::rot13(self.message),
            RotType::Rot18 => {
                let r = Rot::rot13(Rot::rot5(self.message).as_str());
                assert(r@ =~= rot_text(RotType::Rot18, self.message@));
                r
            },
            RotType::Rot47 => Rot::rot47(self.message),
        }
    }

    /// The same rotation as `encipher`.
    pub fn decipher(&self) -> (r: String)
        ensures
            r@ == rot_text(self@.1, self@.0),
            self@.1 == RotType::Rot13 ==> case_preserved(self@.0, r@),
    {
        self.encipher()
    }

    fn rot5(message: &str) -> (r: String)
        ensures
            r@ == rot_text(RotType::Rot5, message@),
    {
        let chars = chars_of(message);
        let mut out = String::new();
        for i in 0..chars.len()
            invariant
                chars@ == message@,
                out@ == rot_text(RotType::Rot5, chars@).take(i as int),
        {
            let c = chars[i];
            let e = if '0' <= c && c <= '4' {
                ((c as u32 + 5) as u8) as char
            } else if '5' <= c && c <= '9' {
                ((c as u32 - 5) as u8) as char
            } else {
                c
            };
            push_char(&mut out, e);
            assert(out@ =~= rot_text(RotType::Rot5, chars@).take(i + 1));
        }
        assert(rot_text(RotType::Rot5, chars@).take(chars.len() as int) == rot_text(
            RotType::Rot5,
            chars@,
        ));
        out
    }

    fn rot13(message: &str) -> (r: String)
        ensures
            r@ == rot_text(RotType::Rot13, message@),
    {
        let chars = chars_of(message);
        let mut out = String::new();
        for i in 0..chars.len()
            invariant
                chars@ == message@,
                out@ == rot_text(RotType::Rot13, chars@).take(i as int),
        {
            let c = chars[i];
            let e = if ('A' <= c && c <= 'M') || ('a' <= c && c <= 'm') {
                ((c as u32 + 13) as u8) as char
            } else if ('N' <= c && c <= 'Z') || ('n' <= c && c <= 'z') {
                ((c as u32 - 13) as u8) as char
            } else {
                c
            };
            push_char(&mut out, e);
            assert(out@ =~= rot_text(RotType::Rot13, chars@).take(i + 1));
        }
        assert(rot_text(RotType::Rot13, chars@).take(chars.len() as int) == rot_text(
            RotType::Rot13,
            chars@,
        ));
        out
    }

    fn rot47(message: &str) -> (r: String)
        ensures
            r@ == rot_text(RotType::Rot47, message@),
    {
        let chars = chars_of(message);
        let mut out = String::new();
        for i in 0..chars.len()
            invariant
                chars@ == message@,
                out@ == rot_text(RotType::Rot47, chars@).take(i as int),
        {
            let c = chars[i];
            let e = if '!' <= c && c <= 'O' {
                ((c as u32 + 47) as u8) as char
            } else if 'P' <= c && c <= '~' {
                ((c as u32 - 47) as u8) as char
            } else {
                c
            };
            push_char(&mut out, e);
            assert(out@ =~= rot_text(RotType::Rot47, chars@).take(i + 1));
        }
        assert(rot_text(RotType::Rot47, chars@).take(chars.len() as int) == rot_text(
            RotType::Rot47,
            chars@,
        ));
        out
    }
}

/// Every rotation is its own inverse.
pub proof fn lemma_rot_self_inverse(t: RotType, s: Seq<char>)
    ensures
        rot_text(t, rot_text(t, s)) == s,
{
    assert(rot_text(t, rot_text(t, s)) =~= s);
}

/// Rot47 leaves a text alone exactly when it holds no character in `!`..=`~`;
/// such a text keeps its letter case and its other characters.
pub proof fn lemma_rot47_case(s: Seq<char>)
    requires
        forall|i: int| 0 <= i < s.len() ==> !('!' <= #[trigger] s[i] <= '~'),
    ensures
        rot_text(RotType::Rot47, s) == s,
        case_preserved(s, rot_text(RotType::Rot47, s)),
{
    assert(rot_text(RotType::Rot47, s) =~= s);
}

} // verus!
