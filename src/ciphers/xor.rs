use vstd::prelude::*;
use vstd::utf8::{encode_utf8, is_ascii_chars, is_ascii_chars_encode_utf8};
use crate::common::{cycle, key_stream};
use crate::error::CipherError;
use crate::text::push_char;

verus! {

/// Byte `i` of `m` exclusive-or'd with byte `i` of the cyclic key stream of
/// `key`, each result read as one character.
pub open spec fn xor_stream(m: Seq<u8>, key: Seq<u8>) -> Seq<char> {
    Seq::new(m.len(), |i: int| (m[i] ^ key_stream(key, m.len())[i]) as char)
}

/// XOR cipher with a non-empty key.
pub struct Xor<'a> {
    key: &'a str,
}

impl<'a> View for Xor<'a> {
    type V = Seq<char>;

    closed spec fn view(&self) -> Seq<char> {
        self.key@
    }
}

impl<'a> Xor<'a> {
    #[verifier::type_invariant]
    spec fn inv(self) -> bool {
        self.key@.len() > 0
    }

    /// A XOR cipher with the given key.
    pub fn new(key: &'a str) -> (r: Result<Xor<'a>, CipherError>)
        ensures
            key@.len() == 0 ==> r == Err::<Xor<'a>, CipherError>(CipherError::EmptyKey),
            key@.len() > 0 ==> (r matches Ok(x) && x@ == key@),
    {
        if key.is_empty() {
            Err(CipherError::EmptyKey)
        } else {
            Ok(Xor { key })
        }
    }

    /// Each byte of the message exclusive-or'd with the key stream.
    pub fn encipher(&self, message: &str) -> (r: String)
        ensures
            r@ == xor_stream(encode_utf8(message@), encode_utf8(self@)),
    {
        proof {
            use_type_invariant(self);
        }
        let key = self.key.as_bytes();
        assert(key@.len() > 0);
        let bytes = message.as_bytes();
        let stream = cycle(key, bytes.len());
        let r = Xor::xor_engine(bytes, stream.as_slice());
        assert(r@ =~= xor_stream(encode_utf8(message@), encode_utf8(self@)));
        r
    }

    /// The same operation as `encipher`.
    pub fn decipher(&self, cipher: &str) -> (r: String)
        ensures
            r@ == xor_stream(encode_utf8(cipher@), encode_utf8(self@)),
    {
        self.encipher(cipher)
    }

    fn xor_engine(message: &[u8], key: &[u8]) -> (r: String)
        requires
            key@.len() == message@.len(),
        ensures
            r@ == Seq::new(message@.len(), |i: int| (message@[i] ^ key@[i]) as char),
    {
        let mut result = String::new();
        for indx in 0..message.len()
            invariant
                key@.len() == message@.len(),
                result@ == Seq::new(message@.len(), |i: int| (message@[i] ^ key@[i]) as char).take(
                    indx as int,
                ),
        {
            push_char(&mut result, (message[indx] ^ key[indx]) as char);
            assert(result@ =~= Seq::new(
                message@.len(),
                |i: int| (message@[i] ^ key@[i]) as char,
            ).take(indx + 1));
        }
        assert(Seq::new(message@.len(), |i: int| (message@[i] ^ key@[i]) as char).take(
            message@.len() as int,
        ) =~= Seq::new(message@.len(), |i: int| (message@[i] ^ key@[i]) as char));
        result
    }
}

/// With an ASCII text and a non-empty ASCII key, applying the cipher twice
/// gives the text back.
pub proof fn lemma_xor_round_trip(t: Seq<char>, key: Seq<char>)
    requires
        is_ascii_chars(t),
        is_ascii_chars(key),
        key.len() > 0,
    ensures
        xor_stream(encode_utf8(xor_stream(encode_utf8(t), encode_utf8(key))), encode_utf8(key))
            == t,
{
    is_ascii_chars_encode_utf8(t);
    is_ascii_chars_encode_utf8(key);
    let kb = encode_utf8(key);
    let tb = encode_utf8(t);
    let x = xor_stream(tb, kb);
    let ks = key_stream(kb, t.len());
    assert forall|i: int| 0 <= i < t.len() implies (#[trigger] x[i] as u32) < 128 && x[i] as u8
        ^ ks[i] == t[i] as u8 by {
        let a = tb[i];
        let b = ks[i];
        assert(b == kb[i % kb.len() as int]);
        assert(a < 128 && b < 128);
        assert((a ^ b) < 128 && ((a ^ b) ^ b) == a) by (bit_vector)
            requires
                a < 128,
                b < 128,
        ;
    }
    assert(is_ascii_chars(x));
    is_ascii_chars_encode_utf8(x);
    assert(xor_stream(encode_utf8(x), kb) =~= t);
}

} // verus!
