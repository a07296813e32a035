use vstd::prelude::*;
use crate::error::CipherError;
use crate::text::{chars_of, string_from};

verus! {

/// `key` repeated cyclically, cut to length `n`.
pub open spec fn key_stream<T>(key: Seq<T>, n: nat) -> Seq<T> {
    Seq::new(n, |i: int| key[i % key.len() as int])
}

/// The first `n` items of the endless repetition of `key`.
pub fn cycle<T: Copy>(key: &[T], n: usize) -> (r: Vec<T>)
    requires
        key@.len() > 0,
    ensures
        r@ == key_stream(key@, n as nat),
{
    let mut out: Vec<T> = Vec::new();
    for i in 0..n
        invariant
            key@.len() > 0,
            out@ == key_stream(key@, i as nat),
    {
        out.push(key[i % key.len()]);
        assert(out@ =~= key_stream(key@, (i + 1) as nat));
    }
    out
}

/// Expands or cuts `key` to a key stream of `message_len` characters.
pub fn key_gen(key: &str, message_len: usize) -> (r: Result<String, CipherError>)
    ensures
        key@.len() == 0 ==> r == Err::<String, CipherError>(CipherError::EmptyKey),
        key@.len() > 0 && message_len == 0 ==> r == Err::<String, CipherError>(
            CipherError::InvalidLength,
        ),
        key@.len() > 0 && message_len > 0 ==> (r matches Ok(s) && s@ == key_stream(
            key@,
            message_len as nat,
        )),
{
    let chars = chars_of(key);
    if chars.len() == 0 {
        return Err(CipherError::EmptyKey);
    }
    if message_len == 0 {
        return Err(CipherError::InvalidLength);
    }
    let stream = cycle(chars.as_slice(), message_len);
    Ok(string_from(&stream))
}

/// A key stream as long as its key is the key itself.
pub proof fn lemma_key_stream_of_own_length<T>(key: Seq<T>)
    requires
        key.len() > 0,
    ensures
        key_stream(key, key.len()) == key,
{
    assert forall|i: int| 0 <= i < key.len() implies key_stream(key, key.len())[i] == key[i] by {
        vstd::arithmetic::div_mod::lemma_small_mod(i as nat, key.len());
    }
    assert(key_stream(key, key.len()) =~= key);
}

/// A key stream asked for with length `n` has `n` items.
pub proof fn lemma_key_stream_len<T>(key: Seq<T>, n: nat)
    requires
        key.len() > 0,
        n >= 1,
    ensures
        key_stream(key, n).len() == n,
{
}

} // verus!
