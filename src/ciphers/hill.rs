use vstd::prelude::*;
use crate::error::CipherError;
use vstd::arithmetic::div_mod::{
    lemma_add_mod_noop, lemma_mul_mod_noop, lemma_mul_mod_noop_left, lemma_mul_mod_noop_right,
    lemma_small_mod,
};
use crate::matrix::{
    det, dot, inverse_entry, inverse_mod, invertible_mod, is_inverse, is_least_inverse,
    is_inverse_matrix, is_product, is_rect, is_square, lemma_det_1x1, lemma_det_2x2, mat_view,
    minor, modular_matrix_multiplicative_inverse, modulus, multiply, product_entry, product_fits,
    sign,
};
use crate::text::{chars_of, is_upper, push_char};

verus! {

/// Every character of `t` is one of `A`..=`Z`.
pub open spec fn all_upper(t: Seq<char>) -> bool {
    forall|i: int| 0 <= i < t.len() ==> is_upper(#[trigger] t[i])
}

/// The text cut into blocks of `n` letters, each block a column of alphabet
/// positions: entry (r, b) is the position of character `b * n + r`.
pub open spec fn block_matrix(t: Seq<char>, n: int) -> Seq<Seq<i32>> {
    Seq::new(
        n as nat,
        |r: int| Seq::new((t.len() as int / n) as nat, |b: int| (t[b * n + r] as int - 65) as i32),
    )
}

/// The Hill transform of `t` under `key`: character `p` is the letter at
/// position (row `p % n` of `key * blocks`, column `p / n`) modulo 26.
pub open spec fn hill_spec(t: Seq<char>, key: Seq<Seq<i32>>) -> Seq<char> {
    let n = key.len() as int;
    Seq::new(
        t.len(),
        |p: int| ((product_entry(key, block_matrix(t, n), p % n, p / n) % 26) + 65) as char,
    )
}

/// The inverse of `key` modulo 26, as a matrix.
pub open spec fn inverse_key(key: Seq<Seq<i32>>) -> Seq<Seq<i32>> {
    Seq::new(
        key.len(),
        |i: int| Seq::new(key.len(), |j: int| inverse_entry(key, 26, i, j) as i32),
    )
}

/// Alphabet position of a letter: `A` is 0, `Z` is 25.
pub fn char_to_code(a: char) -> (r: i32)
    requires
        'A' <= a,
    ensures
        r == a as int - 65,
{
    (a as u32 - 0x41) as i32
}

/// The letter at alphabet position `c`.
pub fn code_to_char(c: i32) -> (r: char)
    requires
        0 <= c < 26,
    ensures
        r == (c + 65) as char,
{
    ((c + 0x41) as u8) as char
}

/// Checks that `key` is a non-empty square matrix and returns its dimension.
fn key_dimension(key: &Vec<Vec<i32>>) -> (r: Result<usize, CipherError>)
    ensures
        key@.len() == 0 ==> r == Err::<usize, CipherError>(CipherError::EmptyMatrix),
        key@.len() > 0 && !is_square(mat_view(*key)) ==> r == Err::<usize, CipherError>(
            CipherError::DimensionMismatch,
        ),
        is_square(mat_view(*key)) ==> r == Ok::<usize, CipherError>(key@.len() as usize),
        r matches Ok(n) ==> n == key@.len() && n > 0 && is_square(mat_view(*key)),
{
    let ghost kv = mat_view(*key);
    let n = key.len();
    if n == 0 {
        return Err(CipherError::EmptyMatrix);
    }
    for i in 0..n
        invariant
            kv == mat_view(*key),
            n == kv.len(),
            forall|ii: int| 0 <= ii < i ==> (#[trigger] kv[ii]).len() == n,
    {
        assert(kv[i as int] == key@[i as int]@);
        if key[i].len() != n {
            assert(!is_rect(kv, n as int, n as int));
            return Err(CipherError::DimensionMismatch);
        }
    }
    Ok(n)
}

/// Checks the text against a key of dimension `n`.
fn check_text(chars: &Vec<char>, n: usize) -> (r: Result<(), CipherError>)
    requires
        n > 0,
    ensures
        (chars@.len() as int) % (n as int) != 0 ==> r == Err::<(), CipherError>(
            CipherError::InvalidBlockLength,
        ),
        (chars@.len() as int) % (n as int) == 0 && !all_upper(chars@) ==> r == Err::<(), CipherError>(
            CipherError::InvalidCharacter,
        ),
        (chars@.len() as int) % (n as int) == 0 && all_upper(chars@) ==> r == Ok::<(), CipherError>(()),
{
    if chars.len() % n != 0 {
        return Err(CipherError::InvalidBlockLength);
    }
    for i in 0..chars.len()
        invariant
            n > 0,
            (chars@.len() as int) % (n as int) == 0,
            forall|ii: int| 0 <= ii < i ==> is_upper(#[trigger] chars@[ii]),
    {
        if chars[i] < 'A' || chars[i] > 'Z' {
            return Err(CipherError::InvalidCharacter);
        }
    }
    Ok(())
}

/// Multiplies each block of the text by `key` modulo 26.
fn hill_apply(chars: &Vec<char>, key: &Vec<Vec<i32>>) -> (r: Result<String, CipherError>)
    requires
        is_square(mat_view(*key)),
        (chars@.len() as int) % key@.len() as int == 0,
        all_upper(chars@),
    ensures
        !product_fits(mat_view(*key), block_matrix(chars@, key@.len() as int)) ==> r == Err::<
            String,
            CipherError,
        >(CipherError::Overflow),
        product_fits(mat_view(*key), block_matrix(chars@, key@.len() as int)) ==> (r matches Ok(
            s,
        ) && s@ == hill_spec(chars@, mat_view(*key))),
{
    let ghost kv = mat_view(*key);
    let n = key.len();
    let len = chars.len();
    let m = len / n;
    proof {
        vstd::arithmetic::div_mod::lemma_fundamental_div_mod(len as int, n as int);
        assert((n as int) * (m as int) == (m as int) * (n as int)) by (nonlinear_arith);
    }
    assert(len == m * n);
    let mut blocks: Vec<Vec<i32>> = Vec::new();
    for r in 0..n
        invariant
            n == kv.len(),
            n > 0,
            len == chars@.len(),
            m == len / n,
            len == m * n,
            all_upper(chars@),
            blocks@.len() == r,
            forall|rr: int| 0 <= rr < r ==> (#[trigger] blocks@[rr])@ == block_matrix(chars@, n as int)[rr],
    {
        let mut row: Vec<i32> = Vec::new();
        for b in 0..m
            invariant
                n > 0,
                r < n,
                len == chars@.len(),
                m == len / n,
                len == m * n,
                all_upper(chars@),
                row@.len() == b,
                forall|bb: int|
                    0 <= bb < b ==> #[trigger] row@[bb] == (chars@[bb * n + r] as int - 65) as i32,
        {
            assert(b * n + r < m * n) by (nonlinear_arith)
                requires
                    b < m,
                    r < n,
            ;
            assert(is_upper(chars@[b * n + r]));
            row.push(char_to_code(chars[b * n + r]));
        }
        assert(row@ =~= block_matrix(chars@, n as int)[r as int]);
        blocks.push(row);
    }
    assert(mat_view(blocks) =~= block_matrix(chars@, n as int));
    let ghost bv = mat_view(blocks);
    let mut prod = match multiply(key, &blocks) {
        Ok(p) => p,
        Err(e) => {
            return Err(e);
        },
    };
    let ghost pv = mat_view(prod);
    modulus(&mut prod, 26);
    let mut out = String::new();
    for p in 0..len
        invariant
            n == kv.len(),
            n > 0,
            len == chars@.len(),
            m == len / n,
            len == m * n,
            bv == block_matrix(chars@, n as int),
            is_product(pv, kv, bv),
            mat_view(prod).len() == pv.len(),
            forall|i: int| 0 <= i < pv.len() ==> (#[trigger] mat_view(prod)[i]).len() == pv[i].len(),
            forall|i: int, j: int|
                0 <= i < pv.len() && 0 <= j < pv[i].len() ==> #[trigger] mat_view(prod)[i][j] == (
                pv[i][j] as int) % 26,
            out@ == hill_spec(chars@, kv).take(p as int),
    {
        let i = p % n;
        let b = p / n;
        assert(b < m) by (nonlinear_arith)
            requires
                p < m * n,
                b == p / n,
                n > 0,
        ;
        assert(mat_view(prod)[i as int] == prod@[i as int]@);
        let v = prod[i][b];
        push_char(&mut out, code_to_char(v));
        assert(out@ =~= hill_spec(chars@, kv).take(p + 1));
    }
    assert(hill_spec(chars@, kv).take(len as int) == hill_spec(chars@, kv));
    Ok(out)
}

/// Enciphers `text`, upper-case letters only, with the Hill cipher: each
/// block of `key.len()` letters is multiplied by `key` modulo 26.
pub fn hill_cipher(text: &str, key: Vec<Vec<i32>>) -> (r: Result<String, CipherError>)
    ensures
        key@.len() == 0 ==> r == Err::<String, CipherError>(CipherError::EmptyMatrix),
        key@.len() > 0 && !is_square(mat_view(key)) ==> r == Err::<String, CipherError>(
            CipherError::DimensionMismatch,
        ),
        is_square(mat_view(key)) && (text@.len() as int) % key@.len() as int != 0 ==> r == Err::<
            String,
            CipherError,
        >(CipherError::InvalidBlockLength),
        is_square(mat_view(key)) && (text@.len() as int) % key@.len() as int == 0 && !all_upper(text@)
            ==> r == Err::<String, CipherError>(CipherError::InvalidCharacter),
        is_square(mat_view(key)) && (text@.len() as int) % key@.len() as int == 0 && all_upper(text@)
            && !product_fits(mat_view(key), block_matrix(text@, key@.len() as int)) ==> r == Err::<
            String,
            CipherError,
        >(CipherError::Overflow),
        is_square(mat_view(key)) && (text@.len() as int) % key@.len() as int == 0 && all_upper(text@)
            && product_fits(mat_view(key), block_matrix(text@, key@.len() as int)) ==> (r matches Ok(
            s,
        ) && s@ == hill_spec(text@, mat_view(key))),
{
    let n = match key_dimension(&key) {
        Ok(n) => n,
        Err(e) => {
            return Err(e);
        },
    };
    let chars = chars_of(text);
    match check_text(&chars, n) {
        Ok(()) => {},
        Err(e) => {
            return Err(e);
        },
    }
    hill_apply(&chars, &key)
}

/// Deciphers `ciphertext`, upper-case letters only, with the Hill cipher:
/// each block is multiplied by the inverse of `key` modulo 26.
pub fn hill_cipher_decrypt(ciphertext: &str, key: Vec<Vec<i32>>) -> (r: Result<String, CipherError>)
    ensures
        key@.len() == 0 ==> r == Err::<String, CipherError>(CipherError::EmptyMatrix),
        key@.len() > 0 && !is_square(mat_view(key)) ==> r == Err::<String, CipherError>(
            CipherError::DimensionMismatch,
        ),
        is_square(mat_view(key)) && (ciphertext@.len() as int) % key@.len() as int != 0 ==> r == Err::<
            String,
            CipherError,
        >(CipherError::InvalidBlockLength),
        is_square(mat_view(key)) && (ciphertext@.len() as int) % key@.len() as int == 0 && !all_upper(
            ciphertext@,
        ) ==> r == Err::<String, CipherError>(CipherError::InvalidCharacter),
        is_square(mat_view(key)) && (ciphertext@.len() as int) % key@.len() as int == 0 && all_upper(
            ciphertext@,
        ) && !invertible_mod(det(mat_view(key)) % 26, 26) ==> r == Err::<String, CipherError>(
            CipherError::NotInvertible,
        ),
        is_square(mat_view(key)) && (ciphertext@.len() as int) % key@.len() as int == 0 && all_upper(
            ciphertext@,
        ) && invertible_mod(det(mat_view(key)) % 26, 26) && !product_fits(
            inverse_key(mat_view(key)),
            block_matrix(ciphertext@, key@.len() as int),
        ) ==> r == Err::<String, CipherError>(CipherError::Overflow),
        is_square(mat_view(key)) && (ciphertext@.len() as int) % key@.len() as int == 0 && all_upper(
            ciphertext@,
        ) && invertible_mod(det(mat_view(key)) % 26, 26) && product_fits(
            inverse_key(mat_view(key)),
            block_matrix(ciphertext@, key@.len() as int),
        ) ==> (r matches Ok(s) && s@ == hill_spec(ciphertext@, inverse_key(mat_view(key)))),
{
    let n = match key_dimension(&key) {
        Ok(n) => n,
        Err(e) => {
            return Err(e);
        },
    };
    let chars = chars_of(ciphertext);
    match check_text(&chars, n) {
        Ok(()) => {},
        Err(e) => {
            return Err(e);
        },
    }
    let inverse = match modular_matrix_multiplicative_inverse(&key, 26) {
        Ok(inv) => inv,
        Err(e) => {
            return Err(e);
        },
    };
    assert(mat_view(inverse) =~~= inverse_key(mat_view(key)));
    hill_apply(&chars, &inverse)
}

/// One block of two letter positions survives a 2x2 key and its inverse
/// modulo 26.
proof fn lemma_block_2x2(a: int, b: int, c: int, d: int, inv: int, c0: int, c1: int)
    requires
        0 <= c0 < 26,
        0 <= c1 < 26,
        is_inverse((a * d - b * c) % 26, 26, inv),
    ensures
        ((inv * (d % 26)) % 26 * ((a * c0 + b * c1) % 26) + (inv * ((-b) % 26)) % 26 * ((c * c0 + d
            * c1) % 26)) % 26 == c0,
        ((inv * ((-c) % 26)) % 26 * ((a * c0 + b * c1) % 26) + (inv * (a % 26)) % 26 * ((c * c0 + d
            * c1) % 26)) % 26 == c1,
{
    let dt = a * d - b * c;
    let y0 = a * c0 + b * c1;
    let y1 = c * c0 + d * c1;
    lemma_mul_mod_noop_left(dt, inv, 26);
    assert((inv * dt) % 26 == 1) by {
        assert(dt * inv == inv * dt) by (nonlinear_arith);
    }
    lemma_mul_mod_noop_right(inv, d, 26);
    lemma_mul_mod_noop_right(inv, -b, 26);
    lemma_mul_mod_noop_right(inv, -c, 26);
    lemma_mul_mod_noop_right(inv, a, 26);
    lemma_mul_mod_noop(inv * d, y0, 26);
    lemma_mul_mod_noop(inv * (-b), y1, 26);
    lemma_mul_mod_noop(inv * (-c), y0, 26);
    lemma_mul_mod_noop(inv * a, y1, 26);
    let p0 = ((inv * (d % 26)) % 26) * (y0 % 26);
    let q0 = ((inv * ((-b) % 26)) % 26) * (y1 % 26);
    let p1 = ((inv * ((-c) % 26)) % 26) * (y0 % 26);
    let q1 = ((inv * (a % 26)) % 26) * (y1 % 26);
    lemma_add_mod_noop(p0, q0, 26);
    lemma_add_mod_noop(inv * d * y0, inv * (-b) * y1, 26);
    lemma_add_mod_noop(p1, q1, 26);
    lemma_add_mod_noop(inv * (-c) * y0, inv * a * y1, 26);
    assert(d * y0 == a * d * c0 + b * d * c1) by (nonlinear_arith)
        requires
            y0 == a * c0 + b * c1,
    ;
    assert(b * y1 == b * c * c0 + b * d * c1) by (nonlinear_arith)
        requires
            y1 == c * c0 + d * c1,
    ;
    assert(c * y0 == a * c * c0 + b * c * c1) by (nonlinear_arith)
        requires
            y0 == a * c0 + b * c1,
    ;
    assert(a * y1 == a * c * c0 + a * d * c1) by (nonlinear_arith)
        requires
            y1 == c * c0 + d * c1,
    ;
    assert(dt * c0 == a * d * c0 - b * c * c0) by (nonlinear_arith)
        requires
            dt == a * d - b * c,
    ;
    assert(dt * c1 == a * d * c1 - b * c * c1) by (nonlinear_arith)
        requires
            dt == a * d - b * c,
    ;
    assert(inv * d * y0 + inv * (-b) * y1 == inv * (d * y0 - b * y1)) by (nonlinear_arith);
    assert(inv * (-c) * y0 + inv * a * y1 == inv * (a * y1 - c * y0)) by (nonlinear_arith);
    assert(inv * (dt * c0) == (inv * dt) * c0) by (nonlinear_arith);
    assert(inv * (dt * c1) == (inv * dt) * c1) by (nonlinear_arith);
    lemma_mul_mod_noop_left(inv * dt, c0, 26);
    lemma_mul_mod_noop_left(inv * dt, c1, 26);
    lemma_small_mod(c0 as nat, 26);
    lemma_small_mod(c1 as nat, 26);
}

/// For a 2x2 key whose determinant is invertible modulo 26, deciphering an
/// enciphered text of upper-case letters, of even length, gives it back.
pub proof fn lemma_hill_round_trip_2x2(t: Seq<char>, key: Seq<Seq<i32>>)
    requires
        is_rect(key, 2, 2),
        t.len() % 2 == 0,
        all_upper(t),
        invertible_mod(det(key) % 26, 26),
    ensures
        hill_spec(hill_spec(t, key), inverse_key(key)) == t,
{
    let a = key[0][0] as int;
    let b = key[0][1] as int;
    let c = key[1][0] as int;
    let d = key[1][1] as int;
    lemma_det_2x2(key);
    let inv = inverse_mod(det(key) % 26, 26);
    let w = choose|x: int| 0 <= x < 26 && #[trigger] is_inverse(det(key) % 26, 26, x);
    assert(is_inverse(det(key) % 26, 26, inv)) by {
        assert(exists|x: int| #[trigger] is_least_inverse(det(key) % 26, 26, x)) by {
            lemma_least_exists(det(key) % 26, w);
        }
    }
    let ik = inverse_key(key);
    // the minors of a 2x2 key are its single entries
    assert forall|i: int, j: int| 0 <= i < 2 && 0 <= j < 2 implies det(#[trigger] minor(key, j, i))
        == key[1 - j][1 - i] by {
        let mm = minor(key, j, i);
        assert(key[0].len() == 2 && key[1].len() == 2);
        assert(is_rect(mm, 1, 1));
        lemma_det_1x1(mm);
    }
    assert(sign(0) == 1 && sign(1) == -1 && sign(2) == 1);
    assert(ik[0][0] == (inv * (d % 26)) % 26) by {
        assert(sign(0) * det(minor(key, 0, 0)) == d);
    }
    assert(ik[0][1] == (inv * ((-b) % 26)) % 26) by {
        assert(det(minor(key, 1, 0)) == b);
        assert(sign(1) * det(minor(key, 1, 0)) == -b);
    }
    assert(ik[1][0] == (inv * ((-c) % 26)) % 26) by {
        assert(det(minor(key, 0, 1)) == c);
        assert(sign(1) * det(minor(key, 0, 1)) == -c);
    }
    assert(ik[1][1] == (inv * (a % 26)) % 26) by {
        assert(sign(2) * det(minor(key, 1, 1)) == a);
    }
    let e = hill_spec(t, key);
    let bt = block_matrix(t, 2);
    let be = block_matrix(e, 2);
    assert(e.len() == t.len());
    assert forall|p: int| 0 <= p < t.len() implies #[trigger] hill_spec(e, ik)[p] == t[p] by {
        let blk = p / 2;
        let i = p % 2;
        let c0 = t[2 * blk] as int - 65;
        let c1 = t[2 * blk + 1] as int - 65;
        assert(2 * blk + 1 < t.len());
        assert(is_upper(t[2 * blk]) && is_upper(t[2 * blk + 1]));
        assert(bt[0][blk] == c0 && bt[1][blk] == c1);
        lemma_dot_2(key, bt, 0, blk);
        lemma_dot_2(key, bt, 1, blk);
        lemma_dot_2(ik, be, i, blk);
        assert(e[2 * blk] as int - 65 == (a * c0 + b * c1) % 26);
        assert(e[2 * blk + 1] as int - 65 == (c * c0 + d * c1) % 26);
        assert(be[0][blk] == (a * c0 + b * c1) % 26);
        assert(be[1][blk] == (c * c0 + d * c1) % 26);
        lemma_block_2x2(a, b, c, d, inv, c0, c1);
        assert(product_entry(ik, be, i, blk) == ik[i][0] * be[0][blk] + ik[i][1] * be[1][blk]);
        if i == 0 {
            assert(p == 2 * blk);
        } else {
            assert(p == 2 * blk + 1);
        }
    }
    assert(hill_spec(e, ik) =~= t);
}

/// For a 1x1 key invertible modulo 26, deciphering an enciphered text of
/// upper-case letters gives it back.
pub proof fn lemma_hill_round_trip_1x1(t: Seq<char>, key: Seq<Seq<i32>>)
    requires
        is_rect(key, 1, 1),
        all_upper(t),
        invertible_mod(det(key) % 26, 26),
    ensures
        hill_spec(hill_spec(t, key), inverse_key(key)) == t,
{
    let k = key[0][0] as int;
    lemma_det_1x1(key);
    let w = choose|x: int| 0 <= x < 26 && #[trigger] is_inverse(det(key) % 26, 26, x);
    lemma_least_exists(det(key) % 26, w);
    let inv = inverse_mod(det(key) % 26, 26);
    assert(is_inverse(k % 26, 26, inv));
    let ik = inverse_key(key);
    assert(minor(key, 0, 0).len() == 0);
    assert(det(minor(key, 0, 0)) == 1);
    assert(sign(0) == 1);
    assert(is_least_inverse(det(key) % 26, 26, inv));
    assert(ik[0][0] == (inv * (1int % 26)) % 26);
    assert(1int % 26 == 1);
    assert(inv * 1 == inv);
    lemma_small_mod(inv as nat, 26);
    assert(ik[0][0] == inv);
    let e = hill_spec(t, key);
    let bt = block_matrix(t, 1);
    let be = block_matrix(e, 1);
    assert forall|p: int| 0 <= p < t.len() implies #[trigger] hill_spec(e, ik)[p] == t[p] by {
        let c0 = t[p] as int - 65;
        assert(is_upper(t[p]));
        assert(p / 1 == p && p % 1 == 0);
        assert(bt[0][p] == c0);
        assert(dot(key, bt, 0, p, 0) == 0);
        assert(product_entry(key, bt, 0, p) == k * c0);
        assert(be[0][p] == (k * c0) % 26);
        assert(dot(ik, be, 0, p, 0) == 0);
        assert(product_entry(ik, be, 0, p) == ik[0][0] * ((k * c0) % 26));
        lemma_mul_mod_noop_right(inv, k * c0, 26);
        lemma_mul_mod_noop_left(k, inv, 26);
        assert((k * inv) % 26 == 1);
        assert(inv * (k * c0) == (k * inv) * c0) by (nonlinear_arith);
        lemma_mul_mod_noop_left(k * inv, c0, 26);
        lemma_small_mod(c0 as nat, 26);
    }
    assert(hill_spec(e, ik) =~= t);
}

/// A product entry over two inner terms.
proof fn lemma_dot_2(m: Seq<Seq<i32>>, v: Seq<Seq<i32>>, i: int, j: int)
    requires
        v.len() == 2,
    ensures
        product_entry(m, v, i, j) == m[i][0] * v[0][j] + m[i][1] * v[1][j],
{
    assert(dot(m, v, i, j, 0) == 0);
    assert(dot(m, v, i, j, 1) == m[i][0] * v[0][j]);
}

/// Where some inverse below 26 exists, a least one does.
proof fn lemma_least_exists(a: int, w: int)
    requires
        0 <= w < 26,
        is_inverse(a, 26, w),
    ensures
        exists|x: int| #[trigger] is_least_inverse(a, 26, x),
    decreases w,
{
    if forall|y: int| 0 <= y < w ==> !#[trigger] is_inverse(a, 26, y) {
        assert(is_least_inverse(a, 26, w));
    } else {
        let y = choose|y: int| 0 <= y < w && #[trigger] is_inverse(a, 26, y);
        lemma_least_exists(a, y);
    }
}

} // verus!
