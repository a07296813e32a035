use vstd::prelude::*;
use vstd::arithmetic::div_mod::{
    lemma_add_mod_noop, lemma_mod_add_multiples_vanish, lemma_mul_mod_noop, lemma_mul_mod_noop_left,
    lemma_sub_mod_noop,
};
use crate::error::CipherError;

verus! {

/// The entries of a matrix, row by row.
pub open spec fn mat_view(m: Vec<Vec<i32>>) -> Seq<Seq<i32>> {
    m@.map_values(|r: Vec<i32>| r@)
}

/// `m` has `rows` rows of `cols` entries each.
pub open spec fn is_rect(m: Seq<Seq<i32>>, rows: int, cols: int) -> bool {
    &&& m.len() == rows
    &&& forall|i: int| 0 <= i < rows ==> (#[trigger] m[i]).len() == cols
}

/// `m` is a square matrix with at least one row.
pub open spec fn is_square(m: Seq<Seq<i32>>) -> bool {
    m.len() > 0 && is_rect(m, m.len() as int, m.len() as int)
}

pub open spec fn fits_i32(x: int) -> bool {
    i32::MIN <= x <= i32::MAX
}

/// The sum of the first `k` products of row `i` of `a` with column `j` of `b`.
pub open spec fn dot(a: Seq<Seq<i32>>, b: Seq<Seq<i32>>, i: int, j: int, k: nat) -> int
    decreases k,
{
    if k == 0 {
        0
    } else {
        dot(a, b, i, j, (k - 1) as nat) + a[i][k - 1] * b[k - 1][j]
    }
}

/// `a` (rows of `b.len()` entries) and `b` (rows of equal length) can be multiplied.
pub open spec fn conformable(a: Seq<Seq<i32>>, b: Seq<Seq<i32>>) -> bool {
    &&& a.len() > 0
    &&& b.len() > 0
    &&& is_rect(a, a.len() as int, b.len() as int)
    &&& is_rect(b, b.len() as int, b[0].len() as int)
}

/// Entry (i, j) of the product `a * b`.
pub open spec fn product_entry(a: Seq<Seq<i32>>, b: Seq<Seq<i32>>, i: int, j: int) -> int {
    dot(a, b, i, j, b.len())
}

/// Every entry of `a * b` fits in an `i32`.
pub open spec fn product_fits(a: Seq<Seq<i32>>, b: Seq<Seq<i32>>) -> bool {
    forall|i: int, j: int|
        0 <= i < a.len() && 0 <= j < b[0].len() ==> fits_i32(#[trigger] product_entry(a, b, i, j))
}

/// `c` is the product `a * b`.
pub open spec fn is_product(c: Seq<Seq<i32>>, a: Seq<Seq<i32>>, b: Seq<Seq<i32>>) -> bool {
    &&& is_rect(c, a.len() as int, b[0].len() as int)
    &&& forall|i: int, j: int|
        0 <= i < a.len() && 0 <= j < b[0].len() ==> c[i][j] == #[trigger] product_entry(
            a,
            b,
            i,
            j,
        )
}

/// `m` without row `r` and column `c`.
pub open spec fn minor(m: Seq<Seq<i32>>, r: int, c: int) -> Seq<Seq<i32>> {
    Seq::new(
        (m.len() - 1) as nat,
        |i: int|
            {
                let row = if i < r {
                    m[i]
                } else {
                    m[i + 1]
                };
                Seq::new((row.len() - 1) as nat, |j: int| if j < c { row[j] } else { row[j + 1] })
            },
    )
}

/// `1` at even positions, `-1` at odd ones.
pub open spec fn sign(k: int) -> int {
    if k % 2 == 0 {
        1
    } else {
        -1
    }
}

/// The first `k` terms of the cofactor expansion of `m` along its first row;
/// an empty matrix counts as 1.
pub open spec fn cofactor_sum(m: Seq<Seq<i32>>, k: nat) -> int
    decreases m.len(), k,
{
    if m.len() == 0 {
        1
    } else if k == 0 {
        0
    } else {
        cofactor_sum(m, (k - 1) as nat) + sign(k - 1) * m[0][k - 1] * cofactor_sum(
            minor(m, 0, k - 1),
            (m.len() - 1) as nat,
        )
    }
}

/// The determinant of a square matrix.
pub open spec fn det(m: Seq<Seq<i32>>) -> int {
    cofactor_sum(m, m.len())
}

pub open spec fn fits_i64(x: int) -> bool {
    i64::MIN <= x <= i64::MAX
}

/// Every partial sum of the first `k` terms of the first-row expansion of `m`,
/// and recursively of the minors it uses, fits in an `i64`.
pub open spec fn expansion_fits(m: Seq<Seq<i32>>, k: nat) -> bool
    decreases m.len(), k,
{
    if m.len() == 0 || k == 0 {
        true
    } else {
        &&& expansion_fits(m, (k - 1) as nat)
        &&& expansion_fits(minor(m, 0, k - 1), (m.len() - 1) as nat)
        &&& fits_i64(cofactor_sum(m, k))
    }
}

/// The whole cofactor expansion of `m` stays within `i64`.
pub open spec fn det_fits(m: Seq<Seq<i32>>) -> bool {
    expansion_fits(m, m.len())
}

/// `a * x` is 1 modulo `n`.
pub open spec fn is_inverse(a: int, n: int, x: int) -> bool {
    (a * x) % n == 1
}

/// `x` is the least non-negative inverse of `a` modulo `n`.
pub open spec fn is_least_inverse(a: int, n: int, x: int) -> bool {
    &&& 0 <= x < n
    &&& is_inverse(a, n, x)
    &&& forall|y: int| 0 <= y < x ==> !#[trigger] is_inverse(a, n, y)
}

/// Some `x` in `0..n` is an inverse of `a` modulo `n`.
pub open spec fn invertible_mod(a: int, n: int) -> bool {
    exists|x: int| 0 <= x < n && #[trigger] is_inverse(a, n, x)
}

/// The least non-negative inverse of `a` modulo `n`.
pub open spec fn inverse_mod(a: int, n: int) -> int {
    choose|x: int| is_least_inverse(a, n, x)
}

/// Entry (i, j) of the inverse of `m` modulo `n`: the inverse of the
/// determinant times the adjugate entry, the (j, i) cofactor.
pub open spec fn inverse_entry(m: Seq<Seq<i32>>, n: int, i: int, j: int) -> int {
    (inverse_mod(det(m) % n, n) * ((sign(i + j) * det(minor(m, j, i))) % n)) % n
}

/// Euclidean remainder of `x` by a positive `n`.
pub fn rem_euclid(x: i32, n: i32) -> (r: i32)
    requires
        n > 0,
    ensures
        r == x % n,
        0 <= r < n,
{
    match x.checked_rem_euclid(n) {
        Some(r) => r,
        None => 0,
    }
}

/// The matrix product `a * b`.
pub fn multiply(a: &Vec<Vec<i32>>, b: &Vec<Vec<i32>>) -> (r: Result<Vec<Vec<i32>>, CipherError>)
    ensures
        a@.len() == 0 || b@.len() == 0 ==> r == Err::<Vec<Vec<i32>>, CipherError>(
            CipherError::EmptyMatrix,
        ),
        a@.len() > 0 && b@.len() > 0 && !conformable(mat_view(*a), mat_view(*b)) ==> r == Err::<
            Vec<Vec<i32>>,
            CipherError,
        >(CipherError::DimensionMismatch),
        conformable(mat_view(*a), mat_view(*b)) && !product_fits(mat_view(*a), mat_view(*b))
            ==> r == Err::<Vec<Vec<i32>>, CipherError>(CipherError::Overflow),
        conformable(mat_view(*a), mat_view(*b)) && product_fits(mat_view(*a), mat_view(*b)) ==> (
        r matches Ok(c) && is_product(mat_view(c), mat_view(*a), mat_view(*b))),
{
    let ghost av = mat_view(*a);
    let ghost bv = mat_view(*b);
    if a.len() == 0 || b.len() == 0 {
        return Err(CipherError::EmptyMatrix);
    }
    let inner = b.len();
    let cols = b[0].len();
    for i in 0..a.len()
        invariant
            av == mat_view(*a),
            a@.len() > 0,
            b@.len() > 0,
            inner == b@.len(),
            forall|ii: int| 0 <= ii < i ==> (#[trigger] av[ii]).len() == inner,
    {
        assert(av[i as int] == a@[i as int]@);
        if a[i].len() != inner {
            assert(!is_rect(av, a@.len() as int, inner as int));
            return Err(CipherError::DimensionMismatch);
        }
    }
    for k in 0..b.len()
        invariant
            av == mat_view(*a),
            bv == mat_view(*b),
            a@.len() > 0,
            b@.len() > 0,
            is_rect(av, a@.len() as int, inner as int),
            inner == b@.len(),
            cols == bv[0].len(),
            forall|kk: int| 0 <= kk < k ==> (#[trigger] bv[kk]).len() == cols,
    {
        assert(bv[k as int] == b@[k as int]@);
        if b[k].len() != cols {
            assert(!is_rect(bv, b@.len() as int, cols as int));
            return Err(CipherError::DimensionMismatch);
        }
    }
    assert(conformable(av, bv));
    let mut out: Vec<Vec<i32>> = Vec::new();
    for i in 0..a.len()
        invariant
            av == mat_view(*a),
            bv == mat_view(*b),
            conformable(av, bv),
            inner == b@.len(),
            cols == bv[0].len(),
            out@.len() == i,
            forall|ii: int, jj: int|
                0 <= ii < i && 0 <= jj < cols ==> fits_i32(#[trigger] product_entry(av, bv, ii, jj)),
            forall|ii: int| 0 <= ii < i ==> (#[trigger] out@[ii]@).len() == cols,
            forall|ii: int, jj: int|
                0 <= ii < i && 0 <= jj < cols ==> out@[ii]@[jj] == #[trigger] product_entry(
                    av,
                    bv,
                    ii,
                    jj,
                ),
    {
        let mut row: Vec<i32> = Vec::new();
        for j in 0..cols
            invariant
                av == mat_view(*a),
                bv == mat_view(*b),
                conformable(av, bv),
                inner == b@.len(),
                cols == bv[0].len(),
                i < av.len(),
                row@.len() == j,
                forall|jj: int| 0 <= jj < j ==> fits_i32(#[trigger] product_entry(av, bv, i as int, jj)),
                forall|jj: int| 0 <= jj < j ==> row@[jj] == #[trigger] product_entry(av, bv, i as int, jj),
        {
            let mut acc: i128 = 0;
            for k in 0..inner
                invariant
                    av == mat_view(*a),
                    bv == mat_view(*b),
                    conformable(av, bv),
                    inner == b@.len(),
                    cols == bv[0].len(),
                    i < av.len(),
                    j < cols,
                    acc == dot(av, bv, i as int, j as int, k as nat),
                    -(k * 0x4000_0000_0000_0000) <= acc <= k * 0x4000_0000_0000_0000,
            {
                assert(bv[k as int] == b@[k as int]@);
                assert(av[i as int] == a@[i as int]@);
                let x = a[i][k];
                let y = b[k][j];
                assert(av[i as int][k as int] == x);
                assert(bv[k as int][j as int] == y);
                assert(-0x4000_0000_0000_0000 <= (x as int) * (y as int) <= 0x4000_0000_0000_0000)
                    by (nonlinear_arith)
                    requires
                        i32::MIN <= x <= i32::MAX,
                        i32::MIN <= y <= i32::MAX,
                ;
                acc = acc + (x as i128) * (y as i128);
            }
            if acc < i32::MIN as i128 || acc > i32::MAX as i128 {
                assert(!fits_i32(product_entry(av, bv, i as int, j as int)));
                return Err(CipherError::Overflow);
            }
            row.push(acc as i32);
        }
        out.push(row);
    }
    assert(is_product(mat_view(out), av, bv));
    Ok(out)
}

/// Replaces every entry by its non-negative remainder modulo `n`.
pub fn modulus(m: &mut Vec<Vec<i32>>, n: i32)
    requires
        n > 0,
    ensures
        mat_view(*final(m)).len() == mat_view(*old(m)).len(),
        forall|i: int|
            0 <= i < mat_view(*old(m)).len() ==> (#[trigger] mat_view(*final(m))[i]).len()
                == mat_view(*old(m))[i].len(),
        forall|i: int, j: int|
            0 <= i < mat_view(*old(m)).len() && 0 <= j < mat_view(*old(m))[i].len() ==> #[trigger] mat_view(
                *final(m),
            )[i][j] == (mat_view(*old(m))[i][j] as int) % (n as int),
{
    let ghost mv = mat_view(*m);
    let mut out: Vec<Vec<i32>> = Vec::new();
    for i in 0..m.len()
        invariant
            n > 0,
            mv == mat_view(*m),
            out@.len() == i,
            forall|ii: int| 0 <= ii < i ==> (#[trigger] out@[ii]@).len() == mv[ii].len(),
            forall|ii: int, jj: int|
                0 <= ii < i && 0 <= jj < mv[ii].len() ==> #[trigger] out@[ii]@[jj] == (mv[ii][jj] as int)
                    % (n as int),
    {
        let mut row: Vec<i32> = Vec::new();
        let width = m[i].len();
        for j in 0..width
            invariant
                n > 0,
                mv == mat_view(*m),
                i < mv.len(),
                width == mv[i as int].len(),
                row@.len() == j,
                forall|jj: int| 0 <= jj < j ==> #[trigger] row@[jj] == (mv[i as int][jj] as int) % (n as int),
        {
            row.push(rem_euclid(m[i][j], n));
        }
        out.push(row);
    }
    *m = out;
}

/// `inv` is the inverse of the square matrix `m` modulo `n`, entry by entry.
pub open spec fn is_inverse_matrix(inv: Seq<Seq<i32>>, m: Seq<Seq<i32>>, n: int) -> bool {
    &&& is_rect(inv, m.len() as int, m.len() as int)
    &&& forall|i: int, j: int|
        0 <= i < m.len() && 0 <= j < m.len() ==> inv[i][j] == #[trigger] inverse_entry(m, n, i, j)
}

/// Two inverses of `a` below `n` are the same number.
pub proof fn lemma_inverses_agree(a: int, n: int, x: int, y: int)
    requires
        n > 1,
        0 <= x < n,
        0 <= y < n,
        is_inverse(a, n, x),
        is_inverse(a, n, y),
    ensures
        x == y,
{
    vstd::arithmetic::div_mod::lemma_mul_mod_noop_right(y, a * x, n);
    vstd::arithmetic::div_mod::lemma_mul_mod_noop_right(x, a * y, n);
    assert(y * (a * x) == x * (a * y)) by (nonlinear_arith);
    vstd::arithmetic::div_mod::lemma_small_mod(x as nat, n as nat);
    vstd::arithmetic::div_mod::lemma_small_mod(y as nat, n as nat);
}

/// One step of the cofactor expansion along the first row.
proof fn lemma_cofactor_step(m: Seq<Seq<i32>>, j: int)
    requires
        is_square(m),
        0 <= j < m.len(),
    ensures
        cofactor_sum(m, (j + 1) as nat) == cofactor_sum(m, j as nat) + sign(j) * (m[0][j] * det(
            minor(m, 0, j),
        )),
{
    assert(minor(m, 0, j).len() == m.len() - 1);
    assert(sign(j) * m[0][j] * det(minor(m, 0, j)) == sign(j) * (m[0][j] * det(minor(m, 0, j))))
        by (nonlinear_arith);
}

/// Adding or subtracting `y` to `x`, computed on remainders modulo `n`.
proof fn lemma_signed_mod_step(x: int, y: int, n: int, s: int, acc: int, t: int, next: int)
    requires
        n > 0,
        acc == x % n,
        t == y % n,
        s == 1 ==> next == (acc + t) % n,
        s == -1 ==> next == (acc + n - t) % n,
        s == 1 || s == -1,
    ensures
        next == (x + s * y) % n,
{
    if s == 1 {
        lemma_add_mod_noop(x, y, n);
    } else {
        lemma_mod_add_multiples_vanish(acc - t, n);
        lemma_sub_mod_noop(x, y, n);
    }
}

/// Two least inverses are the same number.
pub proof fn lemma_least_inverse_unique(a: int, n: int, x: int)
    requires
        is_least_inverse(a, n, x),
    ensures
        inverse_mod(a, n) == x,
{
    let y = inverse_mod(a, n);
    assert(is_least_inverse(a, n, y));
    if y < x {
        assert(!is_inverse(a, n, y));
    }
    if x < y {
        assert(!is_inverse(a, n, x));
    }
}

/// The least non-negative `x` with `a * x == 1` modulo `n`.
pub fn modular_inverse(a: i32, n: i32) -> (r: Result<i32, CipherError>)
    requires
        n > 0,
    ensures
        r is Ok <==> invertible_mod(a as int, n as int),
        r matches Ok(x) ==> is_least_inverse(a as int, n as int, x as int),
        !invertible_mod(a as int, n as int) ==> r == Err::<i32, CipherError>(
            CipherError::NotInvertible,
        ),
{
    let am = rem_euclid(a, n) as u64;
    for x in 0..n
        invariant
            n > 0,
            am == (a as int) % (n as int),
            0 <= am < n,
            forall|y: int| 0 <= y < x ==> !#[trigger] is_inverse(a as int, n as int, y),
    {
        assert(am * (x as u64) < 0x4000_0000_0000_0000) by (nonlinear_arith)
            requires
                0 <= am < n,
                0 <= x < n,
                n <= i32::MAX,
        ;
        let p = (am * x as u64) % (n as u64);
        proof {
            lemma_mul_mod_noop_left(a as int, x as int, n as int);
        }
        if p == 1 {
            assert(is_inverse(a as int, n as int, x as int));
            return Ok(x);
        }
    }
    Err(CipherError::NotInvertible)
}

/// `m` without row `r` and column `c`.
fn minor_of(m: &Vec<Vec<i32>>, r: usize, c: usize) -> (res: Vec<Vec<i32>>)
    requires
        is_square(mat_view(*m)),
        r < m@.len(),
        c < m@.len(),
    ensures
        mat_view(res) == minor(mat_view(*m), r as int, c as int),
{
    let ghost mv = mat_view(*m);
    let size = m.len();
    let mut out: Vec<Vec<i32>> = Vec::new();
    for i in 0..size - 1
        invariant
            mv == mat_view(*m),
            is_square(mv),
            size == mv.len(),
            r < size,
            c < size,
            out@.len() == i,
            forall|ii: int| 0 <= ii < i ==> (#[trigger] out@[ii])@ == minor(mv, r as int, c as int)[ii],
    {
        let src = if i < r {
            i
        } else {
            i + 1
        };
        assert(mv[src as int] == m@[src as int]@);
        let mut row: Vec<i32> = Vec::new();
        for j in 0..size - 1
            invariant
                mv == mat_view(*m),
                is_square(mv),
                size == mv.len(),
                c < size,
                src < size,
                mv[src as int] == m@[src as int]@,
                row@.len() == j,
                forall|jj: int|
                    0 <= jj < j ==> #[trigger] row@[jj] == (if jj < c {
                        mv[src as int][jj]
                    } else {
                        mv[src as int][jj + 1]
                    }),
        {
            let sj = if j < c {
                j
            } else {
                j + 1
            };
            row.push(m[src][sj]);
        }
        assert(row@ =~= minor(mv, r as int, c as int)[i as int]);
        out.push(row);
    }
    assert(mat_view(out) =~= minor(mv, r as int, c as int));
    out
}

/// The minor of a square matrix is square, one row smaller.
proof fn lemma_minor_square(m: Seq<Seq<i32>>, r: int, c: int)
    requires
        is_square(m),
    ensures
        is_rect(minor(m, r, c), m.len() - 1, m.len() - 1),
{
    assert forall|i: int| 0 <= i < m.len() - 1 implies (#[trigger] minor(m, r, c)[i]).len() == m.len()
        - 1 by {
        if i < r {
            assert(m[i].len() == m.len());
        } else {
            assert(m[i + 1].len() == m.len());
        }
    }
}

/// The determinant of a square matrix modulo `n`.
#[verifier::spinoff_prover]
fn det_mod(m: &Vec<Vec<i32>>, n: i32) -> (r: i32)
    requires
        n > 0,
        is_rect(mat_view(*m), m@.len() as int, m@.len() as int),
    ensures
        r == det(mat_view(*m)) % (n as int),
        0 <= r < n,
    decreases m@.len(),
{
    let ghost mv = mat_view(*m);
    let size = m.len();
    if size == 0 {
        return rem_euclid(1, n);
    }
    let mut acc: i32 = 0;
    assert(cofactor_sum(mv, 0) == 0);
    assert(0int % (n as int) == 0);
    for j in 0..size
        invariant
            n > 0,
            mv == mat_view(*m),
            is_square(mv),
            size == mv.len(),
            acc == cofactor_sum(mv, j as nat) % (n as int),
            0 <= acc < n,
        decreases size - j,
    {
        let sub = minor_of(m, 0, j);
        proof {
            lemma_minor_square(mv, 0, j as int);
        }
        let d = det_mod(&sub, n);
        assert(mv[0] == m@[0]@);
        let e = rem_euclid(m[0][j], n);
        let ghost x = cofactor_sum(mv, j as nat);
        let ghost dt = det(minor(mv, 0, j as int));
        let ghost y = mv[0][j as int] * dt;
        assert(e * d < 0x4000_0000_0000_0000) by (nonlinear_arith)
            requires
                0 <= e < n,
                0 <= d < n,
                n <= i32::MAX,
        ;
        let t = ((e as u64 * d as u64) % (n as u64)) as i32;
        proof {
            lemma_mul_mod_noop(mv[0][j as int] as int, dt, n as int);
            assert(t == y % (n as int));
            lemma_cofactor_step(mv, j as int);
        }
        let next = if j % 2 == 0 {
            ((acc as u64 + t as u64) % (n as u64)) as i32
        } else {
            ((acc as u64 + n as u64 - t as u64) % (n as u64)) as i32
        };
        proof {
            lemma_signed_mod_step(x, y, n as int, sign(j as int), acc as int, t as int, next as int);
        }
        acc = next;
        assert(acc == cofactor_sum(mv, (j + 1) as nat) % (n as int));
    }
    acc
}

/// The determinant of a square matrix by cofactor expansion along the first
/// row, or `None` when some partial sum of the expansion leaves `i64`.
#[verifier::spinoff_prover]
fn det_checked(m: &Vec<Vec<i32>>) -> (r: Option<i64>)
    requires
        is_rect(mat_view(*m), m@.len() as int, m@.len() as int),
    ensures
        det_fits(mat_view(*m)) ==> r == Some(det(mat_view(*m)) as i64),
        !det_fits(mat_view(*m)) ==> r is None,
    decreases m@.len(),
{
    let ghost mv = mat_view(*m);
    let size = m.len();
    if size == 0 {
        return Some(1);
    }
    let mut acc: i128 = 0;
    assert(cofactor_sum(mv, 0) == 0);
    for j in 0..size
        invariant
            mv == mat_view(*m),
            is_square(mv),
            size == mv.len(),
            acc == cofactor_sum(mv, j as nat),
            expansion_fits(mv, j as nat),
            fits_i64(acc as int),
    {
        let sub = minor_of(m, 0, j);
        proof {
            lemma_minor_square(mv, 0, j as int);
            lemma_cofactor_step(mv, j as int);
        }
        let d = match det_checked(&sub) {
            Some(d) => d,
            None => {
                assert(!expansion_fits(mv, (j + 1) as nat));
                proof {
                    if expansion_fits(mv, size as nat) {
                        lemma_expansion_fits_monotone(mv, (j + 1) as nat, size as nat);
                    }
                }
                return None;
            },
        };
        assert(mv[0] == m@[0]@);
        let x = m[0][j] as i128;
        assert(-0x8000_0000_0000_0000_0000_0000 <= x * (d as int) <= 0x8000_0000_0000_0000_0000_0000)
            by (nonlinear_arith)
            requires
                i32::MIN <= x <= i32::MAX,
                i64::MIN <= d <= i64::MAX,
        ;
        let term = x * (d as i128);
        assert(term == mv[0][j as int] * det(minor(mv, 0, j as int)));
        let ghost before = acc as int;
        acc = if j % 2 == 0 {
            acc + term
        } else {
            acc - term
        };
        proof {
            lemma_signed_add(before, sign(j as int), term as int, acc as int);
            assert(acc == cofactor_sum(mv, (j + 1) as nat));
        }
        if acc < i64::MIN as i128 || acc > i64::MAX as i128 {
            assert(!expansion_fits(mv, (j + 1) as nat));
            proof {
                if expansion_fits(mv, size as nat) {
                    lemma_expansion_fits_monotone(mv, (j + 1) as nat, size as nat);
                }
            }
            return None;
        }
    }
    Some(acc as i64)
}

/// The determinant of a 1x1 matrix is its entry.
pub proof fn lemma_det_1x1(m: Seq<Seq<i32>>)
    requires
        is_rect(m, 1, 1),
    ensures
        det(m) == m[0][0],
{
    let e = minor(m, 0, 0);
    assert(e.len() == 0);
    assert(cofactor_sum(e, 0) == 1);
    assert(cofactor_sum(m, 0) == 0);
    assert(sign(0) == 1);
    assert(cofactor_sum(m, 1) == cofactor_sum(m, 0) + sign(0) * m[0][0] * cofactor_sum(e, 0));
}

/// The determinant of a 2x2 matrix is `ad - bc`.
pub proof fn lemma_det_2x2(m: Seq<Seq<i32>>)
    requires
        is_rect(m, 2, 2),
    ensures
        det(m) == m[0][0] * m[1][1] - m[0][1] * m[1][0],
{
    let m0 = minor(m, 0, 0);
    let m1 = minor(m, 0, 1);
    assert(m[1].len() == 2);
    assert(is_rect(m0, 1, 1) && m0[0][0] == m[1][1]);
    assert(is_rect(m1, 1, 1) && m1[0][0] == m[1][0]);
    lemma_det_1x1(m0);
    lemma_det_1x1(m1);
    assert(sign(0) == 1 && sign(1) == -1);
    assert(cofactor_sum(m, 0) == 0);
    assert(cofactor_sum(m, 1) == cofactor_sum(m, 0) + sign(0) * m[0][0] * cofactor_sum(m0, 1));
    assert(cofactor_sum(m, 2) == cofactor_sum(m, 1) + sign(1) * m[0][1] * cofactor_sum(m1, 1));
    assert(det(m) == m[0][0] * m[1][1] + (-1) * m[0][1] * m[1][0]);
    assert((-1) * m[0][1] * m[1][0] == -(m[0][1] * m[1][0])) by (nonlinear_arith);
}

/// `r` is `a` plus or minus `t` as the sign `s` says.
proof fn lemma_signed_add(a: int, s: int, t: int, r: int)
    requires
        s == 1 ==> r == a + t,
        s == -1 ==> r == a - t,
        s == 1 || s == -1,
    ensures
        r == a + s * t,
{
    if s == 1 {
        assert(s * t == t);
    } else {
        assert(s * t == -t) by (nonlinear_arith)
            requires
                s == -1,
        ;
    }
}

/// A longer expansion that fits has every shorter one fitting.
proof fn lemma_expansion_fits_monotone(m: Seq<Seq<i32>>, j: nat, k: nat)
    requires
        j <= k,
        expansion_fits(m, k),
    ensures
        expansion_fits(m, j),
    decreases k,
{
    if j < k {
        lemma_expansion_fits_monotone(m, j, (k - 1) as nat);
    }
}

/// The determinant of a square matrix, by cofactor expansion along the first
/// row.
pub fn determinant(m: &Vec<Vec<i32>>) -> (r: Result<i64, CipherError>)
    ensures
        m@.len() == 0 ==> r == Err::<i64, CipherError>(CipherError::EmptyMatrix),
        m@.len() > 0 && !is_square(mat_view(*m)) ==> r == Err::<i64, CipherError>(
            CipherError::DimensionMismatch,
        ),
        is_square(mat_view(*m)) && !det_fits(mat_view(*m)) ==> r == Err::<i64, CipherError>(
            CipherError::Overflow,
        ),
        is_square(mat_view(*m)) && det_fits(mat_view(*m)) ==> r == Ok::<i64, CipherError>(
            det(mat_view(*m)) as i64,
        ),
{
    let ghost mv = mat_view(*m);
    let size = m.len();
    if size == 0 {
        return Err(CipherError::EmptyMatrix);
    }
    for i in 0..size
        invariant
            mv == mat_view(*m),
            size == mv.len(),
            forall|ii: int| 0 <= ii < i ==> (#[trigger] mv[ii]).len() == size,
    {
        assert(mv[i as int] == m@[i as int]@);
        if m[i].len() != size {
            assert(!is_rect(mv, size as int, size as int));
            return Err(CipherError::DimensionMismatch);
        }
    }
    match det_checked(m) {
        Some(d) => Ok(d),
        None => Err(CipherError::Overflow),
    }
}

/// The inverse of the square matrix `m` modulo `n`: the adjugate scaled by the
/// inverse of the determinant, reduced modulo `n`.
pub fn modular_matrix_multiplicative_inverse(m: &Vec<Vec<i32>>, n: i32) -> (r: Result<
    Vec<Vec<i32>>,
    CipherError,
>)
    requires
        n > 0,
    ensures
        m@.len() == 0 ==> r == Err::<Vec<Vec<i32>>, CipherError>(CipherError::EmptyMatrix),
        m@.len() > 0 && !is_square(mat_view(*m)) ==> r == Err::<Vec<Vec<i32>>, CipherError>(
            CipherError::DimensionMismatch,
        ),
        is_square(mat_view(*m)) && !invertible_mod(det(mat_view(*m)) % (n as int), n as int) ==> r
            == Err::<Vec<Vec<i32>>, CipherError>(CipherError::NotInvertible),
        is_square(mat_view(*m)) && invertible_mod(det(mat_view(*m)) % (n as int), n as int) ==> (
        r matches Ok(inv) && is_inverse_matrix(mat_view(inv), mat_view(*m), n as int)),
{
    let ghost mv = mat_view(*m);
    let size = m.len();
    if size == 0 {
        return Err(CipherError::EmptyMatrix);
    }
    for i in 0..size
        invariant
            mv == mat_view(*m),
            size == mv.len(),
            forall|ii: int| 0 <= ii < i ==> (#[trigger] mv[ii]).len() == size,
    {
        assert(mv[i as int] == m@[i as int]@);
        if m[i].len() != size {
            assert(!is_rect(mv, size as int, size as int));
            return Err(CipherError::DimensionMismatch);
        }
    }
    assert(is_square(mv));
    let d = det_mod(m, n);
    let dinv = match modular_inverse(d, n) {
        Ok(x) => x,
        Err(e) => {
            return Err(e);
        },
    };
    proof {
        lemma_least_inverse_unique(d as int, n as int, dinv as int);
    }
    let mut out: Vec<Vec<i32>> = Vec::new();
    for i in 0..size
        invariant
            n > 0,
            mv == mat_view(*m),
            is_square(mv),
            size == mv.len(),
            dinv == inverse_mod(det(mv) % (n as int), n as int),
            0 <= dinv < n,
            out@.len() == i,
            forall|ii: int| 0 <= ii < i ==> (#[trigger] out@[ii]@).len() == size,
            forall|ii: int, jj: int|
                0 <= ii < i && 0 <= jj < size ==> out@[ii]@[jj] == #[trigger] inverse_entry(
                    mv,
                    n as int,
                    ii,
                    jj,
                ),
    {
        let mut row: Vec<i32> = Vec::new();
        for j in 0..size
            invariant
                n > 0,
                mv == mat_view(*m),
                is_square(mv),
                size == mv.len(),
                i < size,
                dinv == inverse_mod(det(mv) % (n as int), n as int),
                0 <= dinv < n,
                row@.len() == j,
                forall|jj: int|
                    0 <= jj < j ==> row@[jj] == #[trigger] inverse_entry(mv, n as int, i as int, jj),
        {
            let sub = minor_of(m, j, i);
            proof {
                lemma_minor_square(mv, j as int, i as int);
            }
            let c = det_mod(&sub, n);
            let ghost dt = det(minor(mv, j as int, i as int));
            assert((i + j) % 2 == 0 <==> i % 2 == j % 2);
            let signed = if i % 2 == j % 2 {
                c
            } else if c == 0 {
                0
            } else {
                n - c
            };
            proof {
                if i % 2 != j % 2 {
                    assert(sign((i + j) as int) == -1);
                    assert(sign((i + j) as int) * dt == -dt);
                    lemma_mod_add_multiples_vanish(-c, n as int);
                    lemma_sub_mod_noop(0, dt, n as int);
                    assert((0int % (n as int)) == 0);
                    assert((-dt) % (n as int) == (-c) % (n as int));
                    if c != 0 {
                        vstd::arithmetic::div_mod::lemma_small_mod((n - c) as nat, n as nat);
                        assert(signed == (-c) % (n as int));
                    } else {
                        assert(signed == (-c) % (n as int));
                    }
                } else {
                    assert(sign((i + j) as int) == 1);
                    assert(sign((i + j) as int) * dt == dt);
                }
                assert(signed == (sign((i + j) as int) * dt) % (n as int));
            }
            assert(dinv * signed < 0x4000_0000_0000_0000) by (nonlinear_arith)
                requires
                    0 <= dinv < n,
                    0 <= signed < n,
                    n <= i32::MAX,
            ;
            let entry = ((dinv as u64 * signed as u64) % (n as u64)) as i32;
            row.push(entry);
        }
        out.push(row);
    }
    Ok(out)
}

} // verus!
