use vstd::prelude::*;
use crate::error::CipherError;
use crate::text::{chars_of, string_from};

verus! {

/// Number of columns needed for `n` characters on `k` rows.
pub open spec fn width_for(n: int, k: int) -> int {
    (n + k - 1) / k
}

/// Cell (r, c) of the `h`-row, `w`-column table: the message fills it column by
/// column (character `c * h + r`) or, for deciphering, row by row (character
/// `r * w + c`); cells past the end hold NUL.
pub open spec fn cell(s: Seq<char>, h: int, w: int, r: int, c: int, by_rows: bool) -> char {
    let p = if by_rows {
        r * w + c
    } else {
        c * h + r
    };
    if p < s.len() {
        s[p]
    } else {
        '\0'
    }
}

/// The table, as rows.
pub open spec fn table_spec(s: Seq<char>, h: int, w: int, by_rows: bool) -> Seq<Seq<char>> {
    Seq::new(h as nat, |r: int| Seq::new(w as nat, |c: int| cell(s, h, w, r, c, by_rows)))
}

/// `s` without its trailing NUL characters.
pub open spec fn trim_nul(s: Seq<char>) -> Seq<char>
    decreases s.len(),
{
    if s.len() > 0 && s.last() == '\0' {
        trim_nul(s.drop_last())
    } else {
        s
    }
}

/// The message written column by column on `k` rows, read row by row.
pub open spec fn scytale_grid(s: Seq<char>, k: int) -> Seq<char> {
    let w = width_for(s.len() as int, k);
    Seq::new((k * w) as nat, |i: int| cell(s, k, w, i / w, i % w, false))
}

/// The cipher text written row by row on `k` rows, read column by column.
pub open spec fn scytale_read(t: Seq<char>, k: int) -> Seq<char> {
    let w = width_for(t.len() as int, k);
    Seq::new((k * w) as nat, |j: int| cell(t, k, w, j % k, j / k, true))
}

pub open spec fn scytale_encode(s: Seq<char>, k: int) -> Seq<char> {
    if k >= s.len() {
        s
    } else {
        trim_nul(scytale_grid(s, k))
    }
}

pub open spec fn scytale_decode(t: Seq<char>, k: int) -> Seq<char> {
    if k >= t.len() || k == 1 {
        t
    } else {
        trim_nul(scytale_read(t, k))
    }
}

/// Scytale transposition on a rod of `key` faces.
pub struct Scytale {
    key: usize,
}

impl View for Scytale {
    type V = int;

    closed spec fn view(&self) -> int {
        self.key as int
    }
}

/// Drops trailing NUL characters.
fn trim_trailing_nul(v: &mut Vec<char>)
    ensures
        final(v)@ == trim_nul(old(v)@),
{
    while v.len() > 0 && v[v.len() - 1] == '\0'
        invariant
            trim_nul(v@) == trim_nul(old(v)@),
        decreases v.len(),
    {
        v.pop();
    }
}

impl Scytale {
    #[verifier::type_invariant]
    spec fn inv(self) -> bool {
        self.key > 0
    }

    /// A Scytale cipher with `key` rows.
    pub fn new(key: usize) -> (r: Result<Scytale, CipherError>)
        ensures
            key == 0 ==> r == Err::<Scytale, CipherError>(CipherError::ZeroKey),
            key > 0 ==> (r matches Ok(s) && s@ == key as int),
    {
        match key {
            0 => Err(CipherError::ZeroKey),
            _ => Ok(Scytale { key }),
        }
    }

    /// Writes the message down the columns of a `key`-row table and reads it
    /// along the rows, without the trailing padding.
    pub fn encipher(&self, message: &str) -> (r: String)
        ensures
            r@ == scytale_encode(message@, self@),
    {
        proof {
            use_type_invariant(self);
        }
        let chars = chars_of(message);
        let n = chars.len();
        let k = self.key;
        if k >= n {
            return string_from(&chars);
        }
        let table = Scytale::generate_table(k, &chars, false);
        let w = table[0].len();
        let ghost g = scytale_grid(chars@, k as int);
        let mut flat: Vec<char> = Vec::new();
        assert(g.take(0 * w) =~= flat@);
        for r in 0..k
            invariant
                table@.len() == k,
                k > 0,
                w == width_for(n as int, k as int),
                n == chars@.len(),
                g == scytale_grid(chars@, k as int),
                forall|rr: int| 0 <= rr < k ==> (#[trigger] table@[rr])@ == table_spec(chars@, k as int, w as int, false)[rr],
                flat@ == g.take(r * w),
        {
            for c in 0..w
                invariant
                    table@.len() == k,
                    k > 0,
                    r < k,
                    w == width_for(n as int, k as int),
                    n == chars@.len(),
                    g == scytale_grid(chars@, k as int),
                    forall|rr: int| 0 <= rr < k ==> (#[trigger] table@[rr])@ == table_spec(chars@, k as int, w as int, false)[rr],
                    flat@ == g.take(r * w + c),
            {
                assert(table@[r as int]@.len() == w);
                flat.push(table[r][c]);
                proof {
                    Scytale::lemma_row_major(r as int, c as int, w as int, k as int);
                }
                assert(flat@ =~= g.take(r * w + c + 1));
            }
            assert(r * w + w == (r + 1) * w) by (nonlinear_arith);
        }
        assert(g.len() == k * w);
        assert(g.take(k * w) =~= g);
        trim_trailing_nul(&mut flat);
        string_from(&flat)
    }

    /// Lays the cipher text along the rows of a `key`-row table, reads it down
    /// the columns, and drops the trailing padding.
    pub fn decipher(&self, cipher: &str) -> (r: String)
        ensures
            r@ == scytale_decode(cipher@, self@),
    {
        proof {
            use_type_invariant(self);
        }
        let chars = chars_of(cipher);
        let n = chars.len();
        let k = self.key;
        if k >= n || k == 1 {
            return string_from(&chars);
        }
        let table = Scytale::generate_table(k, &chars, true);
        let w = table[0].len();
        let ghost g = scytale_read(chars@, k as int);
        let mut message: Vec<char> = Vec::new();
        assert(g.take(0 * k) =~= message@);
        assert(g.len() == w * k) by {
            assert(k * w == w * k) by (nonlinear_arith);
        }
        for c in 0..w
            invariant
                table@.len() == k,
                k > 0,
                w == width_for(n as int, k as int),
                n == chars@.len(),
                g == scytale_read(chars@, k as int),
                g.len() == w * k,
                forall|rr: int| 0 <= rr < k ==> (#[trigger] table@[rr])@ == table_spec(chars@, k as int, w as int, true)[rr],
                message@ == g.take(c * k),
        {
            for r in 0..k
                invariant
                    table@.len() == k,
                    k > 0,
                    c < w,
                    w == width_for(n as int, k as int),
                    n == chars@.len(),
                    g == scytale_read(chars@, k as int),
                    g.len() == w * k,
                    forall|rr: int| 0 <= rr < k ==> (#[trigger] table@[rr])@ == table_spec(chars@, k as int, w as int, true)[rr],
                    message@ == g.take(c * k + r),
            {
                assert(table@[r as int]@.len() == w);
                message.push(table[r][c]);
                proof {
                    Scytale::lemma_row_major(c as int, r as int, k as int, w as int);
                }
                assert(message@ =~= g.take(c * k + r + 1));
            }
            assert(c * k + k == (c + 1) * k) by (nonlinear_arith);
        }
        assert(g.take(w * k) =~= g);
        trim_trailing_nul(&mut message);
        string_from(&message)
    }

    /// Index `a * w + b` with `b < w` splits back into `a` and `b`, and stays
    /// below `h * w` when `a < h`.
    proof fn lemma_row_major(a: int, b: int, w: int, h: int)
        requires
            0 <= a < h,
            0 <= b < w,
        ensures
            (a * w + b) / w == a,
            (a * w + b) % w == b,
            a * w + b < h * w,
    {
        vstd::arithmetic::div_mod::lemma_fundamental_div_mod_converse(a * w + b, w, a, b);
        assert(a * w + b < h * w) by (nonlinear_arith)
            requires
                0 <= a < h,
                0 <= b < w,
        ;
    }

    /// The `height`-row table of the message, filled column by column, or row
    /// by row when `by_rows`; cells past the end hold NUL.
    fn generate_table(height: usize, message: &Vec<char>, by_rows: bool) -> (table: Vec<Vec<char>>)
        requires
            height > 0,
        ensures
            table@.len() == height,
            table@[0]@.len() == width_for(message@.len() as int, height as int),
            forall|r: int|
                0 <= r < height ==> (#[trigger] table@[r])@ == table_spec(
                    message@,
                    height as int,
                    width_for(message@.len() as int, height as int),
                    by_rows,
                )[r],
    {
        let n = message.len();
        let q = n / height;
        proof {
            lemma_width(n as int, height as int);
        }
        let width = if n % height != 0 {
            q + 1
        } else {
            q
        };
        let ghost spec_table = table_spec(message@, height as int, width as int, by_rows);
        let mut table: Vec<Vec<char>> = Vec::new();
        for r in 0..height
            invariant
                n == message@.len(),
                spec_table == table_spec(message@, height as int, width as int, by_rows),
                table@.len() == r,
                forall|rr: int| 0 <= rr < r ==> (#[trigger] table@[rr])@ == spec_table[rr],
        {
            let mut row: Vec<char> = Vec::new();
            for c in 0..width
                invariant
                    n == message@.len(),
                    r < height,
                    spec_table == table_spec(message@, height as int, width as int, by_rows),
                    row@.len() == c,
                    forall|cc: int| 0 <= cc < c ==> #[trigger] row@[cc] == spec_table[r as int][cc],
            {
                assert(r * width + c <= 0xffff_ffff_ffff_ffff_ffff_ffff_ffff_ffff) by (nonlinear_arith)
                    requires
                        r < height <= usize::MAX,
                        c < width <= usize::MAX,
                ;
                assert(c * height + r <= 0xffff_ffff_ffff_ffff_ffff_ffff_ffff_ffff) by (nonlinear_arith)
                    requires
                        c < width <= usize::MAX,
                        r < height <= usize::MAX,
                ;
                let p: u128 = if by_rows {
                    r as u128 * width as u128 + c as u128
                } else {
                    c as u128 * height as u128 + r as u128
                };
                let ch = if p < n as u128 {
                    message[p as usize]
                } else {
                    '\0'
                };
                row.push(ch);
            }
            assert(row@ =~= spec_table[r as int]);
            table.push(row);
        }
        table
    }
}

/// The column count computed without overflow is `width_for`, and it is the
/// least number of columns that holds `n` characters.
proof fn lemma_width(n: int, h: int)
    requires
        0 <= n,
        h > 0,
    ensures
        n % h != 0 ==> n / h + 1 == width_for(n, h),
        n % h == 0 ==> n / h == width_for(n, h),
        n % h != 0 ==> n / h < n,
        (width_for(n, h) - 1) * h < n || n == 0,
        n <= width_for(n, h) * h,
{
    let q = n / h;
    let m = n % h;
    vstd::arithmetic::div_mod::lemma_fundamental_div_mod(n, h);
    if m != 0 {
        assert(h * (q + 1) == h * q + h) by (nonlinear_arith);
        vstd::arithmetic::div_mod::lemma_fundamental_div_mod_converse(n + h - 1, h, q + 1, m - 1);
        assert(q < n) by (nonlinear_arith)
            requires
                n == h * q + m,
                0 < m < h,
                q >= 0,
        ;
        assert((q + 1 - 1) * h < n && n <= (q + 1) * h) by (nonlinear_arith)
            requires
                n == h * q + m,
                0 < m < h,
        ;
    } else {
        vstd::arithmetic::div_mod::lemma_fundamental_div_mod_converse(n + h - 1, h, q, h - 1);
        assert((q - 1) * h < n || n == 0) by (nonlinear_arith)
            requires
                n == h * q,
                h > 0,
                n >= 0,
        ;
        assert(n <= q * h) by (nonlinear_arith)
            requires
                n == h * q,
        ;
    }
}

/// Trimming keeps a prefix, drops only NULs, and stops at a non-NUL character.
proof fn lemma_trim(x: Seq<char>)
    ensures
        trim_nul(x).len() <= x.len(),
        trim_nul(x) == x.take(trim_nul(x).len() as int),
        forall|i: int| trim_nul(x).len() <= i < x.len() ==> #[trigger] x[i] == '\0',
        trim_nul(x).len() > 0 ==> trim_nul(x).last() != '\0',
    decreases x.len(),
{
    if x.len() > 0 && x.last() == '\0' {
        lemma_trim(x.drop_last());
        let t = trim_nul(x.drop_last());
        assert(x.drop_last().take(t.len() as int) =~= x.take(t.len() as int));
        assert forall|i: int| t.len() <= i < x.len() implies #[trigger] x[i] == '\0' by {
            if i < x.len() - 1 {
                assert(x.drop_last()[i] == x[i]);
            }
        }
    } else {
        assert(x.take(x.len() as int) =~= x);
    }
}

/// A NUL-free message padded with NULs trims back to itself.
proof fn lemma_trim_padded(y: Seq<char>, s: Seq<char>)
    requires
        s.len() > 0,
        s.len() <= y.len(),
        forall|i: int| 0 <= i < s.len() ==> #[trigger] s[i] != '\0' && y[i] == s[i],
        forall|i: int| s.len() <= i < y.len() ==> #[trigger] y[i] == '\0',
    ensures
        trim_nul(y) == s,
{
    lemma_trim(y);
    let t = trim_nul(y);
    let n = s.len() as int;
    assert(s[n - 1] != '\0');
    if t.len() < n {
        assert(y[n - 1] == '\0');
    }
    if t.len() > n {
        assert(t.last() == y.take(t.len() as int)[t.len() - 1]);
        assert(y[t.len() - 1] == '\0');
    }
    assert(t.len() == n);
    assert forall|i: int| 0 <= i < n implies t[i] == s[i] by {
        assert(s[i] != '\0');
        assert(t[i] == y.take(n)[i]);
    }
    assert(t =~= s);
}

/// Deciphering an enciphered NUL-free message with the same key gives it back.
pub proof fn lemma_scytale_round_trip(s: Seq<char>, k: int)
    requires
        k >= 1,
        forall|i: int| 0 <= i < s.len() ==> #[trigger] s[i] != '\0',
    ensures
        scytale_decode(scytale_encode(s, k), k) == s,
{
    let n = s.len() as int;
    if k >= n {
        return;
    }
    let w = width_for(n, k);
    let g = scytale_grid(s, k);
    lemma_width(n, k);
    assert((w - 1) * k < n <= w * k);
    if k == 1 {
        assert(w == n);
        assert(w == n);
        assert(k * w == n);
        assert forall|i: int| 0 <= i < n implies #[trigger] g[i] == s[i] by {
            assert(0 * w == 0);
            vstd::arithmetic::div_mod::lemma_fundamental_div_mod_converse(i, w, 0, i);
            assert(i * k + 0 == i);
        }
        assert(g =~= s);
        lemma_trim(g);
        if trim_nul(g).len() < n {
            assert(g[n - 1] == '\0');
        }
        assert(trim_nul(g) =~= s);
        return;
    }
    assert(w >= 2) by (nonlinear_arith)
        requires
            n <= w * k,
            n > k,
            k >= 2,
    ;
    lemma_trim(g);
    let t = trim_nul(g);
    let len = t.len() as int;
    let kw = k * w;
    assert(g.len() == kw);
    // the last real character of the table
    let last = kw - 2;
    assert(last == (k - 1) * w + (w - 2)) by (nonlinear_arith)
        requires
            last == k * w - 2,
    ;
    Scytale::lemma_row_major(k - 1, w - 2, w, k);
    assert((w - 2) * k + (k - 1) == (w - 1) * k - 1) by (nonlinear_arith);
    assert(g[last] == s[(w - 1) * k - 1]);
    if len <= last {
        assert(g[last] == '\0');
    }
    assert(len >= kw - 1);
    assert(k * (w - 1) < len <= k * w) by (nonlinear_arith)
        requires
            len >= k * w - 1,
            len <= k * w,
            k >= 2,
    ;
    assert(width_for(len, k) == w) by {
        vstd::arithmetic::div_mod::lemma_fundamental_div_mod_converse(
            len + k - 1,
            k,
            w,
            len + k - 1 - k * w,
        );
        assert(k * w == w * k) by (nonlinear_arith);
    }
    assert(k < len) by (nonlinear_arith)
        requires
            len >= k * w - 1,
            w >= 2,
            k >= 2,
    ;
    let y = scytale_read(t, k);
    assert(y.len() == kw) by {
        assert(k * w == w * k) by (nonlinear_arith);
    }
    assert forall|j: int| 0 <= j < kw implies #[trigger] y[j] == (if j < n {
        s[j]
    } else {
        '\0'
    }) by {
        let c = j / k;
        let r = j % k;
        vstd::arithmetic::div_mod::lemma_fundamental_div_mod(j, k);
        assert(0 <= r < k);
        assert(0 <= c < w) by (nonlinear_arith)
            requires
                j == k * c + r,
                0 <= j < k * w,
                0 <= r < k,
                k >= 1,
        ;
        Scytale::lemma_row_major(r, c, w, k);
        let p = r * w + c;
        assert(g[p] == cell(s, k, w, r, c, false));
        assert(c * k + r == j) by (nonlinear_arith)
            requires
                j == k * c + r,
        ;
        if p < len {
            assert(t[p] == g[p]);
        } else {
            assert(g[p] == '\0');
        }
    }
    lemma_trim_padded(y, s);
}

} // verus!
