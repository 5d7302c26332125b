//! Gadget matrix and gadget inverse (base-`z` digit decomposition).
use crate::arith::mul_mod;
use crate::cyclo::{conv_sum, cyclo_add, cyclo_mul, cyclo_scalar, cyclo_scale, row_sum, Z_N_CycloRaw};
use crate::matrix::{dot_sum, lemma_index_bound, mat_mul_spec, Matrix};
use crate::ntt::reduced;
use vstd::arithmetic::div_mod::*;
use vstd::arithmetic::mul::*;
use vstd::arithmetic::power::*;
use vstd::prelude::*;

verus! {

/// Digit `t` of `x` in base `b`.
pub open spec fn digit(x: int, b: int, t: nat) -> int {
    (x / pow(b, t)) % b
}

/// Balanced gadget digit `t` of every coefficient of `p`, lifted into `[0, q)`.
pub open spec fn digit_poly(p: Seq<u64>, b: int, q: int, len: nat, t: nat) -> Seq<u64> {
    Seq::new(p.len(), |l: int| gadget_digit(p[l] as int, b, q, len, t) as u64)
}

/// `c ∈ Z_q` has a signed representative in `[-z/2, z/2)`.
pub open spec fn balanced_coeff(c: int, z: int, q: int) -> bool {
    2 * c < z || 2 * (q - c) <= z
}

/// `sum_{t < n} digit(x, b, t) b^t`.
pub open spec fn digit_sum(x: int, b: int, n: nat) -> int
    decreases n,
{
    if n == 0 {
        0
    } else {
        digit_sum(x, b, (n - 1) as nat) + digit(x, b, (n - 1) as nat) * pow(b, (n - 1) as nat)
    }
}

/// Entry `(i, j)` of the gadget matrix: `z^(j mod len)` in the columns
/// `[i len, (i + 1) len)` of row `i`, zero elsewhere.
pub open spec fn gadget_entry(i: int, j: int, base: int, len: int, q: int, d: nat) -> Seq<u64> {
    cyclo_scalar(if j / len == i { (pow(base, (j % len) as nat) % q) as u64 } else { 0 }, d)
}

/// The flattened `n x (n len)` gadget matrix.
pub open spec fn gadget_view(n: int, len: int, base: int, q: int, d: nat) -> Seq<Seq<u64>> {
    Seq::new((n * (n * len)) as nat, |t: int| gadget_entry(t / (n * len), t % (n * len), base, len, q, d))
}

/// The flattened `G^-1(x)` of a `rows x cols` matrix `x`: row `a` holds
/// digit `a mod len` of row `a / len` of `x`.
pub open spec fn ginv_view(x: Seq<Seq<u64>>, rows: int, cols: int, base: int, q: int, len: int) -> Seq<Seq<u64>> {
    Seq::new(
        (rows * len * cols) as nat,
        |k: int| digit_poly(x[((k / cols) / len) * cols + k % cols], base, q, len as nat, ((k / cols) % len) as nat),
    )
}

/// The first `n` base-`b` digits of `x` recompose `x mod b^n`.
pub proof fn lemma_digit_sum(x: int, b: int, n: nat)
    requires
        x >= 0,
        b >= 2,
    ensures
        digit_sum(x, b, n) == x % pow(b, n),
    decreases n,
{
    lemma_pow_positive(b, n);
    if n == 0 {
        lemma_pow0(b);
        assert(x % 1 == 0);
    } else {
        let m = (n - 1) as nat;
        lemma_digit_sum(x, b, m);
        lemma_pow_positive(b, m);
        lemma_pow_adds(b, m, 1);
        lemma_pow1(b);
        // x mod (b^m b) == b^m ((x / b^m) mod b) + x mod b^m
        lemma_breakdown(x, pow(b, m), b);
        lemma_mul_is_commutative(pow(b, m), digit(x, b, m));
    }
}

impl<const D: usize, const N: u64> Z_N_CycloRaw<D, N> {
    /// Balanced gadget digit `t` of every coefficient, as a ring element.
    pub fn digit_poly_of(&self, base: u64, len: usize, t: usize) -> (r: Self)
        requires
            self.wf(),
            2 <= base <= N,
            t < len,
            N <= pow(base as int, len as nat) <= u64::MAX,
        ensures
            r.wf(),
            r@ == digit_poly(self@, base as int, N as int, len as nat, t as nat),
    {
        let mut coeff: Vec<u64> = Vec::new();
        let mut l: usize = 0;
        while l < D
            invariant
                self.wf(),
                2 <= base <= N,
                t < len,
                N <= pow(base as int, len as nat) <= u64::MAX,
                l <= D,
                coeff@.len() == l,
                reduced(coeff@, N as int),
                forall|k: int| 0 <= k < l ==> #[trigger] coeff@[k] == digit_poly(self@, base as int, N as int, len as nat, t as nat)[k],
            decreases D - l,
        {
            coeff.push(gadget_digit_of(self.coeff[l], base, N, len, t));
            l = l + 1;
        }
        let r = Z_N_CycloRaw { coeff };
        proof {
            assert(r@ =~= digit_poly(self@, base as int, N as int, len as nat, t as nat));
        }
        r
    }
}

/// The `n x m` gadget matrix with base `g_base` and `g_len` digits per row,
/// where `m = n g_len`.
pub fn build_gadget<const D: usize, const Q: u64>(n: usize, m: usize, g_base: u64, g_len: usize) -> (r: Matrix<D, Q>)
    requires
        Q >= 2,
        D >= 1,
        g_len >= 1,
        m == n * g_len,
        n * m <= usize::MAX,
    ensures
        r.wf(),
        r.rows == n,
        r.cols == m,
        forall|i: int, j: int| 0 <= i < n && 0 <= j < m ==> #[trigger] r.entry(i, j) == gadget_entry(i, j, g_base as int,
            g_len as int, Q as int, D as nat),
        r@ == gadget_view(n as int, g_len as int, g_base as int, Q as int, D as nat),
{
    let mut data: Vec<Z_N_CycloRaw<D, Q>> = Vec::new();
    let mut i: usize = 0;
    while i < n
        invariant
            Q >= 2,
            D >= 1,
            g_len >= 1,
            m == n * g_len,
            n * m <= usize::MAX,
            i <= n,
            data@.len() == i * m,
            forall|k: int| 0 <= k < data@.len() ==> (#[trigger] data@[k]).wf() && data@[k]@ == gadget_entry(k / m as int,
                k % m as int, g_base as int, g_len as int, Q as int, D as nat),
        decreases n - i,
    {
        let mut j: usize = 0;
        let mut x: u64 = 1 % Q;
        proof {
            lemma_mul_inequality(i + 1, n as int, m as int);
            assert((i + 1) * m == i * m + m) by (nonlinear_arith);
            lemma_pow0(g_base as int);
            lemma_small_mod(1nat, Q as nat);
        }
        while j < m
            invariant
                Q >= 2,
                D >= 1,
                g_len >= 1,
                m == n * g_len,
                i < n,
                j <= m,
                (i + 1) * m <= usize::MAX,
                data@.len() == i * m + j,
                x < Q,
                x as int == pow(g_base as int, (j % g_len) as nat) % (Q as int),
                forall|k: int| 0 <= k < data@.len() ==> (#[trigger] data@[k]).wf() && data@[k]@ == gadget_entry(k / m as int,
                    k % m as int, g_base as int, g_len as int, Q as int, D as nat),
            decreases m - j,
        {
            let in_block = j / g_len == i;
            let e = if in_block {
                Z_N_CycloRaw::<D, Q>::from_u64(x)
            } else {
                Z_N_CycloRaw::<D, Q>::zero()
            };
            proof {
                let k = data@.len() as int;
                lemma_fundamental_div_mod_converse(k, m as int, i as int, j as int);
                lemma_small_mod(x as nat, Q as nat);
                assert(e@ == gadget_entry(i as int, j as int, g_base as int, g_len as int, Q as int, D as nat));
            }
            data.push(e);
            let old_j = j;
            j = j + 1;
            proof {
                // the exponent restarts at every block boundary
                lemma_fundamental_div_mod(old_j as int, g_len as int);
                lemma_mod_pos_bound(old_j as int, g_len as int);
                if old_j % g_len == g_len - 1 {
                    let qq = old_j / g_len;
                    assert(j == (qq + 1) * g_len) by (nonlinear_arith)
                        requires old_j == g_len * qq + (g_len - 1), j == old_j + 1;
                    lemma_fundamental_div_mod_converse(j as int, g_len as int, (old_j / g_len + 1) as int, 0);
                } else {
                    lemma_fundamental_div_mod_converse(j as int, g_len as int, (old_j / g_len) as int, (old_j % g_len + 1) as int);
                }
            }
            if j % g_len == 0 {
                x = 1 % Q;
                proof {
                    lemma_pow0(g_base as int);
                }
            } else {
                let old_x = x;
                x = mul_mod(x, g_base, Q);
                proof {
                    let p = pow(g_base as int, (old_j % g_len) as nat);
                    lemma_pow_adds(g_base as int, (old_j % g_len) as nat, 1);
                    lemma_pow1(g_base as int);
                    lemma_mul_mod_noop_general(p, g_base as int, Q as int);
                }
            }
        }
        i = i + 1;
    }
    let r = Matrix { rows: n, cols: m, data };
    proof {
        assert forall|i: int, j: int| 0 <= i < n && 0 <= j < m implies #[trigger] r.entry(i, j) == gadget_entry(i, j,
            g_base as int, g_len as int, Q as int, D as nat) by {
            lemma_index_bound(i, j, n as int, m as int);
            lemma_fundamental_div_mod_converse(i * m + j, m as int, i, j);
        };
        assert(r@ =~= gadget_view(n as int, g_len as int, g_base as int, Q as int, D as nat));
    }
    r
}

/// `G^-1(m)`: entry `(i, j)` of `m` becomes the column of its `g_len`
/// base-`g_base` digit polynomials, in rows `i g_len .. (i + 1) g_len`.
pub fn gadget_inverse<const D: usize, const Q: u64>(m: &Matrix<D, Q>, g_base: u64, g_len: usize) -> (r: Matrix<D, Q>)
    requires
        m.wf(),
        2 <= g_base <= Q,
        g_len >= 1,
        Q <= pow(g_base as int, g_len as nat) <= u64::MAX,
        m.rows * g_len <= usize::MAX,
        m.rows * g_len * m.cols <= usize::MAX,
    ensures
        r.wf(),
        r.rows == m.rows * g_len,
        r.cols == m.cols,
        forall|a: int, j: int| 0 <= a < r.rows && 0 <= j < r.cols ==> #[trigger] r.entry(a, j) == digit_poly(
            m.entry(a / g_len as int, j), g_base as int, Q as int, g_len as nat, (a % g_len as int) as nat),
        r@ == ginv_view(m@, m.rows as int, m.cols as int, g_base as int, Q as int, g_len as int),
        forall|a: int, j: int, l: int|
            0 <= a < r.rows && 0 <= j < r.cols && 0 <= l < D ==> balanced_coeff(#[trigger] r.entry(a, j)[l] as int,
                g_base as int, Q as int),
{
    let rows = m.rows * g_len;
    let cols = m.cols;
    let mut data: Vec<Z_N_CycloRaw<D, Q>> = Vec::new();
    let mut a: usize = 0;
    while a < rows
        invariant
            m.wf(),
            2 <= g_base <= Q,
            g_len >= 1,
            Q <= pow(g_base as int, g_len as nat) <= u64::MAX,
            rows == m.rows * g_len,
            cols == m.cols,
            rows * cols <= usize::MAX,
            a <= rows,
            data@.len() == a * cols,
            forall|k: int| 0 <= k < data@.len() ==> (#[trigger] data@[k]).wf() && data@[k]@ == digit_poly(
                m.entry((k / cols as int) / g_len as int, k % cols as int), g_base as int, Q as int, g_len as nat,
                ((k / cols as int) % g_len as int) as nat),
        decreases rows - a,
    {
        let i = a / g_len;
        let t = a % g_len;
        proof {
            lemma_mul_inequality(a + 1, rows as int, cols as int);
            assert((a + 1) * cols == a * cols + cols) by (nonlinear_arith);
            lemma_fundamental_div_mod(a as int, g_len as int);
            lemma_div_is_ordered(a as int, rows as int, g_len as int);
            lemma_div_multiples_vanish(m.rows as int, g_len as int);
            lemma_mul_is_commutative(m.rows as int, g_len as int);
            if i >= m.rows {
                lemma_mul_inequality(m.rows as int, i as int, g_len as int);
            }
        }
        let mut j: usize = 0;
        while j < cols
            invariant
                m.wf(),
                2 <= g_base <= Q,
                g_len >= 1,
                Q <= pow(g_base as int, g_len as nat) <= u64::MAX,
                rows == m.rows * g_len,
                cols == m.cols,
                a < rows,
                i < m.rows,
                i == a / g_len,
                t == a % g_len,
                j <= cols,
                (a + 1) * cols <= usize::MAX,
                data@.len() == a * cols + j,
                forall|k: int| 0 <= k < data@.len() ==> (#[trigger] data@[k]).wf() && data@[k]@ == digit_poly(
                    m.entry((k / cols as int) / g_len as int, k % cols as int), g_base as int, Q as int, g_len as nat,
                    ((k / cols as int) % g_len as int) as nat),
            decreases cols - j,
        {
            let e = m.get(i, j).digit_poly_of(g_base, g_len, t);
            proof {
                lemma_fundamental_div_mod_converse(data@.len() as int, cols as int, a as int, j as int);
            }
            data.push(e);
            j = j + 1;
        }
        a = a + 1;
    }
    let r = Matrix { rows, cols, data };
    proof {
        assert forall|a: int, j: int| 0 <= a < r.rows && 0 <= j < r.cols implies #[trigger] r.entry(a, j) == digit_poly(
            m.entry(a / g_len as int, j), g_base as int, Q as int, g_len as nat, (a % g_len as int) as nat) by {
            lemma_index_bound(a, j, rows as int, cols as int);
            lemma_fundamental_div_mod_converse(a * cols + j, cols as int, a, j);
        };
        assert forall|k: int| 0 <= k < r@.len() implies #[trigger] r@[k] == ginv_view(m@, m.rows as int, m.cols as int,
            g_base as int, Q as int, g_len as int)[k] by {
            let a = k / cols as int;
            let j = k % cols as int;
            lemma_fundamental_div_mod(k, cols as int);
            lemma_mod_pos_bound(k, cols as int);
            lemma_div_pos_is_pos(k, cols as int);
            if a >= rows {
                lemma_mul_inequality(rows as int, a, cols as int);
                lemma_mul_is_commutative(a, cols as int);
            }
            let i = a / g_len as int;
            lemma_div_pos_is_pos(a, g_len as int);
            lemma_div_is_ordered(a, rows as int, g_len as int);
            lemma_div_multiples_vanish(m.rows as int, g_len as int);
            lemma_mul_is_commutative(m.rows as int, g_len as int);
            if i >= m.rows {
                lemma_fundamental_div_mod(a, g_len as int);
                lemma_mul_inequality(m.rows as int, i, g_len as int);
            }
            lemma_index_bound(i, j, m.rows as int, cols as int);
        };
        assert(r@ =~= ginv_view(m@, m.rows as int, m.cols as int, g_base as int, Q as int, g_len as int));
        assert forall|a: int, j: int, l: int|
            0 <= a < r.rows && 0 <= j < r.cols && 0 <= l < D implies balanced_coeff(#[trigger] r.entry(a, j)[l] as int,
                g_base as int, Q as int) by {
            let i = a / g_len as int;
            lemma_div_pos_is_pos(a, g_len as int);
            lemma_div_is_ordered(a, rows as int, g_len as int);
            lemma_div_multiples_vanish(m.rows as int, g_len as int);
            lemma_mul_is_commutative(m.rows as int, g_len as int);
            if i >= m.rows {
                lemma_fundamental_div_mod(a, g_len as int);
                lemma_mod_pos_bound(a, g_len as int);
                lemma_mul_inequality(m.rows as int, i, g_len as int);
            }
            lemma_index_bound(i, j, m.rows as int, cols as int);
            let x = m.entry(i, j)[l] as int;
            lemma_gadget_digit_small(x, g_base as int, Q as int, g_len as nat, (a % g_len as int) as nat);
        };
    }
    r
}


proof fn lemma_row_sum_zero_row(a: Seq<u64>, b: Seq<u64>, d: int, k: int, i: int, n: nat)
    requires
        a[i] == 0,
    ensures
        row_sum(a, b, d, k, i, n) == 0,
    decreases n,
{
    if n > 0 {
        lemma_row_sum_zero_row(a, b, d, k, i, (n - 1) as nat);
        assert(a[i] * b[n - 1] == 0);
    }
}

proof fn lemma_row_sum_first_row(a: Seq<u64>, b: Seq<u64>, d: int, k: int, n: nat)
    requires
        0 <= k < d,
        n <= d,
    ensures
        row_sum(a, b, d, k, 0, n) == if n > k { a[0] * b[k] } else { 0 },
    decreases n,
{
    if n > 0 {
        lemma_row_sum_first_row(a, b, d, k, (n - 1) as nat);
    }
}

proof fn lemma_conv_sum_scalar(s: u64, b: Seq<u64>, d: int, k: int, m: nat)
    requires
        0 <= k < d,
        m <= d,
    ensures
        conv_sum(cyclo_scalar(s, d as nat), b, d, k, m) == if m >= 1 { s * b[k] } else { 0 },
    decreases m,
{
    let a = cyclo_scalar(s, d as nat);
    if m > 0 {
        lemma_conv_sum_scalar(s, b, d, k, (m - 1) as nat);
        if m - 1 == 0 {
            lemma_row_sum_first_row(a, b, d, k, d as nat);
        } else {
            lemma_row_sum_zero_row(a, b, d, k, m - 1, d as nat);
        }
    }
}

/// Multiplying by a constant polynomial scales every coefficient.
pub proof fn lemma_mul_by_scalar(s: u64, p: Seq<u64>, d: int, q: int)
    requires
        d >= 1,
        p.len() == d,
    ensures
        cyclo_mul(cyclo_scalar(s, d as nat), p, d, q) == cyclo_scale(p, s as int, q),
{
    assert forall|k: int| 0 <= k < d implies #[trigger] cyclo_mul(cyclo_scalar(s, d as nat), p, d, q)[k] == cyclo_scale(p, s as int, q)[k] by {
        lemma_conv_sum_scalar(s, p, d, k, d as nat);
    };
    assert(cyclo_mul(cyclo_scalar(s, d as nat), p, d, q) =~= cyclo_scale(p, s as int, q));
}

/// `sum_{t < m} (z^t mod q) g_t` over the lifted balanced digits `g_t` of `x`.
pub open spec fn gadget_digit_sum(x: int, z: int, q: int, len: nat, m: nat) -> int
    decreases m,
{
    if m == 0 {
        0
    } else {
        gadget_digit_sum(x, z, q, len, (m - 1) as nat) + (pow(z, (m - 1) as nat) % q) * gadget_digit(x, z, q, len, (m - 1) as nat)
    }
}

proof fn lemma_gadget_digit_sum_mod(x: int, z: int, q: int, len: nat, m: nat)
    requires
        q >= 1,
    ensures
        gadget_digit_sum(x, z, q, len, m) % q == bal_value(bal_source(x, z, q, len), z, m) % q,
    decreases m,
{
    if m > 0 {
        let t = (m - 1) as nat;
        lemma_gadget_digit_sum_mod(x, z, q, len, t);
        let y = bal_source(x, z, q, len);
        let a = gadget_digit_sum(x, z, q, len, t);
        let b = bal_value(y, z, t);
        let dd = bal_digit_at(y, z, t);
        let dg = dd % q;
        let p = pow(z, t);
        lemma_add_mod_noop(a, (p % q) * dg, q);
        lemma_add_mod_noop(b, dd * p, q);
        lemma_mul_mod_noop_general(p, dd, q);
        lemma_mul_is_commutative(p, dd);
    }
}

/// The column sum behind entry `(i, j)`, coefficient `l`, of `G G^-1(x)`:
/// `sum_{c < m} g_(i,c) digit(x_(c / len, j)[l], c mod len)`.
pub open spec fn column_sum(
    x: Seq<Seq<u64>>,
    k: int,
    i: int,
    j: int,
    l: int,
    z: int,
    len: int,
    q: int,
    m: nat,
) -> int
    decreases m,
{
    if m == 0 {
        0
    } else {
        let c = m - 1;
        column_sum(x, k, i, j, l, z, len, q, (m - 1) as nat) + (if c / len == i {
            pow(z, (c % len) as nat) % q
        } else {
            0
        }) * gadget_digit(x[(c / len) * k + j][l] as int, z, q, len as nat, (c % len) as nat)
    }
}

proof fn lemma_column_sum(x: Seq<Seq<u64>>, k: int, i: int, j: int, l: int, z: int, len: int, q: int, m: nat)
    requires
        len >= 1,
        i >= 0,
    ensures
        column_sum(x, k, i, j, l, z, len, q, m) == if m <= i * len {
            0
        } else if m <= (i + 1) * len {
            gadget_digit_sum(x[i * k + j][l] as int, z, q, len as nat, (m - i * len) as nat)
        } else {
            gadget_digit_sum(x[i * k + j][l] as int, z, q, len as nat, len as nat)
        },
    decreases m,
{
    if m > 0 {
        let c = m - 1;
        lemma_column_sum(x, k, i, j, l, z, len, q, (m - 1) as nat);
        lemma_fundamental_div_mod(c, len);
        lemma_mod_pos_bound(c, len);
        assert((i + 1) * len == i * len + len) by (nonlinear_arith);
        let xv = x[i * k + j][l] as int;
        if i * len <= c < (i + 1) * len {
            lemma_fundamental_div_mod_converse(c, len, i, c - i * len);
            let t = (c - i * len) as nat;
            assert(gadget_digit_sum(xv, z, q, len as nat, (t + 1) as nat) == gadget_digit_sum(xv, z, q, len as nat, t) + (pow(z, t) % q) * gadget_digit(xv, z, q, len as nat, t));
            assert((m - i * len) as nat == t + 1);
            if c == i * len {
                assert(gadget_digit_sum(xv, z, q, len as nat, 0) == 0);
            }
        } else {
            if c / len == i {
                assert(i * len <= c < (i + 1) * len) by (nonlinear_arith)
                    requires c == len * (c / len) + c % len, 0 <= c % len < len, c / len == i;
            }
            let dg = gadget_digit(x[(c / len) * k + j][l] as int, z, q, len as nat, (c % len) as nat);
            assert(0 * dg == 0);
        }
    }
}

/// The gadget identity: `G G^-1(x) = x` for every `n x k` matrix `x` of
/// ring elements, when `z^len >= q`.
pub proof fn lemma_gadget_identity(x: Seq<Seq<u64>>, n: int, k: int, z: int, len: int, q: int, d: int)
    requires
        n >= 0,
        k >= 1,
        len >= 1,
        2 <= z <= q,
        2 <= q <= u64::MAX,
        d >= 1,
        pow(z, len as nat) >= q,
        x.len() == n * k,
        forall|t: int| 0 <= t < x.len() ==> (#[trigger] x[t]).len() == d && reduced(x[t], q),
    ensures
        mat_mul_spec(gadget_view(n, len, z, q, d as nat), ginv_view(x, n, k, z, q, len), n, n * len, k, d, q) == x,
{
    let g = gadget_view(n, len, z, q, d as nat);
    let gi = ginv_view(x, n, k, z, q, len);
    let r = mat_mul_spec(g, gi, n, n * len, k, d, q);
    lemma_mul_nonnegative(n, len);
    assert forall|t: int| 0 <= t < x.len() implies #[trigger] r[t] == x[t] by {
        let i = t / k;
        let j = t % k;
        lemma_fundamental_div_mod(t, k);
        lemma_mod_pos_bound(t, k);
        lemma_div_pos_is_pos(t, k);
        if i >= n {
            lemma_mul_inequality(n, i, k);
            lemma_mul_is_commutative(i, k);
        }
        assert(i * k + j == t) by {
            lemma_mul_is_commutative(i, k);
        };
        lemma_gadget_entry_sum(x, n, k, z, len, q, d, i, j, (n * len) as nat);
        let e = dot_sum(g, n * len, gi, k, i, j, (n * len) as nat, d, q);
        assert forall|l: int| 0 <= l < d implies #[trigger] e[l] == x[t][l] by {
            let m = (n * len) as nat;
            lemma_column_sum(x, k, i, j, l, z, len, q, m);
            assert(n * len >= (i + 1) * len) by (nonlinear_arith)
                requires i + 1 <= n, len >= 1;
            assert(n * len - i * len == (n - i) * len) by (nonlinear_arith);
            assert((i + 1) * len == i * len + len) by (nonlinear_arith);
            let xv = x[t][l] as int;
            assert(column_sum(x, k, i, j, l, z, len, q, m) == gadget_digit_sum(xv, z, q, len as nat, len as nat));
            assert(e[l] == column_sum(x, k, i, j, l, z, len, q, m) % q);
            lemma_gadget_digit_sum_mod(xv, z, q, len as nat, len as nat);
            assert(xv < q);
            lemma_balanced_digits(xv, z, q, len as nat);
        };
        assert(e =~= x[t]);
    };
    assert(r =~= x);
}

/// Entry `(i, j)` of `G G^-1(x)` after `m` terms: coefficient `l` is the
/// column sum modulo `q`.
proof fn lemma_gadget_entry_sum(x: Seq<Seq<u64>>, n: int, k: int, z: int, len: int, q: int, d: int, i: int, j: int, m: nat)
    requires
        n >= 0,
        k >= 1,
        len >= 1,
        2 <= z <= q,
        2 <= q <= u64::MAX,
        pow(z, len as nat) >= q,
        d >= 1,
        0 <= i < n,
        0 <= j < k,
        m <= n * len,
        x.len() == n * k,
        forall|t: int| 0 <= t < x.len() ==> (#[trigger] x[t]).len() == d && reduced(x[t], q),
    ensures
        dot_sum(gadget_view(n, len, z, q, d as nat), n * len, ginv_view(x, n, k, z, q, len), k, i, j, m, d, q).len() == d,
        forall|l: int| 0 <= l < d ==> #[trigger] dot_sum(gadget_view(n, len, z, q, d as nat), n * len, ginv_view(x, n, k, z, q, len), k, i, j, m, d, q)[l]
            == column_sum(x, k, i, j, l, z, len, q, m) % q,
    decreases m,
{
    let g = gadget_view(n, len, z, q, d as nat);
    let gi = ginv_view(x, n, k, z, q, len);
    if m == 0 {
        assert forall|l: int| 0 <= l < d implies #[trigger] dot_sum(g, n * len, gi, k, i, j, m, d, q)[l] == column_sum(x, k, i, j, l, z, len, q, m) % q by {
            lemma_small_mod(0, q as nat);
        };
    } else {
        let c = m - 1;
        lemma_gadget_entry_sum(x, n, k, z, len, q, d, i, j, (m - 1) as nat);
        let prev = dot_sum(g, n * len, gi, k, i, j, (m - 1) as nat, d, q);
        // the gadget entry (i, c)
        let w = n * len;
        lemma_index_bound(i, c, n, w);
        lemma_fundamental_div_mod_converse(i * w + c, w, i, c);
        let gv: u64 = if c / len == i { (pow(z, (c % len) as nat) % q) as u64 } else { 0 };
        assert(g[i * w + c] == cyclo_scalar(gv, d as nat));
        // the G^-1 entry (c, j)
        lemma_index_bound(c, j, w, k);
        lemma_fundamental_div_mod_converse(c * k + j, k, c, j);
        let src = (c / len) * k + j;
        lemma_div_pos_is_pos(c, len);
        lemma_div_is_ordered(c, w, len);
        lemma_div_multiples_vanish(n, len);
        lemma_mul_is_commutative(n, len);
        if c / len >= n {
            lemma_fundamental_div_mod(c, len);
            lemma_mod_pos_bound(c, len);
            lemma_mul_inequality(n, c / len, len);
            lemma_mul_is_commutative(n, len);
        }
        lemma_index_bound(c / len, j, n, k);
        let digits = digit_poly(x[src], z, q, len as nat, (c % len) as nat);
        assert(gi[c * k + j] == digits);
        lemma_mul_by_scalar(gv, digits, d, q);
        if c / len == i {
            lemma_pow_positive(z, (c % len) as nat);
            lemma_mod_pos_bound(pow(z, (c % len) as nat), q);
        }
        assert forall|l: int| 0 <= l < d implies #[trigger] dot_sum(g, n * len, gi, k, i, j, m, d, q)[l] == column_sum(x, k, i, j, l, z, len, q, m) % q by {
            let cs = column_sum(x, k, i, j, l, z, len, q, (m - 1) as nat);
            let term = gv as int * digits[l] as int;
            assert(x[src].len() == d);
            assert(digits[l] as int == gadget_digit(x[src][l] as int, z, q, len as nat, (c % len) as nat)) by {
                assert(reduced(x[src], q));
                lemma_gadget_digit_small(x[src][l] as int, z, q, len as nat, (c % len) as nat);
            };
            assert(prev.len() == d);
            assert(dot_sum(g, n * len, gi, k, i, j, m, d, q) == cyclo_add(prev, cyclo_mul(g[i * w + c], gi[c * k + j], d, q), q));
            lemma_add_mod_noop(cs, term, q);
            lemma_mod_twice(cs, q);
            lemma_mod_twice(term, q);
            lemma_column_sum_nonneg(x, k, i, j, l, z, len, q, (m - 1) as nat);
            lemma_mod_pos_bound(cs, q);
            lemma_mul_nonnegative(gv as int, digits[l] as int);
            lemma_mod_pos_bound(term, q);
        };
    }
}

proof fn lemma_column_sum_nonneg(x: Seq<Seq<u64>>, k: int, i: int, j: int, l: int, z: int, len: int, q: int, m: nat)
    requires
        len >= 1,
        z >= 2,
        q >= 2,
    ensures
        column_sum(x, k, i, j, l, z, len, q, m) >= 0,
    decreases m,
{
    if m > 0 {
        let c = m - 1;
        lemma_column_sum_nonneg(x, k, i, j, l, z, len, q, (m - 1) as nat);
        lemma_mod_bound(bal_digit_at(bal_source(x[(c / len) * k + j][l] as int, z, q, len as nat), z, (c % len) as nat), q);
        lemma_mod_bound(pow(z, (c % len) as nat), q);
        let gv = if c / len == i { pow(z, (c % len) as nat) % q } else { 0 };
        lemma_mul_nonnegative(gv, gadget_digit(x[(c / len) * k + j][l] as int, z, q, len as nat, (c % len) as nat));
    }
}


} // verus!

verus! {

/// The balanced base-`z` digit of `y`: `y mod z`, moved into `[-z/2, z/2)`.
pub open spec fn bal_digit(y: int, z: int) -> int {
    if 2 * (y % z) >= z {
        y % z - z
    } else {
        y % z
    }
}

/// `y` with its lowest balanced digit taken off.
pub open spec fn bal_next(y: int, z: int) -> int {
    (y - bal_digit(y, z)) / z
}

/// Balanced digit `t` of `y`.
pub open spec fn bal_digit_at(y: int, z: int, t: nat) -> int
    decreases t,
{
    if t == 0 {
        bal_digit(y, z)
    } else {
        bal_digit_at(bal_next(y, z), z, (t - 1) as nat)
    }
}

/// What is left of `y` after its `k` lowest balanced digits.
pub open spec fn bal_after(y: int, z: int, k: nat) -> int
    decreases k,
{
    if k == 0 {
        y
    } else {
        bal_after(bal_next(y, z), z, (k - 1) as nat)
    }
}

/// `sum_{t < k} bal_digit_at(y, t) z^t`.
pub open spec fn bal_value(y: int, z: int, k: nat) -> int
    decreases k,
{
    if k == 0 {
        0
    } else {
        bal_value(y, z, (k - 1) as nat) + bal_digit_at(y, z, (k - 1) as nat) * pow(z, (k - 1) as nat)
    }
}

/// The largest value with `k` balanced digits.
pub open spec fn bal_hi(z: int, k: nat) -> int
    decreases k,
{
    if k == 0 {
        0
    } else {
        z * bal_hi(z, (k - 1) as nat) + (z + 1) / 2 - 1
    }
}

/// The smallest value with `k` balanced digits.
pub open spec fn bal_lo(z: int, k: nat) -> int
    decreases k,
{
    if k == 0 {
        0
    } else {
        z * bal_lo(z, (k - 1) as nat) - z / 2
    }
}

/// The representative of `x ∈ Z_q` that is decomposed: `x` itself when it
/// has `len` balanced digits, `x - q` otherwise.
pub open spec fn bal_source(x: int, z: int, q: int, len: nat) -> int {
    if x <= bal_hi(z, len) {
        x
    } else {
        x - q
    }
}

/// Balanced gadget digit `t` of `x ∈ Z_q`, as an element of `[0, q)`.
pub open spec fn gadget_digit(x: int, z: int, q: int, len: nat, t: nat) -> int {
    bal_digit_at(bal_source(x, z, q, len), z, t) % q
}

proof fn lemma_bal_digit(y: int, z: int)
    requires
        z >= 2,
    ensures
        -z <= 2 * bal_digit(y, z) < z,
        y == bal_digit(y, z) + z * bal_next(y, z),
{
    lemma_mod_bound(y, z);
    lemma_fundamental_div_mod(y, z);
    let r = y % z;
    let d = bal_digit(y, z);
    if 2 * r >= z {
        assert(y - d == z * (y / z + 1)) by (nonlinear_arith)
            requires y == z * (y / z) + r, d == r - z;
        lemma_div_multiples_vanish(y / z + 1, z);
    } else {
        assert(y - d == z * (y / z)) by (nonlinear_arith)
            requires y == z * (y / z) + r, d == r;
        lemma_div_multiples_vanish(y / z, z);
    }
}

proof fn lemma_bal_split(y: int, z: int, k: nat)
    requires
        z >= 2,
    ensures
        y == bal_front(y, z, k) + pow(z, k) * bal_after(y, z, k),
    decreases k,
{
    lemma_pow0(z);
    if k > 0 {
        lemma_bal_digit(y, z);
        let nx = bal_next(y, z);
        lemma_bal_split(nx, z, (k - 1) as nat);
        lemma_pow_adds(z, 1, (k - 1) as nat);
        lemma_pow1(z);
        let a = bal_after(nx, z, (k - 1) as nat);
        let f = bal_front(nx, z, (k - 1) as nat);
        let p = pow(z, (k - 1) as nat);
        assert(z * (f + p * a) == z * f + (z * p) * a) by (nonlinear_arith);
    }
}

/// `sum_{t < k} bal_digit_at(y, t) z^t`, peeling the lowest digit first.
pub open spec fn bal_front(y: int, z: int, k: nat) -> int
    decreases k,
{
    if k == 0 {
        0
    } else {
        bal_digit(y, z) + z * bal_front(bal_next(y, z), z, (k - 1) as nat)
    }
}

proof fn lemma_bal_front_back(y: int, z: int, k: nat)
    ensures
        bal_front(y, z, k) == bal_value(y, z, k),
    decreases k,
{
    if k > 0 {
        lemma_bal_front_step(y, z, (k - 1) as nat);
        lemma_bal_front_back(y, z, (k - 1) as nat);
    }
}

proof fn lemma_bal_front_step(y: int, z: int, k: nat)
    ensures
        bal_front(y, z, k + 1) == bal_front(y, z, k) + bal_digit_at(y, z, k) * pow(z, k),
    decreases k,
{
    lemma_pow0(z);
    lemma_mul_basics(z);
    lemma_mul_basics(bal_digit(y, z));
    if k > 0 {
        let nx = bal_next(y, z);
        lemma_bal_front_step(nx, z, (k - 1) as nat);
        lemma_pow_adds(z, 1, (k - 1) as nat);
        lemma_pow1(z);
        let f = bal_front(nx, z, (k - 1) as nat);
        let dd = bal_digit_at(nx, z, (k - 1) as nat);
        let p = pow(z, (k - 1) as nat);
        assert(pow(z, k) == z * p);
        assert(bal_digit_at(y, z, k) == dd);
        assert(bal_front(y, z, k + 1) == bal_digit(y, z) + z * bal_front(nx, z, k));
        assert(bal_front(y, z, k) == bal_digit(y, z) + z * f);
        assert(bal_front(nx, z, k) == f + dd * p);
        assert(z * (f + dd * p) == z * f + dd * (z * p)) by (nonlinear_arith);
        assert(bal_front(y, z, k + 1) == bal_front(y, z, k) + dd * pow(z, k));
    } else {
        assert(bal_front(y, z, 1) == bal_digit(y, z) + z * bal_front(bal_next(y, z), z, 0));
        assert(bal_digit_at(y, z, 0) == bal_digit(y, z));
    }
}

proof fn lemma_bal_bounds(z: int, k: nat)
    requires
        z >= 2,
    ensures
        bal_lo(z, k) <= 0 <= bal_hi(z, k),
        bal_hi(z, k) - bal_lo(z, k) == pow(z, k) - 1,
    decreases k,
{
    lemma_pow0(z);
    if k > 0 {
        lemma_bal_bounds(z, (k - 1) as nat);
        lemma_pow_adds(z, 1, (k - 1) as nat);
        lemma_pow1(z);
        let h = bal_hi(z, (k - 1) as nat);
        let l = bal_lo(z, (k - 1) as nat);
        let p = pow(z, (k - 1) as nat);
        lemma_fundamental_div_mod(z, 2);
        lemma_mod_bound(z, 2);
        assert((z + 1) / 2 + z / 2 == z) by {
            lemma_fundamental_div_mod(z + 1, 2);
            lemma_mod_bound(z + 1, 2);
        };
        let hz = (z + 1) / 2;
        let lz = z / 2;
        assert(z * h + hz - 1 - (z * l - lz) == z * (h - l) + z - 1) by (nonlinear_arith)
            requires hz + lz == z;
        assert(z * (h - l) + z - 1 == z * p - 1) by (nonlinear_arith)
            requires h - l == p - 1;
        assert(z * h >= 0 && z * l <= 0) by (nonlinear_arith)
            requires z >= 2, h >= 0, l <= 0;
    }
}

/// A value inside the `k`-digit range has no digits left after `k` of them.
proof fn lemma_bal_fits(y: int, z: int, k: nat)
    requires
        z >= 2,
        bal_lo(z, k) <= y <= bal_hi(z, k),
    ensures
        bal_after(y, z, k) == 0,
    decreases k,
{
    if k > 0 {
        lemma_bal_digit(y, z);
        let nx = bal_next(y, z);
        let d = bal_digit(y, z);
        let h = bal_hi(z, (k - 1) as nat);
        let l = bal_lo(z, (k - 1) as nat);
        lemma_fundamental_div_mod(z, 2);
        lemma_mod_bound(z, 2);
        lemma_fundamental_div_mod(z + 1, 2);
        lemma_mod_bound(z + 1, 2);
        assert(l <= nx <= h) by (nonlinear_arith)
            requires
                y == d + z * nx,
                -z <= 2 * d < z,
                z * l - z / 2 <= y <= z * h + (z + 1) / 2 - 1,
                z == 2 * (z / 2) + z % 2,
                0 <= z % 2 < 2,
                z + 1 == 2 * ((z + 1) / 2) + (z + 1) % 2,
                0 <= (z + 1) % 2 < 2,
                z >= 2;
        lemma_bal_fits(nx, z, (k - 1) as nat);
    }
}

/// The balanced digits of `x ∈ Z_q` recompose `x` modulo `q` when
/// `z^len >= q`: `sum_t z^t d_t ≡ x`, with every digit in `[-z/2, z/2)`.
pub proof fn lemma_balanced_digits(x: int, z: int, q: int, len: nat)
    requires
        z >= 2,
        q >= 1,
        0 <= x < q,
        pow(z, len) >= q,
    ensures
        bal_value(bal_source(x, z, q, len), z, len) % q == x,
        forall|t: nat| -z <= #[trigger] (2 * bal_digit_at(bal_source(x, z, q, len), z, t)) < z,
{
    let y = bal_source(x, z, q, len);
    lemma_bal_bounds(z, len);
    lemma_bal_fits(y, z, len);
    lemma_bal_split(y, z, len);
    lemma_bal_front_back(y, z, len);
    lemma_mul_basics(pow(z, len));
    if y == x {
        lemma_small_mod(x as nat, q as nat);
    } else {
        lemma_fundamental_div_mod_converse(x - q, q, -1, x);
    }
    assert forall|t: nat| -z <= #[trigger] (2 * bal_digit_at(y, z, t)) < z by {
        lemma_bal_digit_range(y, z, t);
    };
}

proof fn lemma_bal_digit_range(y: int, z: int, t: nat)
    requires
        z >= 2,
    ensures
        -z <= 2 * bal_digit_at(y, z, t) < z,
    decreases t,
{
    if t == 0 {
        lemma_bal_digit(y, z);
    } else {
        lemma_bal_digit_range(bal_next(y, z), z, (t - 1) as nat);
    }
}

/// Adding a multiple of `z^k` leaves the `k` lowest balanced digits alone.
proof fn lemma_bal_shift(y: int, c: int, z: int, k: nat, t: nat)
    requires
        z >= 2,
        t < k,
    ensures
        bal_digit_at(y + c * pow(z, k), z, t) == bal_digit_at(y, z, t),
    decreases t,
{
    let m = (k - 1) as nat;
    lemma_pow_adds(z, 1, m);
    lemma_pow1(z);
    let w = c * pow(z, m);
    assert(c * pow(z, k) == z * w) by (nonlinear_arith)
        requires pow(z, k) == z * pow(z, m), w == c * pow(z, m);
    lemma_mod_multiples_vanish(w, y, z);
    assert(bal_digit(y + z * w, z) == bal_digit(y, z));
    if t > 0 {
        lemma_bal_digit(y, z);
        lemma_bal_digit(y + z * w, z);
        let d = bal_digit(y, z);
        assert(bal_next(y + z * w, z) == bal_next(y, z) + w) by {
            lemma_div_multiples_vanish(bal_next(y, z) + w, z);
            assert(y + z * w - d == z * (bal_next(y, z) + w)) by (nonlinear_arith)
                requires y == d + z * bal_next(y, z);
        };
        lemma_bal_shift(bal_next(y, z), c, z, m, (t - 1) as nat);
    }
}

} // verus!

verus! {

/// A lifted balanced digit has a signed representative in `[-z/2, z/2)`.
pub proof fn lemma_gadget_digit_small(x: int, z: int, q: int, len: nat, t: nat)
    requires
        2 <= z <= q,
        0 <= x < q,
        pow(z, len) >= q,
    ensures
        0 <= gadget_digit(x, z, q, len, t) < q,
        balanced_coeff(gadget_digit(x, z, q, len, t), z, q),
{
    lemma_balanced_digits(x, z, q, len);
    let d = bal_digit_at(bal_source(x, z, q, len), z, t);
    assert(-z <= 2 * d < z);
    lemma_mod_bound(d, q);
    if d >= 0 {
        lemma_small_mod(d as nat, q as nat);
    } else {
        lemma_fundamental_div_mod_converse(d, q, -1, q + d);
    }
}

/// Balanced gadget digit `t` of `x ∈ Z_q`, lifted into `[0, q)`.
fn gadget_digit_of(x: u64, base: u64, q: u64, len: usize, t: usize) -> (r: u64)
    requires
        2 <= base <= q,
        x < q,
        t < len,
        q <= pow(base as int, len as nat) <= u64::MAX,
    ensures
        r as int == gadget_digit(x as int, base as int, q as int, len as nat, t as nat),
        r < q,
{
    let ghost z = base as int;
    let mut hi: u128 = 0;
    let mut zl: u128 = 1;
    let mut k: usize = 0;
    proof {
        lemma_pow0(z);
    }
    while k < len
        invariant
            2 <= base,
            k <= len,
            hi as int == bal_hi(z, k as nat),
            zl as int == pow(z, k as nat),
            pow(z, len as nat) <= u64::MAX,
            z == base as int,
        decreases len - k,
    {
        proof {
            lemma_bal_bounds(z, k as nat);
            lemma_pow_increases(base as nat, k as nat, len as nat);
            lemma_pow_adds(z, k as nat, 1);
            lemma_pow1(z);
            assert(base * hi + (base + 1) / 2 <= base * zl + base) by (nonlinear_arith)
                requires hi <= zl, (base + 1) / 2 <= base;
            assert(base * zl <= u64::MAX as int * u64::MAX as int) by (nonlinear_arith)
                requires zl <= u64::MAX, base <= u64::MAX;
        }
        hi = base as u128 * hi + (base as u128 + 1) / 2 - 1;
        zl = zl * base as u128;
        k = k + 1;
    }
    let ghost y = bal_source(x as int, z, q as int, len as nat);
    let mut u: u128 = if (x as u128) <= hi {
        x as u128
    } else {
        x as u128 + zl - q as u128
    };
    proof {
        if (x as u128) <= hi {
            lemma_bal_shift(y, 0, z, len as nat, t as nat);
            assert(u as int == y + 0 * pow(z, len as nat));
        } else {
            lemma_bal_shift(y, 1, z, len as nat, t as nat);
            assert(u as int == y + 1 * pow(z, len as nat));
        }
    }
    let ghost u0 = u as int;
    let mut s: usize = 0;
    while s < t
        invariant
            2 <= base <= q,
            z == base as int,
            s <= t,
            u0 <= u64::MAX as int * 2,
            0 <= u <= u0,
            bal_digit_at(u as int, z, (t - s) as nat) == bal_digit_at(u0, z, t as nat),
        decreases t - s,
    {
        let r = u % base as u128;
        proof {
            let ui = u as int;
            let ri = r as int;
            let qd = ui / z;
            lemma_bal_digit(ui, z);
            lemma_fundamental_div_mod(ui, z);
            lemma_mod_bound(ui, z);
            assert(ri == ui % z);
            assert(bal_digit_at(ui, z, (t - s) as nat) == bal_digit_at(bal_next(ui, z), z, (t - s - 1) as nat));
            let nx = bal_next(ui, z);
            let dg = bal_digit(ui, z);
            if 2 * ri >= z {
                assert(nx == qd + 1) by (nonlinear_arith)
                    requires ui == dg + z * nx, dg == ri - z, ui == z * qd + ri, z >= 2;
                assert(qd + 1 <= ui) by (nonlinear_arith)
                    requires ui == z * qd + ri, 2 * ri >= z, z >= 2, ri < z, qd >= 0;
            } else {
                assert(nx == qd) by (nonlinear_arith)
                    requires ui == dg + z * nx, dg == ri, ui == z * qd + ri, z >= 2;
                assert(qd <= ui) by (nonlinear_arith)
                    requires ui == z * qd + ri, z >= 2, ri >= 0, qd >= 0;
            }
            lemma_div_pos_is_pos(ui, z);
        }
        u = if 2 * r >= base as u128 {
            u / base as u128 + 1
        } else {
            u / base as u128
        };
        s = s + 1;
    }
    let r = (u % base as u128) as u64;
    proof {
        lemma_mod_bound(u as int, z);
        assert(bal_digit_at(u as int, z, 0) == bal_digit(u as int, z));
        assert(r as int == (u as int) % z);
        lemma_small_mod(r as nat, q as nat);
        if 2 * r >= base {
            let ri = r as int;
            let qi = q as int;
            lemma_fundamental_div_mod_converse(ri - z, qi, -1, qi - (z - ri));
        }
    }
    if r >= base - r {
        q - (base - r)
    } else {
        r
    }
}

} // verus!
