//! Ring-GSW over `Z_Q[X]/(X^D + 1)` with `Q = Q1 Q2`: key generation,
//! public- and secret-key encryption, decryption with rounding, and the
//! homomorphic operations.
use crate::arith::neg_mod;
use crate::crt::{crt_constants, round_down, round_down_spec};
use crate::cyclo::{cyclo_add, cyclo_neg, cyclo_scalar, is_binary, is_small, Z_N_CycloRaw};
use crate::gadget::{build_gadget, gadget_inverse, gadget_view, ginv_view};
use crate::matrix::{dot_sum, mat_add_spec, mat_mul_spec, mat_scale_spec, Matrix};
use crate::ntt::{geometric_ok, NttTable, MAX_NTT_SIZE};
use crate::number_theory::{ceil_log, has_inverse, is_pow2, is_sqrt_root, mod_inverse};
use vstd::arithmetic::div_mod::*;
use vstd::arithmetic::mul::*;
use vstd::arithmetic::power::*;
use vstd::prelude::*;

verus! {

/// A parameter set, as written by hand.
#[allow(non_snake_case)]
#[derive(Debug, Clone, Copy)]
pub struct Params {
    pub N: usize,
    pub M: usize,
    pub P: u64,
    pub Q1: u64,
    pub Q2: u64,
    pub W1: u64,
    pub W2: u64,
    pub D: usize,
    pub G_BASE: u64,
    pub NOISE_WIDTH_MILLIONTHS: u64,
}

/// The small parameter set: `N = 2`, `M = 112`, `p = 31`, `D = 4`, base 2.
pub fn ring_gsw_ntt_crt_test_params() -> (r: Params)
    ensures
        r.N == 2 && r.M == 112 && r.P == 31 && r.D == 4 && r.G_BASE == 2,
{
    Params {
        N: 2,
        M: 112,
        P: 31,
        Q1: 268369921,
        Q2: 249561089,
        W1: 185593570,
        W2: 188090060,
        D: 4,
        G_BASE: 2,
        NOISE_WIDTH_MILLIONTHS: 6_400_000,
    }
}

/// The transform size `d`, modulus `q` and root `w` make a valid transform.
pub open spec fn ntt_params_ok(d: nat, q: int, w: int) -> bool {
    &&& 1 <= d <= MAX_NTT_SIZE
    &&& is_pow2(d)
    &&& w < q
    &&& is_sqrt_root(w, d, q)
    &&& geometric_ok(w, d, q)
    &&& has_inverse(d as int, q)
    &&& has_inverse(w, q)
}

/// The number of `{-1, 0, 0, 1}` draws whose sum has the variance of a
/// discrete Gaussian of width `w / 10^6`: about `w^2 / pi`.
pub open spec fn noise_draws(w: int) -> int {
    let k = (w * w) / 3_141_593 / 1_000_000;
    if k == 0 {
        1
    } else {
        k
    }
}

/// `l` is the gadget length for base `z` and modulus `q`: the least `l`
/// with `z^l >= q`.
pub open spec fn is_gadget_len(z: int, q: int, l: int) -> bool {
    &&& l >= 0
    &&& pow(z, l as nat) >= q
    &&& (l == 0 || pow(z, (l - 1) as nat) < q)
}

/// A parameter set that `from_params` accepts for degree `d` and modulus `q`.
pub open spec fn params_valid(params: Params, d: int, q: int) -> bool {
    &&& params.D == d
    &&& params.N >= 2
    &&& 1 <= d <= MAX_NTT_SIZE
    &&& d <= usize::MAX / 2
    &&& params.Q1 >= 2
    &&& params.Q2 >= 2
    &&& params.Q1 * params.Q2 == q
    &&& 2 <= params.P <= q
    &&& 2 <= params.G_BASE <= q
    &&& ntt_params_ok(d as nat, params.Q1 as int, params.W1 as int)
    &&& ntt_params_ok(d as nat, params.Q2 as int, params.W2 as int)
    &&& has_inverse(params.Q1 as int, params.Q2 as int)
    &&& has_inverse(params.Q2 as int, params.Q1 as int)
    &&& exists|l: int|
        #[trigger] is_gadget_len(params.G_BASE as int, q, l) && params.M == params.N * l && pow(params.G_BASE as int, l as nat)
            <= u64::MAX
    &&& params.M * params.M <= usize::MAX
    &&& params.N * params.M <= usize::MAX
    &&& params.NOISE_WIDTH_MILLIONTHS <= 0xffff_ffff
    &&& noise_draws(params.NOISE_WIDTH_MILLIONTHS as int) < q
    &&& fresh_noise_estimate(noise_draws(params.NOISE_WIDTH_MILLIONTHS as int), params.M as int, d, params.G_BASE as int) * (2
        * params.P) < q
}

proof fn lemma_gadget_len_unique(z: int, q: int, l1: int, l2: int)
    requires
        z >= 2,
        is_gadget_len(z, q, l1),
        is_gadget_len(z, q, l2),
    ensures
        l1 == l2,
{
    if l1 < l2 {
        lemma_pow_increases(z as nat, l1 as nat, (l2 - 1) as nat);
    } else if l2 < l1 {
        lemma_pow_increases(z as nat, l2 as nat, (l1 - 1) as nat);
    }
}

/// A worst-case bound on the decryption noise of a fresh ciphertext: the
/// key noise (`bound` per coefficient) times the binary `m x m` mixing
/// matrix, times the digits (at most `z/2`) that decryption multiplies in,
/// each product of degree-`d` polynomials adding up `d` terms.
pub open spec fn fresh_noise_estimate(bound: int, m: int, d: int, z: int) -> int {
    bound * (m * d) * (m * d) * (z / 2 + 1)
}

/// A scheme instance: the shape, the moduli and the gadget of one parameter set.
pub struct RingGSWNTTCRT<const D: usize, const Q: u64> {
    pub n: usize,
    pub m: usize,
    pub p: u64,
    pub q1: u64,
    pub q2: u64,
    pub q1_inv: u64,
    pub q2_inv: u64,
    pub g_base: u64,
    pub g_len: usize,
    pub noise_width: u64,
}

/// A GSW ciphertext: an `N x M` matrix.
#[derive(Debug, Clone)]
pub struct RingGSWNTTCRTCiphertext<const D: usize, const Q: u64> {
    pub ct: Matrix<D, Q>,
}

/// A public key: an `N x M` matrix `A` with `s A` small.
#[allow(non_snake_case)]
#[derive(Debug, Clone)]
pub struct RingGSWNTTCRTPublicKey<const D: usize, const Q: u64> {
    pub A: Matrix<D, Q>,
}

/// A secret key: the `1 x N` row `s = [s_1 .. s_(N-1) | -1]`.
#[allow(non_snake_case)]
#[derive(Debug, Clone)]
pub struct RingGSWNTTCRTSecretKey<const D: usize, const Q: u64> {
    pub s_T: Matrix<D, Q>,
}

/// `x` is `b` plus a polynomial whose coefficients are at most `bound` in
/// absolute value.
pub open spec fn close_to(x: Seq<u64>, b: Seq<u64>, bound: int, q: int) -> bool {
    exists|e: Seq<u64>| #[trigger] is_small(e, bound, q) && x == cyclo_add(b, e, q)
}

/// `s = [s_1 .. s_(n-1) | -1]` with small `s_i`, and the last row of `a`
/// is `s_1..s_(n-1)` times the rows above it, plus small noise.
pub open spec fn key_relation(s: Seq<Seq<u64>>, a: Seq<Seq<u64>>, n: int, m: int, bound: int, q: int, d: int) -> bool {
    &&& s.len() == n
    &&& a.len() == n * m
    &&& s[n - 1] == cyclo_scalar((q - 1) as u64, d as nat)
    &&& forall|i: int| 0 <= i < n - 1 ==> is_small(#[trigger] s[i], bound, q)
    &&& forall|j: int|
        0 <= j < m ==> close_to(#[trigger] a[(n - 1) * m + j], dot_sum(s, n, a, m, 0, j, (n - 1) as nat, d, q), bound, q)
}

/// `s = [s_1 .. s_(n-1) | -1]` with every `s_i` small.
pub open spec fn secret_shape(s: Seq<Seq<u64>>, n: int, bound: int, q: int, d: int) -> bool {
    &&& s.len() == n
    &&& s[n - 1] == cyclo_scalar((q - 1) as u64, d as nat)
    &&& forall|i: int| 0 <= i < n - 1 ==> is_small(#[trigger] s[i], bound, q)
}

/// Two dot products that read the same entries are equal.
pub proof fn lemma_dot_sum_congruent(
    a1: Seq<Seq<u64>>,
    ac1: int,
    a2: Seq<Seq<u64>>,
    ac2: int,
    b1: Seq<Seq<u64>>,
    b2: Seq<Seq<u64>>,
    bc: int,
    j: int,
    n: nat,
    d: int,
    q: int,
)
    requires
        forall|c: int| 0 <= c < n ==> #[trigger] a1[0 * ac1 + c] == a2[0 * ac2 + c] && b1[c * bc + j] == b2[c * bc + j],
    ensures
        dot_sum(a1, ac1, b1, bc, 0, j, n, d, q) == dot_sum(a2, ac2, b2, bc, 0, j, n, d, q),
    decreases n,
{
    if n > 0 {
        lemma_dot_sum_congruent(a1, ac1, a2, ac2, b1, b2, bc, j, (n - 1) as nat, d, q);
        assert(a1[0 * ac1 + (n - 1)] == a2[0 * ac2 + (n - 1)]);
    }
}

/// The rows `top` stacked over `s_1..s_(n-1) top + e`.
pub open spec fn public_from(s: Seq<Seq<u64>>, top: Seq<Seq<u64>>, e: Seq<Seq<u64>>, n: int, m: int, d: int, q: int) -> Seq<
    Seq<u64>,
> {
    top + Seq::new(m as nat, |j: int| cyclo_add(dot_sum(s, n, top, m, 0, j, (n - 1) as nat, d, q), e[j], q))
}

/// Small secret entries and small noise make the public matrix satisfy
/// the key relation.
pub proof fn lemma_public_key_relation(s: Seq<Seq<u64>>, top: Seq<Seq<u64>>, e: Seq<Seq<u64>>, n: int, m: int, bound: int, d: int, q: int)
    requires
        n >= 2,
        m >= 0,
        top.len() == (n - 1) * m,
        e.len() == m,
        secret_shape(s, n, bound, q, d),
        forall|j: int| 0 <= j < m ==> is_small(#[trigger] e[j], bound, q),
    ensures
        key_relation(s, public_from(s, top, e, n, m, d, q), n, m, bound, q, d),
{
    let a = public_from(s, top, e, n, m, d, q);
    assert((n - 1) * m + m == n * m) by (nonlinear_arith);
    assert forall|j: int| 0 <= j < m implies close_to(#[trigger] a[(n - 1) * m + j], dot_sum(s, n, a, m, 0, j, (n - 1) as nat, d, q),
        bound, q) by {
        assert forall|c: int| 0 <= c < ((n - 1) as nat) implies s[0 * n + c] == s[0 * n + c] && #[trigger] top[c * m + j] == a[
            c * m + j] by {
            crate::matrix::lemma_index_bound(c, j, n - 1, m);
            assert(c * m + j < top.len());
            assert(a[c * m + j] == top[c * m + j]);
        };
        lemma_dot_sum_congruent(s, n, s, n, top, a, m, j, (n - 1) as nat, d, q);
        assert(a[(n - 1) * m + j] == cyclo_add(dot_sum(s, n, top, m, 0, j, (n - 1) as nat, d, q), e[j], q));
        assert(is_small(e[j], bound, q));
    };
}

/// The flattened `n x 1` column `(0, .., 0, c)`.
pub open spec fn last_entry_column(n: int, c: u64, d: nat) -> Seq<Seq<u64>> {
    Seq::new(n as nat, |i: int| if i == n - 1 { cyclo_scalar(c, d) } else { cyclo_scalar(0, d) })
}

/// Every entry is a `{0, 1}` polynomial.
pub open spec fn binary_matrix(r: Seq<Seq<u64>>) -> bool {
    forall|k: int| 0 <= k < r.len() ==> is_binary(#[trigger] r[k])
}

impl<const D: usize, const Q: u64> RingGSWNTTCRT<D, Q> {
    pub open spec fn wf(&self) -> bool {
        &&& 2 <= self.n
        &&& 1 <= D <= MAX_NTT_SIZE
        &&& D <= usize::MAX / 2
        &&& Q >= 2
        &&& 2 <= self.p <= Q
        &&& Q == self.q1 * self.q2
        &&& crt_constants(self.q1 as int, self.q2 as int, self.q1_inv as int, self.q2_inv as int)
        &&& 2 <= self.g_base <= Q
        &&& self.g_len >= 1
        &&& Q <= pow(self.g_base as int, self.g_len as nat) <= u64::MAX
        &&& self.m == self.n * self.g_len
        &&& self.m * self.m <= usize::MAX
        &&& self.n * self.m <= usize::MAX
        &&& 1 <= self.noise_width < Q
    }

    /// The gadget `G` of this instance, flattened.
    pub open spec fn gadget_spec(&self) -> Seq<Seq<u64>> {
        gadget_view(self.n as int, self.g_len as int, self.g_base as int, Q as int, D as nat)
    }

    /// `a G`, flattened.
    pub open spec fn scaled_gadget_spec(&self, a: u64) -> Seq<Seq<u64>> {
        mat_scale_spec(self.gadget_spec(), a as int, Q as int)
    }

    /// `C G^-1(X)` for an `n x m` matrix `C` and an `n x cols` matrix `X`.
    pub open spec fn gadget_mul_spec(&self, c: Seq<Seq<u64>>, x: Seq<Seq<u64>>, cols: int) -> Seq<Seq<u64>> {
        mat_mul_spec(
            c,
            ginv_view(x, self.n as int, cols, self.g_base as int, Q as int, self.g_len as int),
            self.n as int,
            self.m as int,
            cols,
            D as int,
            Q as int,
        )
    }

    /// The value `decrypt` reads out: `-s C G^-1((0, .., 0, Q / p))`, rounded to `Z_p`.
    pub open spec fn decrypt_spec(&self, s: Seq<Seq<u64>>, c: Seq<Seq<u64>>) -> int {
        let col = self.gadget_mul_spec(c, last_entry_column(self.n as int, (Q / self.p) as u64, D as nat), 1);
        let x = mat_mul_spec(s, col, 1, self.n as int, 1, D as int, Q as int)[0];
        round_down_spec(cyclo_neg(x, Q as int)[0] as int, self.p as int, Q as int)
    }

    pub open spec fn ct_wf(&self, c: &RingGSWNTTCRTCiphertext<D, Q>) -> bool {
        c.ct.wf() && c.ct.rows == self.n && c.ct.cols == self.m
    }

    pub open spec fn pk_wf(&self, pk: &RingGSWNTTCRTPublicKey<D, Q>) -> bool {
        pk.A.wf() && pk.A.rows == self.n && pk.A.cols == self.m
    }

    pub open spec fn sk_wf(&self, sk: &RingGSWNTTCRTSecretKey<D, Q>) -> bool {
        sk.s_T.wf() && sk.s_T.rows == 1 && sk.s_T.cols == self.n
    }

    /// The public matrix of secret row `s_t`: the rows `top` stacked over
    /// `s_1..s_(n-1) top + e`.
    pub fn public_matrix_from(&self, s_t: &Matrix<D, Q>, top: Matrix<D, Q>, e: &Vec<Z_N_CycloRaw<D, Q>>) -> (a: Matrix<D, Q>)
        requires
            self.wf(),
            s_t.wf(),
            s_t.rows == 1,
            s_t.cols == self.n,
            top.wf(),
            top.rows == self.n - 1,
            top.cols == self.m,
            e@.len() == self.m,
            forall|j: int| 0 <= j < e@.len() ==> (#[trigger] e@[j]).wf(),
        ensures
            a.wf(),
            a.rows == self.n,
            a.cols == self.m,
            a@ == public_from(s_t@, top@, e@.map_values(|z: Z_N_CycloRaw<D, Q>| z@), self.n as int, self.m as int, D as int,
                Q as int),
    {
        let n = self.n;
        let m = self.m;
        let n1 = n - 1;
        let ghost ev = e@.map_values(|z: Z_N_CycloRaw<D, Q>| z@);
        proof {
            lemma_mul_inequality(n1 as int, n as int, m as int);
            lemma_mul_inequality(1, n as int, m as int);
        }
        let mut sbar = Matrix::<D, Q>::zero(1, n1);
        let mut i: usize = 0;
        while i < n1
            invariant
                self.wf(),
                n == self.n,
                n1 == n - 1,
                s_t.wf(),
                s_t.rows == 1,
                s_t.cols == n,
                sbar.wf(),
                sbar.rows == 1,
                sbar.cols == n1,
                i <= n1,
                forall|c: int| 0 <= c < i ==> #[trigger] sbar.entry(0, c) == s_t.entry(0, c),
            decreases n1 - i,
        {
            let x = s_t.get(0, i).duplicate();
            sbar.set(0, i, x);
            i = i + 1;
        }
        let b = sbar.mul(&top);
        let ghost top_view = top@;
        let mut data = top.data;
        let mut j: usize = 0;
        proof {
            assert(data@.len() == n1 * m);
        }
        while j < m
            invariant
                self.wf(),
                n == self.n,
                m == self.m,
                n1 == n - 1,
                b.wf(),
                b.rows == 1,
                b.cols == m,
                b@ == mat_mul_spec(sbar@, top_view, 1, n1 as int, m as int, D as int, Q as int),
                top_view.len() == n1 * m,
                e@.len() == m,
                ev == e@.map_values(|z: Z_N_CycloRaw<D, Q>| z@),
                forall|jj: int| 0 <= jj < e@.len() ==> (#[trigger] e@[jj]).wf(),
                j <= m,
                data@.len() == n1 * m + j,
                forall|k: int| 0 <= k < data@.len() ==> (#[trigger] data@[k]).wf(),
                forall|k: int| 0 <= k < n1 * m ==> #[trigger] data@[k]@ == top_view[k],
                forall|jj: int| 0 <= jj < j ==> #[trigger] data@[n1 * m + jj]@ == cyclo_add(b@[jj], ev[jj], Q as int),
            decreases m - j,
        {
            let x = b.get(0, j).add(&e[j]);
            proof {
                assert(b.entry(0, j as int) == b@[j as int]);
            }
            data.push(x);
            j = j + 1;
        }
        let a = Matrix { rows: n, cols: m, data };
        proof {
            assert((n1 + 1) * m == n1 * m + m) by (nonlinear_arith);
            let pf = public_from(s_t@, top_view, ev, n as int, m as int, D as int, Q as int);
            assert forall|k: int| 0 <= k < a@.len() implies #[trigger] a@[k] == pf[k] by {
                if k >= n1 * m {
                    let j = k - n1 * m;
                    vstd::arithmetic::div_mod::lemma_fundamental_div_mod_converse(j, m as int, 0, j);
                    assert(b@[j] == dot_sum(sbar@, n1 as int, top_view, m as int, 0, j, n1 as nat, D as int, Q as int));
                    assert forall|c: int| 0 <= c < n1 implies #[trigger] sbar@[0 * (n1 as int) + c] == s_t@[0 * (n as int) + c]
                        && top_view[c * m + j] == top_view[c * m + j] by {
                        assert(sbar.entry(0, c) == s_t.entry(0, c));
                    };
                    lemma_dot_sum_congruent(sbar@, n1 as int, s_t@, n as int, top_view, top_view, m as int, j, n1 as nat, D as int,
                        Q as int);
                    assert(data@[n1 * m + j]@ == a@[k]);
                }
            };
            assert(a@ =~= pf);
        }
        a
    }

    /// Key generation from its random draws: the secret `s = [s_bar | -1]`,
    /// and the public `A`, the rows `top` stacked over `s_bar top + e`.
    pub fn keygen_from(&self, s_bar: &Vec<Z_N_CycloRaw<D, Q>>, top: Matrix<D, Q>, e: &Vec<Z_N_CycloRaw<D, Q>>) -> (r: (
        RingGSWNTTCRTPublicKey<D, Q>,
        RingGSWNTTCRTSecretKey<D, Q>,
    ))
        requires
            self.wf(),
            s_bar@.len() == self.n - 1,
            forall|i: int| 0 <= i < s_bar@.len() ==> (#[trigger] s_bar@[i]).wf(),
            top.wf(),
            top.rows == self.n - 1,
            top.cols == self.m,
            e@.len() == self.m,
            forall|j: int| 0 <= j < e@.len() ==> (#[trigger] e@[j]).wf(),
        ensures
            self.pk_wf(&r.0),
            self.sk_wf(&r.1),
            r.1.s_T@ == s_bar@.map_values(|z: Z_N_CycloRaw<D, Q>| z@).push(cyclo_scalar((Q - 1) as u64, D as nat)),
            r.0.A@ == public_from(r.1.s_T@, top@, e@.map_values(|z: Z_N_CycloRaw<D, Q>| z@), self.n as int, self.m as int,
                D as int, Q as int),
    {
        let n = self.n;
        proof {
            lemma_mul_inequality(1, n as int, self.m as int);
        }
        let mut s_t = Matrix::<D, Q>::zero(1, n);
        let mut i: usize = 0;
        while i < n - 1
            invariant
                self.wf(),
                n == self.n,
                s_bar@.len() == n - 1,
                forall|k: int| 0 <= k < s_bar@.len() ==> (#[trigger] s_bar@[k]).wf(),
                s_t.wf(),
                s_t.rows == 1,
                s_t.cols == n,
                i <= n - 1,
                forall|c: int| 0 <= c < i ==> #[trigger] s_t.entry(0, c) == s_bar@[c]@,
            decreases n - 1 - i,
        {
            s_t.set(0, i, s_bar[i].duplicate());
            i = i + 1;
        }
        let minus_one = Z_N_CycloRaw::<D, Q>::from_u64(Q - 1);
        s_t.set(0, n - 1, minus_one);
        proof {
            lemma_small_mod((Q - 1) as nat, Q as nat);
            assert forall|c: int| 0 <= c < n implies #[trigger] s_t@[c] == s_bar@.map_values(|z: Z_N_CycloRaw<D, Q>| z@).push(
                cyclo_scalar((Q - 1) as u64, D as nat))[c] by {
                assert(s_t.entry(0, c) == s_t@[c]);
            };
            assert(s_t@ =~= s_bar@.map_values(|z: Z_N_CycloRaw<D, Q>| z@).push(cyclo_scalar((Q - 1) as u64, D as nat)));
        }
        let a = self.public_matrix_from(&s_t, top, e);
        (RingGSWNTTCRTPublicKey { A: a }, RingGSWNTTCRTSecretKey { s_T: s_t })
    }

    /// `m` noise polynomials.
    fn noise_row(&self, m: usize) -> (e: Vec<Z_N_CycloRaw<D, Q>>)
        requires
            self.wf(),
        ensures
            e@.len() == m,
            forall|j: int| 0 <= j < m ==> (#[trigger] e@[j]).wf() && is_small(e@[j]@, self.noise_width as int, Q as int),
    {
        let mut e: Vec<Z_N_CycloRaw<D, Q>> = Vec::new();
        let mut j: usize = 0;
        while j < m
            invariant
                self.wf(),
                j <= m,
                e@.len() == j,
                forall|k: int| 0 <= k < j ==> (#[trigger] e@[k]).wf() && is_small(e@[k]@, self.noise_width as int, Q as int),
            decreases m - j,
        {
            e.push(Z_N_CycloRaw::<D, Q>::rand_noise(self.noise_width));
            j = j + 1;
        }
        e
    }

    /// Key generation: a secret `s = [s_1 .. s_(N-1) | -1]` with small noise
    /// entries, and a public `A` whose last row is `s_1..s_(N-1)` times the
    /// uniform rows above it plus small noise, so that `s A` is small.
    pub fn keygen(&self) -> (r: (RingGSWNTTCRTPublicKey<D, Q>, RingGSWNTTCRTSecretKey<D, Q>))
        requires
            self.wf(),
        ensures
            self.pk_wf(&r.0),
            self.sk_wf(&r.1),
            key_relation(r.1.s_T@, r.0.A@, self.n as int, self.m as int, self.noise_width as int, Q as int, D as int),
    {
        let s_bar = self.noise_row(self.n - 1);
        proof {
            lemma_mul_inequality((self.n - 1) as int, self.n as int, self.m as int);
        }
        let top = Matrix::<D, Q>::rand_uniform(self.n - 1, self.m);
        let e = self.noise_row(self.m);
        let ghost top_view = top@;
        let r = self.keygen_from(&s_bar, top, &e);
        proof {
            lemma_small_mod((Q - 1) as nat, Q as nat);
            lemma_public_key_relation(r.1.s_T@, top_view, e@.map_values(|z: Z_N_CycloRaw<D, Q>| z@), self.n as int,
                self.m as int, self.noise_width as int, D as int, Q as int);
        }
        r
    }

    /// Public-key encryption of `mu`: `A R + mu G` for a fresh binary `M x M` matrix `R`.
    pub fn encrypt(&self, pk: &RingGSWNTTCRTPublicKey<D, Q>, mu: u64) -> (r: RingGSWNTTCRTCiphertext<D, Q>)
        requires
            self.wf(),
            self.pk_wf(pk),
            mu < self.p,
        ensures
            self.ct_wf(&r),
            exists|rr: Seq<Seq<u64>>|
                #[trigger] binary_matrix(rr) && rr.len() == self.m * self.m && r.ct@ == mat_add_spec(
                    mat_mul_spec(pk.A@, rr, self.n as int, self.m as int, self.m as int, D as int, Q as int),
                    self.scaled_gadget_spec(mu),
                    Q as int,
                ),
    {
        let rr = Matrix::<D, Q>::rand_zero_one(self.m, self.m);
        let ar = pk.A.mul(&rr);
        let g = build_gadget::<D, Q>(self.n, self.m, self.g_base, self.g_len);
        let mu_g = g.scale(mu);
        let ct = ar.add(&mu_g);
        proof {
            assert(binary_matrix(rr@));
        }
        RingGSWNTTCRTCiphertext { ct }
    }

    /// Secret-key encryption of `mu`: a fresh matrix built like a public key
    /// under `s`, plus `mu G`.
    pub fn encrypt_sk(&self, sk: &RingGSWNTTCRTSecretKey<D, Q>, mu: u64) -> (r: RingGSWNTTCRTCiphertext<D, Q>)
        requires
            self.wf(),
            self.sk_wf(sk),
            secret_shape(sk.s_T@, self.n as int, self.noise_width as int, Q as int, D as int),
            mu < self.p,
        ensures
            self.ct_wf(&r),
            exists|a: Seq<Seq<u64>>|
                #[trigger] key_relation(sk.s_T@, a, self.n as int, self.m as int, self.noise_width as int, Q as int, D as int)
                    && mat_add_spec(a, self.scaled_gadget_spec(mu), Q as int) == r.ct@,
    {
        proof {
            lemma_mul_inequality((self.n - 1) as int, self.n as int, self.m as int);
        }
        let top = Matrix::<D, Q>::rand_uniform(self.n - 1, self.m);
        let e = self.noise_row(self.m);
        let ghost top_view = top@;
        let a = self.public_matrix_from(&sk.s_T, top, &e);
        proof {
            lemma_public_key_relation(sk.s_T@, top_view, e@.map_values(|z: Z_N_CycloRaw<D, Q>| z@), self.n as int,
                self.m as int, self.noise_width as int, D as int, Q as int);
        }
        proof {
            lemma_mul_inequality(self.n as int, self.n as int, self.m as int);
        }
        let g = build_gadget::<D, Q>(self.n, self.m, self.g_base, self.g_len);
        let mu_g = g.scale(mu);
        let ct = a.add(&mu_g);
        RingGSWNTTCRTCiphertext { ct }
    }

    /// Decryption: `-s C G^-1((0, .., 0, Q / p))` is close to `mu Q / p`;
    /// its constant coefficient is rounded to `Z_p`.
    pub fn decrypt(&self, sk: &RingGSWNTTCRTSecretKey<D, Q>, ct: &RingGSWNTTCRTCiphertext<D, Q>) -> (r: u64)
        requires
            self.wf(),
            self.sk_wf(sk),
            self.ct_wf(ct),
        ensures
            r == self.decrypt_spec(sk.s_T@, ct.ct@),
            r < self.p,
    {
        let n = self.n;
        proof {
            lemma_mul_inequality(1, n as int, self.m as int);
            lemma_mul_inequality(1, self.g_len as int, n as int);
            lemma_mul_is_commutative(n as int, self.g_len as int);
        }
        let mut v = Matrix::<D, Q>::zero(n, 1);
        let delta = Z_N_CycloRaw::<D, Q>::from_u64(Q / self.p);
        v.set(n - 1, 0, delta);
        proof {
            lemma_div_decreases(Q as int, self.p as int);
            lemma_small_mod((Q / self.p) as nat, Q as nat);
            assert forall|i: int| 0 <= i < n implies #[trigger] v@[i] == last_entry_column(n as int, (Q / self.p) as u64, D as nat)[i] by {
                assert(v.entry(i, 0) == v@[i]);
            };
            assert(v@ =~= last_entry_column(n as int, (Q / self.p) as u64, D as nat));
        }
        let gv = gadget_inverse(&v, self.g_base, self.g_len);
        let col = ct.ct.mul(&gv);
        let x = sk.s_T.mul(&col);
        let c0 = x.get(0, 0).coeff[0];
        let y = neg_mod(c0, Q);
        proof {
            assert(x.entry(0, 0) == x@[0]);
        }
        round_down(y, self.p, Q)
    }

    /// Homomorphic addition: `C1 + C2`.
    pub fn add_hom(&self, lhs: &RingGSWNTTCRTCiphertext<D, Q>, rhs: &RingGSWNTTCRTCiphertext<D, Q>) -> (r: RingGSWNTTCRTCiphertext<D, Q>)
        requires
            self.wf(),
            self.ct_wf(lhs),
            self.ct_wf(rhs),
        ensures
            self.ct_wf(&r),
            r.ct@ == mat_add_spec(lhs.ct@, rhs.ct@, Q as int),
    {
        RingGSWNTTCRTCiphertext { ct: lhs.ct.add(&rhs.ct) }
    }

    /// Homomorphic multiplication: `C1 G^-1(C2)`.
    pub fn mul_hom(&self, lhs: &RingGSWNTTCRTCiphertext<D, Q>, rhs: &RingGSWNTTCRTCiphertext<D, Q>) -> (r: RingGSWNTTCRTCiphertext<D, Q>)
        requires
            self.wf(),
            self.ct_wf(lhs),
            self.ct_wf(rhs),
        ensures
            self.ct_wf(&r),
            r.ct@ == self.gadget_mul_spec(lhs.ct@, rhs.ct@, self.m as int),
    {
        proof {
            lemma_mul_is_commutative(self.n as int, self.g_len as int);
        }
        let g_inv = gadget_inverse(&rhs.ct, self.g_base, self.g_len);
        RingGSWNTTCRTCiphertext { ct: lhs.ct.mul(&g_inv) }
    }

    /// Adds a plaintext constant: `C + a G`.
    pub fn add_scalar(&self, lhs: &RingGSWNTTCRTCiphertext<D, Q>, a: u64) -> (r: RingGSWNTTCRTCiphertext<D, Q>)
        requires
            self.wf(),
            self.ct_wf(lhs),
            a < self.p,
        ensures
            self.ct_wf(&r),
            r.ct@ == mat_add_spec(lhs.ct@, self.scaled_gadget_spec(a), Q as int),
    {
        let g = build_gadget::<D, Q>(self.n, self.m, self.g_base, self.g_len);
        let a_g = g.scale(a);
        RingGSWNTTCRTCiphertext { ct: lhs.ct.add(&a_g) }
    }

    /// Multiplies by a plaintext constant: `C G^-1(a G)`.
    pub fn mul_scalar(&self, lhs: &RingGSWNTTCRTCiphertext<D, Q>, a: u64) -> (r: RingGSWNTTCRTCiphertext<D, Q>)
        requires
            self.wf(),
            self.ct_wf(lhs),
            a < self.p,
        ensures
            self.ct_wf(&r),
            r.ct@ == self.gadget_mul_spec(lhs.ct@, self.scaled_gadget_spec(a), self.m as int),
    {
        proof {
            lemma_mul_is_commutative(self.n as int, self.g_len as int);
        }
        let g = build_gadget::<D, Q>(self.n, self.m, self.g_base, self.g_len);
        let a_g = g.scale(a);
        let g_inv = gadget_inverse(&a_g, self.g_base, self.g_len);
        RingGSWNTTCRTCiphertext { ct: lhs.ct.mul(&g_inv) }
    }

    /// Checks a parameter set against the instance's `D` and `Q` and derives
    /// the rest: `None` when `D`, `Q1 Q2`, the roots, the CRT inverses, the
    /// gadget shape or the sizes are inconsistent.
    pub fn from_params(params: &Params) -> (r: Option<Self>)
        ensures
            r is Some <==> params_valid(*params, D as int, Q as int),
            r matches Some(s) ==> s.wf() && s.n == params.N && s.m == params.M && s.p == params.P && s.g_base
                == params.G_BASE && s.q1 == params.Q1 && s.q2 == params.Q2 && s.noise_width == noise_draws(
                params.NOISE_WIDTH_MILLIONTHS as int),
    {
        if params.D != D || params.N < 2 || D < 1 || D > MAX_NTT_SIZE || D > usize::MAX / 2 || params.Q1 < 2 || params.Q2
            < 2 {
            return None;
        }
        let q = match params.Q1.checked_mul(params.Q2) {
            Some(q) => q,
            None => {
                return None;
            },
        };
        if q != Q || params.P < 2 || params.P > Q || params.G_BASE < 2 || params.G_BASE > Q {
            return None;
        }
        let t1 = NttTable::new(D, params.Q1, params.W1);
        let t2 = NttTable::new(D, params.Q2, params.W2);
        if t1.is_none() || t2.is_none() {
            return None;
        }
        proof {
            crate::ntt::lemma_inverse_of_residue(params.Q1 as int, params.Q2 as int);
            crate::ntt::lemma_inverse_of_residue(params.Q2 as int, params.Q1 as int);
        }
        let q1_inv = match mod_inverse(params.Q1 % params.Q2, params.Q2) {
            Some(x) => x,
            None => {
                return None;
            },
        };
        let q2_inv = match mod_inverse(params.Q2 % params.Q1, params.Q1) {
            Some(x) => x,
            None => {
                return None;
            },
        };
        proof {
            lemma_mul_mod_noop_general(params.Q1 as int, q1_inv as int, params.Q2 as int);
            lemma_mul_mod_noop_general(params.Q2 as int, q2_inv as int, params.Q1 as int);
            lemma_small_mod(1nat, params.Q1 as nat);
            lemma_small_mod(1nat, params.Q2 as nat);
        }
        let g_len = ceil_log(params.G_BASE, Q);
        proof {
            lemma_pow0(params.G_BASE as int);
            assert(is_gadget_len(params.G_BASE as int, Q as int, g_len as int));
            assert forall|l: int| #[trigger] is_gadget_len(params.G_BASE as int, Q as int, l) implies l == g_len by {
                lemma_gadget_len_unique(params.G_BASE as int, Q as int, l, g_len as int);
            };
        }
        if g_len == 0 {
            return None;
        }
        let mut gp: u64 = 1;
        let mut gi: usize = 0;
        proof {
            lemma_pow0(params.G_BASE as int);
        }
        while gi < g_len
            invariant
                gi <= g_len,
                gp as int == pow(params.G_BASE as int, gi as nat),
                params.G_BASE >= 2,
                forall|l: int| #[trigger] is_gadget_len(params.G_BASE as int, Q as int, l) ==> l == g_len,
                is_gadget_len(params.G_BASE as int, Q as int, g_len as int),
            decreases g_len - gi,
        {
            proof {
                lemma_pow_adds(params.G_BASE as int, gi as nat, 1);
                lemma_pow1(params.G_BASE as int);
            }
            gp = match gp.checked_mul(params.G_BASE) {
                Some(v) => v,
                None => {
                    proof {
                        lemma_pow_increases(params.G_BASE as nat, (gi + 1) as nat, g_len as nat);
                    }
                    return None;
                },
            };
            gi = gi + 1;
        }
        let m = match params.N.checked_mul(g_len) {
            Some(m) => m,
            None => {
                return None;
            },
        };
        if m != params.M || m.checked_mul(m).is_none() || params.N.checked_mul(m).is_none() {
            return None;
        }
        let w = params.NOISE_WIDTH_MILLIONTHS;
        if w > 0xffff_ffff {
            return None;
        }
        proof {
            assert(w * w <= 0xffff_ffff * 0xffff_ffff) by (nonlinear_arith)
                requires w <= 0xffff_ffff;
        }
        let k = w * w / 3_141_593 / 1_000_000;
        let noise_width = if k == 0 {
            1
        } else {
            k
        };
        assert(noise_width == noise_draws(w as int));
        if noise_width >= Q {
            return None;
        }
        // refuse parameter sets whose fresh noise could reach Q / (2p)
        proof {
            assert(m * D <= 0xffff_ffff_ffff_ffff * 0x8000_0000) by (nonlinear_arith)
                requires m <= 0xffff_ffff_ffff_ffff, D <= 0x8000_0000;
        }
        let md: u128 = m as u128 * D as u128;
        let zf: u128 = params.G_BASE as u128 / 2 + 1;
        let pf: u128 = 2 * params.P as u128;
        let ghost big = u128::MAX as int;
        let ghost nw = noise_width as int;
        let ghost full = fresh_noise_estimate(nw, m as int, D as int, params.G_BASE as int) * (2 * params.P);
        proof {
            assert(full == nw * md * md * zf * pf);
            assert(m >= 1) by (nonlinear_arith)
                requires m == params.N * g_len, params.N >= 2, g_len >= 1;
            assert(md >= 1) by (nonlinear_arith)
                requires m >= 1, D >= 1, md == m * D;
        }
        let e1 = match (noise_width as u128).checked_mul(md) {
            Some(v) => v,
            None => {
                proof {
                    assert(full > big) by (nonlinear_arith)
                        requires full == nw * md * md * zf * pf, nw * md > big, md >= 1, zf >= 1, pf >= 1, nw >= 1;
                }
                return None;
            },
        };
        let e2 = match e1.checked_mul(md) {
            Some(v) => v,
            None => {
                proof {
                    assert(full > big) by (nonlinear_arith)
                        requires full == e1 * md * zf * pf, e1 * md > big, zf >= 1, pf >= 1, e1 >= 0, md >= 1;
                }
                return None;
            },
        };
        let e3 = match e2.checked_mul(zf) {
            Some(v) => v,
            None => {
                proof {
                    assert(full > big) by (nonlinear_arith)
                        requires full == e2 * zf * pf, e2 * zf > big, pf >= 1, e2 >= 0, zf >= 1;
                }
                return None;
            },
        };
        let e4 = match e3.checked_mul(pf) {
            Some(v) => v,
            None => {
                return None;
            },
        };
        if e4 >= Q as u128 {
            return None;
        }
        Some(
            RingGSWNTTCRT {
                n: params.N,
                m,
                p: params.P,
                q1: params.Q1,
                q2: params.Q2,
                q1_inv,
                q2_inv,
                g_base: params.G_BASE,
                g_len,
                noise_width,
            },
        )
    }
}

} // verus!
