//! Elements of the cyclotomic ring `Z_N[X]/(X^D + 1)` in coefficient form.
use crate::arith::{add_mod, mul_mod, neg_mod, norm_spec, sub_mod};
use crate::rng::random_below;
use crate::ntt::{ntt_neg_backward, ntt_neg_forward, reduced, Aligned64, NttTable};
use crate::ntt_laws::{lemma_ntt_multiplicative, pointwise_mul};
use vstd::arithmetic::div_mod::*;
use vstd::arithmetic::mul::*;
use vstd::prelude::*;

verus! {

/// `sum_{j < n, j mod d == i} (-1)^(j / d) v_j`: coefficient `i` of `v`
/// reduced modulo `X^d + 1`.
pub open spec fn fold_sum(v: Seq<u64>, d: nat, i: int, n: nat) -> int
    decreases n,
{
    if n == 0 {
        0
    } else {
        let j = (n - 1) as int;
        fold_sum(v, d, i, (n - 1) as nat) + if j % (d as int) == i {
            if (j / (d as int)) % 2 == 0 {
                v[j] as int
            } else {
                -(v[j] as int)
            }
        } else {
            0
        }
    }
}

/// The contribution of `a_i b_j` to coefficient `k` of the negacyclic product.
pub open spec fn mul_term(a: Seq<u64>, b: Seq<u64>, d: int, k: int, i: int, j: int) -> int {
    if i + j == k {
        a[i] * b[j]
    } else if i + j == k + d {
        -(a[i] * b[j])
    } else {
        0
    }
}

/// `sum_{j < n} mul_term(i, j)`.
pub open spec fn row_sum(a: Seq<u64>, b: Seq<u64>, d: int, k: int, i: int, n: nat) -> int
    decreases n,
{
    if n == 0 {
        0
    } else {
        row_sum(a, b, d, k, i, (n - 1) as nat) + mul_term(a, b, d, k, i, n - 1)
    }
}

/// `sum_{i < m} sum_{j < d} mul_term(i, j)`.
pub open spec fn conv_sum(a: Seq<u64>, b: Seq<u64>, d: int, k: int, m: nat) -> int
    decreases m,
{
    if m == 0 {
        0
    } else {
        conv_sum(a, b, d, k, (m - 1) as nat) + row_sum(a, b, d, k, m - 1, d as nat)
    }
}

/// `sum_{i < n, i tau mod d == k} (-1)^(i tau / d) a_i`: coefficient `k` of
/// `a(X^tau)` reduced modulo `X^d + 1`.
pub open spec fn auto_sum(a: Seq<u64>, tau: int, d: int, k: int, n: nat) -> int
    decreases n,
{
    if n == 0 {
        0
    } else {
        let e = (n - 1) * tau;
        auto_sum(a, tau, d, k, (n - 1) as nat) + if e % d == k {
            if (e / d) % 2 == 0 {
                a[n - 1] as int
            } else {
                -(a[n - 1] as int)
            }
        } else {
            0
        }
    }
}

/// The substitution `X -> X^tau` in `Z_q[X]/(X^d + 1)`.
pub open spec fn cyclo_automorphism(a: Seq<u64>, tau: int, d: int, q: int) -> Seq<u64> {
    Seq::new(d as nat, |k: int| (auto_sum(a, tau, d, k, d as nat) % q) as u64)
}

/// Coefficient-wise sum modulo `q`.
pub open spec fn cyclo_add(a: Seq<u64>, b: Seq<u64>, q: int) -> Seq<u64> {
    Seq::new(a.len(), |i: int| ((a[i] + b[i]) % q) as u64)
}

/// Coefficient-wise difference modulo `q`.
pub open spec fn cyclo_sub(a: Seq<u64>, b: Seq<u64>, q: int) -> Seq<u64> {
    Seq::new(a.len(), |i: int| ((a[i] - b[i]) % q) as u64)
}

/// Coefficient-wise negation modulo `q`.
pub open spec fn cyclo_neg(a: Seq<u64>, q: int) -> Seq<u64> {
    Seq::new(a.len(), |i: int| ((-a[i]) % q) as u64)
}

/// The product in `Z_q[X]/(X^d + 1)`: `X^d` wraps around to `-1`.
pub open spec fn cyclo_mul(a: Seq<u64>, b: Seq<u64>, d: int, q: int) -> Seq<u64> {
    Seq::new(d as nat, |k: int| (conv_sum(a, b, d, k, d as nat) % q) as u64)
}

/// Every coefficient multiplied by `c`, modulo `q`.
pub open spec fn cyclo_scale(a: Seq<u64>, c: int, q: int) -> Seq<u64> {
    Seq::new(a.len(), |i: int| ((c * a[i]) % q) as u64)
}

/// Every coefficient has signed absolute value at most `bound` modulo `q`.
pub open spec fn is_small(a: Seq<u64>, bound: int, q: int) -> bool {
    forall|l: int| 0 <= l < a.len() ==> #[trigger] a[l] <= bound || a[l] >= q - bound
}

/// Every coefficient is `0` or `1`.
pub open spec fn is_binary(a: Seq<u64>) -> bool {
    forall|l: int| 0 <= l < a.len() ==> #[trigger] a[l] <= 1
}

/// The constant polynomial `c`.
pub open spec fn cyclo_scalar(c: u64, d: nat) -> Seq<u64> {
    Seq::new(d, |i: int| if i == 0 { c } else { 0 })
}

/// An integer polynomial reduced modulo `X^d + 1` and `q`.
pub open spec fn cyclo_fold(v: Seq<u64>, d: nat, q: int) -> Seq<u64> {
    Seq::new(d, |i: int| (fold_sum(v, d, i, v.len()) % q) as u64)
}

/// An element of `Z_N[X]/(X^D + 1)`, stored as its `D` coefficients in `[0, N)`.
#[allow(non_camel_case_types)]
#[derive(Debug, Clone)]
pub struct Z_N_CycloRaw<const D: usize, const N: u64> {
    pub coeff: Vec<u64>,
}

impl<const D: usize, const N: u64> View for Z_N_CycloRaw<D, N> {
    type V = Seq<u64>;

    open spec fn view(&self) -> Seq<u64> {
        self.coeff@
    }
}

/// A vector of `n` zeros.
pub fn zeros(n: usize) -> (r: Vec<u64>)
    ensures
        r@ == Seq::new(n as nat, |i: int| 0u64),
{
    let mut v: Vec<u64> = Vec::new();
    let mut i: usize = 0;
    while i < n
        invariant
            i <= n,
            v@ == Seq::new(i as nat, |k: int| 0u64),
        decreases n - i,
    {
        v.push(0);
        i = i + 1;
        proof {
            assert(v@ =~= Seq::new(i as nat, |k: int| 0u64));
        }
    }
    v
}

impl<const D: usize, const N: u64> Z_N_CycloRaw<D, N> {
    /// Coefficients of length `D`, each in `[0, N)`.
    pub open spec fn wf(&self) -> bool {
        &&& N >= 2
        &&& D >= 1
        &&& self.coeff@.len() == D
        &&& reduced(self.coeff@, N as int)
    }

    pub fn zero() -> (r: Self)
        requires
            N >= 2,
            D >= 1,
        ensures
            r.wf(),
            r@ == cyclo_scalar(0, D as nat),
    {
        let r = Z_N_CycloRaw { coeff: zeros(D) };
        proof {
            assert(r@ =~= cyclo_scalar(0, D as nat));
        }
        r
    }

    /// The multiplicative identity `1`.
    pub fn one() -> (r: Self)
        requires
            N >= 2,
            D >= 1,
        ensures
            r.wf(),
            r@ == cyclo_scalar(1, D as nat),
    {
        proof {
            lemma_small_mod(1nat, N as nat);
        }
        Self::from_u64(1)
    }

    /// The constant polynomial `a mod N`.
    pub fn from_u64(a: u64) -> (r: Self)
        requires
            N >= 2,
            D >= 1,
        ensures
            r.wf(),
            r@ == cyclo_scalar((a % N) as u64, D as nat),
    {
        let mut coeff = zeros(D);
        coeff.set(0, a % N);
        let r = Z_N_CycloRaw { coeff };
        proof {
            assert(r@ =~= cyclo_scalar((a % N) as u64, D as nat));
        }
        r
    }

    /// Reads an integer polynomial `sum_j v_j X^j` into the ring: each `v_j`
    /// is reduced modulo `N`, and `X^D` is replaced by `-1`.
    pub fn from_vec(v: &Vec<u64>) -> (r: Self)
        requires
            N >= 2,
            D >= 1,
        ensures
            r.wf(),
            r@ == cyclo_fold(v@, D as nat, N as int),
    {
        let mut coeff = zeros(D);
        let mut j: usize = 0;
        proof {
            lemma_small_mod(0nat, N as nat);
        }
        while j < v.len()
            invariant
                N >= 2,
                D >= 1,
                j <= v.len(),
                coeff@.len() == D,
                reduced(coeff@, N as int),
                forall|i: int| 0 <= i < D ==> #[trigger] coeff@[i] as int == fold_sum(v@, D as nat, i, j as nat) % (N as int),
            decreases v.len() - j,
        {
            let k = j % D;
            let x = v[j] % N;
            let old_c = coeff[k];
            let c = if (j / D) % 2 == 0 {
                add_mod(old_c, x, N)
            } else {
                sub_mod(old_c, x, N)
            };
            proof {
                let ni = N as int;
                let s = fold_sum(v@, D as nat, k as int, j as nat);
                lemma_add_mod_noop(s, v@[j as int] as int, ni);
                lemma_sub_mod_noop(s, v@[j as int] as int, ni);
                lemma_mod_twice(s, ni);
                lemma_mod_twice(v@[j as int] as int, ni);
                assert forall|i: int| 0 <= i < D && i != k implies #[trigger] fold_sum(v@, D as nat, i, (j + 1) as nat)
                    == fold_sum(v@, D as nat, i, j as nat) by {};
            }
            coeff.set(k, c);
            j = j + 1;
        }
        let r = Z_N_CycloRaw { coeff };
        proof {
            assert(r@ =~= cyclo_fold(v@, D as nat, N as int));
        }
        r
    }

    /// The constant coefficient, when every other coefficient is zero.
    pub fn try_to_scalar(&self) -> (r: Option<u64>)
        requires
            self.wf(),
        ensures
            r is Some <==> (forall|i: int| 1 <= i < D ==> self@[i] == 0),
            r matches Some(c) ==> D >= 1 && c == self@[0],
    {
        let mut i: usize = 1;
        while i < D
            invariant
                self.wf(),
                1 <= i <= D,
                forall|k: int| 1 <= k < i ==> self@[k] == 0,
            decreases D - i,
        {
            if self.coeff[i] != 0 {
                proof {
                    assert(!(forall|k: int| 1 <= k < D ==> self@[k] == 0)) by {
                        assert(self@[i as int] != 0);
                    };
                }
                return None;
            }
            i = i + 1;
        }
        Some(self.coeff[0])
    }

    pub fn add(&self, rhs: &Self) -> (r: Self)
        requires
            self.wf(),
            rhs.wf(),
        ensures
            r.wf(),
            r@ == cyclo_add(self@, rhs@, N as int),
    {
        let mut coeff: Vec<u64> = Vec::new();
        let mut i: usize = 0;
        while i < D
            invariant
                self.wf(),
                rhs.wf(),
                i <= D,
                coeff@.len() == i,
                reduced(coeff@, N as int),
                forall|k: int| 0 <= k < i ==> #[trigger] coeff@[k] == cyclo_add(self@, rhs@, N as int)[k],
            decreases D - i,
        {
            coeff.push(add_mod(self.coeff[i], rhs.coeff[i], N));
            i = i + 1;
        }
        let r = Z_N_CycloRaw { coeff };
        proof {
            assert(r@ =~= cyclo_add(self@, rhs@, N as int));
        }
        r
    }

    pub fn sub(&self, rhs: &Self) -> (r: Self)
        requires
            self.wf(),
            rhs.wf(),
        ensures
            r.wf(),
            r@ == cyclo_sub(self@, rhs@, N as int),
    {
        let mut coeff: Vec<u64> = Vec::new();
        let mut i: usize = 0;
        while i < D
            invariant
                self.wf(),
                rhs.wf(),
                i <= D,
                coeff@.len() == i,
                reduced(coeff@, N as int),
                forall|k: int| 0 <= k < i ==> #[trigger] coeff@[k] == cyclo_sub(self@, rhs@, N as int)[k],
            decreases D - i,
        {
            coeff.push(sub_mod(self.coeff[i], rhs.coeff[i], N));
            i = i + 1;
        }
        let r = Z_N_CycloRaw { coeff };
        proof {
            assert(r@ =~= cyclo_sub(self@, rhs@, N as int));
        }
        r
    }

    pub fn neg(&self) -> (r: Self)
        requires
            self.wf(),
        ensures
            r.wf(),
            r@ == cyclo_neg(self@, N as int),
    {
        let mut coeff: Vec<u64> = Vec::new();
        let mut i: usize = 0;
        while i < D
            invariant
                self.wf(),
                i <= D,
                coeff@.len() == i,
                reduced(coeff@, N as int),
                forall|k: int| 0 <= k < i ==> #[trigger] coeff@[k] == cyclo_neg(self@, N as int)[k],
            decreases D - i,
        {
            coeff.push(neg_mod(self.coeff[i], N));
            i = i + 1;
        }
        let r = Z_N_CycloRaw { coeff };
        proof {
            assert(r@ =~= cyclo_neg(self@, N as int));
        }
        r
    }

    /// The ring automorphism `X -> X^tau`: coefficient `i` moves to
    /// `i tau mod 2D`, and picks up a sign when that lands in `[D, 2D)`.
    pub fn automorphism(&self, tau: u64) -> (r: Self)
        requires
            self.wf(),
            D <= usize::MAX / 2,
        ensures
            r.wf(),
            r@ == cyclo_automorphism(self@, tau as int, D as int, N as int),
    {
        let mut coeff = zeros(D);
        let two_d = 2 * D;
        let mut i: usize = 0;
        proof {
            lemma_small_mod(0nat, N as nat);
        }
        while i < D
            invariant
                self.wf(),
                D <= usize::MAX / 2,
                two_d == 2 * D,
                i <= D,
                coeff@.len() == D,
                reduced(coeff@, N as int),
                forall|k: int| 0 <= k < D ==> #[trigger] coeff@[k] as int == auto_sum(self@, tau as int, D as int, k, i as nat) % (N as int),
            decreases D - i,
        {
            proof {
                assert(i * tau <= usize::MAX as int * u64::MAX as int) by (nonlinear_arith)
                    requires i <= usize::MAX, tau <= u64::MAX, i >= 0, tau >= 0;
            }
            let em: u128 = (i as u128 * tau as u128) % (two_d as u128);
            let e = em as usize;
            let x = self.coeff[i];
            let ghost ei = i * tau;
            proof {
                assert(e as int == ei % (2 * D as int));
                assert(2 * (D as int) == (D as int) * 2);
                lemma_mod_breakdown(ei, D as int, 2);
                lemma_mod_pos_bound(ei, D as int);
                lemma_mod_pos_bound(ei / (D as int), 2);
                lemma_mul_nonnegative(i as int, tau as int);
                lemma_div_pos_is_pos(ei, D as int);
            }
            let k = if e < D {
                e
            } else {
                e - D
            };
            let old_c = coeff[k];
            let c = if e < D {
                add_mod(old_c, x, N)
            } else {
                sub_mod(old_c, x, N)
            };
            proof {
                let ni = N as int;
                let s = auto_sum(self@, tau as int, D as int, k as int, i as nat);
                assert(ei % (D as int) == k as int);
                assert(e < D <==> (ei / (D as int)) % 2 == 0);
                lemma_add_mod_noop(s, x as int, ni);
                lemma_sub_mod_noop(s, x as int, ni);
                lemma_mod_twice(s, ni);
                lemma_small_mod(x as nat, N as nat);
            }
            let ghost before = coeff@;
            coeff.set(k, c);
            proof {
                assert forall|k2: int| 0 <= k2 < D implies #[trigger] coeff@[k2] as int == auto_sum(self@, tau as int, D as int, k2,
                    (i + 1) as nat) % (N as int) by {
                    if k2 != k {
                        assert(coeff@[k2] == before[k2]);
                    }
                };
            }
            i = i + 1;
        }
        let r = Z_N_CycloRaw { coeff };
        proof {
            assert(r@ =~= cyclo_automorphism(self@, tau as int, D as int, N as int));
        }
        r
    }

    /// Every coefficient multiplied by `c`.
    pub fn scale(&self, c: u64) -> (r: Self)
        requires
            self.wf(),
        ensures
            r.wf(),
            r@ == cyclo_scale(self@, c as int, N as int),
    {
        let mut coeff: Vec<u64> = Vec::new();
        let mut i: usize = 0;
        while i < D
            invariant
                self.wf(),
                i <= D,
                coeff@.len() == i,
                reduced(coeff@, N as int),
                forall|k: int| 0 <= k < i ==> #[trigger] coeff@[k] == cyclo_scale(self@, c as int, N as int)[k],
            decreases D - i,
        {
            coeff.push(mul_mod(c, self.coeff[i], N));
            i = i + 1;
        }
        let r = Z_N_CycloRaw { coeff };
        proof {
            assert(r@ =~= cyclo_scale(self@, c as int, N as int));
        }
        r
    }

    /// The product in `Z_N[X]/(X^D + 1)`.
    pub fn mul(&self, rhs: &Self) -> (r: Self)
        requires
            self.wf(),
            rhs.wf(),
            D <= usize::MAX / 2,
        ensures
            r.wf(),
            r@ == cyclo_mul(self@, rhs@, D as int, N as int),
    {
        let mut r = Self::zero();
        r.add_eq_mul(self, rhs);
        proof {
            assert forall|k: int| 0 <= k < D implies #[trigger] r@[k] == cyclo_mul(self@, rhs@, D as int, N as int)[k] by {
                let cs = conv_sum(self@, rhs@, D as int, k, D as nat);
                lemma_mod_bound(cs, N as int);
                lemma_small_mod((cs % (N as int)) as nat, N as nat);
            };
            assert(r@ =~= cyclo_mul(self@, rhs@, D as int, N as int));
        }
        r
    }

    /// `self += a * b`, the product taken in `Z_N[X]/(X^D + 1)`.
    pub fn add_eq_mul(&mut self, a: &Self, b: &Self)
        requires
            old(self).wf(),
            a.wf(),
            b.wf(),
            D <= usize::MAX / 2,
        ensures
            final(self).wf(),
            final(self)@ == cyclo_add(old(self)@, cyclo_mul(a@, b@, D as int, N as int), N as int),
    {
        let ghost init = self@;
        let mut i: usize = 0;
        proof {
            assert forall|k: int| 0 <= k < D implies #[trigger] self@[k] as int == (init[k] + conv_sum(a@, b@, D as int, k, 0)) % (N as int) by {
                lemma_small_mod(init[k] as nat, N as nat);
            };
        }
        while i < D
            invariant
                a.wf(),
                b.wf(),
                self.wf(),
                init.len() == D,
                reduced(init, N as int),
                D <= usize::MAX / 2,
                i <= D,
                forall|k: int| 0 <= k < D ==> #[trigger] self@[k] as int == (init[k] + conv_sum(a@, b@, D as int, k, i as nat)) % (N as int),
            decreases D - i,
        {
            let mut j: usize = 0;
            while j < D
                invariant
                    a.wf(),
                    b.wf(),
                    self.wf(),
                    init.len() == D,
                    D <= usize::MAX / 2,
                    i < D,
                    j <= D,
                    forall|k: int| 0 <= k < D ==> #[trigger] self@[k] as int == (init[k] + conv_sum(a@, b@, D as int, k, i as nat)
                        + row_sum(a@, b@, D as int, k, i as int, j as nat)) % (N as int),
                decreases D - j,
            {
                let prod = mul_mod(a.coeff[i], b.coeff[j], N);
                let k = (i + j) % D;
                let old_c = self.coeff[k];
                let c = if i + j < D {
                    add_mod(old_c, prod, N)
                } else {
                    sub_mod(old_c, prod, N)
                };
                proof {
                    let ni = N as int;
                    let s = init[k as int] + conv_sum(a@, b@, D as int, k as int, i as nat) + row_sum(a@, b@, D as int, k as int, i as int, j as nat);
                    let p = a@[i as int] * b@[j as int];
                    lemma_add_mod_noop(s, p, ni);
                    lemma_sub_mod_noop(s, p, ni);
                    lemma_mod_twice(s, ni);
                    lemma_mod_twice(p, ni);
                    if i + j >= D {
                        lemma_fundamental_div_mod_converse((i + j) as int, D as int, 1, (i + j - D) as int);
                        assert(i + j == k + D);
                    } else {
                        lemma_small_mod((i + j) as nat, D as nat);
                    }
                    assert forall|k2: int| 0 <= k2 < D && k2 != k implies #[trigger] mul_term(a@, b@, D as int, k2, i as int, j as int) == 0 by {
                        if i + j < D {
                            assert(k == i + j);
                        }
                    };
                }
                let ghost before = self@;
                self.coeff.set(k, c);
                proof {
                    assert forall|k2: int| 0 <= k2 < D implies #[trigger] self@[k2] as int == (init[k2] + conv_sum(a@, b@, D as int, k2, i as nat)
                        + row_sum(a@, b@, D as int, k2, i as int, (j + 1) as nat)) % (N as int) by {
                        assert(row_sum(a@, b@, D as int, k2, i as int, (j + 1) as nat) == row_sum(a@, b@, D as int, k2, i as int, j as nat)
                            + mul_term(a@, b@, D as int, k2, i as int, j as int));
                        if k2 != k {
                            assert(self@[k2] == before[k2]);
                        }
                    };
                }
                j = j + 1;
            }
            i = i + 1;
        }
        proof {
            assert forall|k: int| 0 <= k < D implies #[trigger] self@[k] == cyclo_add(init, cyclo_mul(a@, b@, D as int, N as int), N as int)[k] by {
                let ni = N as int;
                let cs = conv_sum(a@, b@, D as int, k, D as nat);
                lemma_add_mod_noop(init[k] as int, cs, ni);
                lemma_small_mod(init[k] as nat, N as nat);
                lemma_mod_twice(cs, ni);
                lemma_mod_bound(cs, ni);
            };
            assert(self@ =~= cyclo_add(init, cyclo_mul(a@, b@, D as int, N as int), N as int));
        }
    }

    /// Coefficients drawn uniformly from `[0, N)`.
    pub fn rand_uniform() -> (r: Self)
        requires
            N >= 2,
            D >= 1,
        ensures
            r.wf(),
    {
        let mut coeff: Vec<u64> = Vec::new();
        let mut i: usize = 0;
        while i < D
            invariant
                N >= 2,
                i <= D,
                coeff@.len() == i,
                reduced(coeff@, N as int),
            decreases D - i,
        {
            coeff.push(random_below(N));
            i = i + 1;
        }
        Z_N_CycloRaw { coeff }
    }

    /// Coefficients drawn uniformly from `{0, 1}`.
    pub fn rand_zero_one() -> (r: Self)
        requires
            N >= 2,
            D >= 1,
        ensures
            r.wf(),
            is_binary(r@),
    {
        let mut coeff: Vec<u64> = Vec::new();
        let mut i: usize = 0;
        while i < D
            invariant
                N >= 2,
                i <= D,
                coeff@.len() == i,
                reduced(coeff@, N as int),
                is_binary(coeff@),
            decreases D - i,
        {
            coeff.push(random_below(2));
            i = i + 1;
        }
        Z_N_CycloRaw { coeff }
    }

    /// Small noise: each coefficient is a sum of `width` draws from
    /// `{-1, 0, 0, 1}` (a centered binomial), so its signed value lies in
    /// `[-width, width]`.
    pub fn rand_noise(width: u64) -> (r: Self)
        requires
            N >= 2,
            D >= 1,
            width < N,
        ensures
            r.wf(),
            is_small(r@, width as int, N as int),
    {
        let mut coeff: Vec<u64> = Vec::new();
        let mut i: usize = 0;
        while i < D
            invariant
                N >= 2,
                width < N,
                i <= D,
                coeff@.len() == i,
                reduced(coeff@, N as int),
                is_small(coeff@, width as int, N as int),
            decreases D - i,
        {
            let mut pos: u64 = 0;
            let mut neg: u64 = 0;
            let mut t: u64 = 0;
            while t < width
                invariant
                    t <= width,
                    pos <= t,
                    neg <= t,
                decreases width - t,
            {
                pos = pos + random_below(2);
                neg = neg + random_below(2);
                t = t + 1;
            }
            let c = if pos >= neg {
                pos - neg
            } else {
                N - (neg - pos)
            };
            coeff.push(c);
            i = i + 1;
        }
        Z_N_CycloRaw { coeff }
    }

    /// The largest signed absolute value `min(c, N - c)` of a coefficient.
    pub fn norm(&self) -> (r: u64)
        requires
            self.wf(),
        ensures
            forall|i: int| 0 <= i < D ==> norm_spec(#[trigger] self@[i] as int, N as int) <= r,
            exists|i: int| 0 <= i < D && norm_spec(#[trigger] self@[i] as int, N as int) == r,
    {
        let mut best: u64 = 0;
        let mut i: usize = 0;
        while i < D
            invariant
                self.wf(),
                i <= D,
                forall|k: int| 0 <= k < i ==> norm_spec(#[trigger] self@[k] as int, N as int) <= best,
                i == 0 ==> best == 0,
                i > 0 ==> exists|k: int| 0 <= k < i && norm_spec(#[trigger] self@[k] as int, N as int) == best,
            decreases D - i,
        {
            let c = self.coeff[i];
            let v = if c <= N - c {
                c
            } else {
                N - c
            };
            if i == 0 || v > best {
                best = v;
            }
            proof {
                assert(norm_spec(self@[i as int] as int, N as int) == v);
            }
            i = i + 1;
        }
        best
    }

    /// A copy with the same coefficients.
    pub fn duplicate(&self) -> (r: Self)
        ensures
            r@ == self@,
    {
        let coeff = self.coeff.clone();
        proof {
            assert(coeff@ =~= self.coeff@);
        }
        Z_N_CycloRaw { coeff }
    }

    /// The product in `Z_N[X]/(X^D + 1)`, computed through the transforms of
    /// `table`: both factors are evaluated, multiplied point by point, and
    /// interpolated.
    pub fn mul_ntt(&self, rhs: &Self, table: &NttTable) -> (r: Self)
        requires
            self.wf(),
            rhs.wf(),
            table.wf(),
            table.d == D,
            table.q == N,
        ensures
            r.wf(),
            r@ == cyclo_mul(self@, rhs@, D as int, N as int),
    {
        let mut x = Aligned64(self.coeff.clone());
        let mut y = Aligned64(rhs.coeff.clone());
        proof {
            assert(x.0@ =~= self@);
            assert(y.0@ =~= rhs@);
        }
        ntt_neg_forward(&mut x, table);
        ntt_neg_forward(&mut y, table);
        let ghost fx = x.0@;
        let ghost fy = y.0@;
        let mut points: Vec<u64> = Vec::new();
        let mut k: usize = 0;
        while k < D
            invariant
                table.wf(),
                table.d == D,
                table.q == N,
                x.0@ == fx,
                y.0@ == fy,
                fx.len() == D,
                fy.len() == D,
                k <= D,
                points@.len() == k,
                forall|t: int| 0 <= t < k ==> #[trigger] points@[t] == pointwise_mul(fx, fy, N as int)[t],
            decreases D - k,
        {
            points.push(mul_mod(x.0[k], y.0[k], N));
            k = k + 1;
        }
        proof {
            assert(points@ =~= pointwise_mul(fx, fy, N as int));
        }
        let mut z = Aligned64(points);
        ntt_neg_backward(&mut z, table);
        proof {
            lemma_ntt_multiplicative(*table, self@, rhs@);
        }
        Z_N_CycloRaw { coeff: z.0 }
    }

    /// Coefficient-wise equality.
    pub fn equals(&self, rhs: &Self) -> (r: bool)
        requires
            self.wf(),
            rhs.wf(),
        ensures
            r == (self@ == rhs@),
    {
        let mut i: usize = 0;
        while i < D
            invariant
                self.wf(),
                rhs.wf(),
                i <= D,
                forall|k: int| 0 <= k < i ==> self@[k] == rhs@[k],
            decreases D - i,
        {
            if self.coeff[i] != rhs.coeff[i] {
                return false;
            }
            i = i + 1;
        }
        proof {
            assert(self@ =~= rhs@);
        }
        true
    }
}

} // verus!
