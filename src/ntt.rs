//! Negacyclic number-theoretic transform over `Z_q[X]/(X^D + 1)`.
//!
//! The forward transform evaluates a polynomial at the odd powers
//! `w^(2k+1)` of a primitive `2D`-th root of unity `w`, storing the
//! evaluations in bit-reversed order; the backward transform interpolates
//! them again, including the division by `D`.
use crate::arith::{add_mod, get_ratio32, mod_mul32, mul_mod, pow_mod, rev_bits};
use crate::number_theory::{has_inverse, ilog2, is_pow2, is_sqrt_root, log2_of, mod_inverse, reverse_bits};
use vstd::arithmetic::div_mod::*;
use vstd::arithmetic::mul::*;
use vstd::arithmetic::power::*;
use vstd::arithmetic::power2::*;
use vstd::prelude::*;

verus! {

/// A buffer handed to the transforms.
pub struct Aligned64<T>(pub T);

/// Whether the transforms run on AVX2 vector instructions: they are
/// written as scalar code.
pub fn has_avx2() -> (r: bool)
    ensures
        !r,
{
    false
}

/// `sum_{j < n} a_j x^j` over the integers.
pub open spec fn eval_sum(a: Seq<u64>, x: int, n: nat) -> int
    decreases n,
{
    if n == 0 {
        0
    } else {
        eval_sum(a, x, (n - 1) as nat) + a[n - 1] * pow(x, (n - 1) as nat)
    }
}

/// `a(x) mod q` for a polynomial with coefficient sequence `a`.
pub open spec fn poly_eval(a: Seq<u64>, x: int, q: int) -> int {
    eval_sum(a, x, a.len()) % q
}

/// The exponent `2 rev(i) + 1` of the evaluation point stored at index `i`.
pub open spec fn point_exponent(i: nat, d: nat) -> nat {
    2 * rev_bits(i, ilog2(d)) + 1
}

/// The forward transform: entry `i` is `a(w^(2 rev(i) + 1))`.
pub open spec fn ntt_forward_spec(a: Seq<u64>, w: int, q: int) -> Seq<u64> {
    Seq::new(a.len(), |i: int| poly_eval(a, pow(w, point_exponent(i as nat, a.len())) % q, q) as u64)
}

/// `sum_{k < n} v_k w_inv^((2 rev(k) + 1) j)`.
pub open spec fn interp_sum(v: Seq<u64>, w_inv: int, j: nat, d: nat, n: nat) -> int
    decreases n,
{
    if n == 0 {
        0
    } else {
        interp_sum(v, w_inv, j, d, (n - 1) as nat) + v[n - 1] * pow(w_inv, point_exponent((n - 1) as nat, d) * j)
    }
}

/// The backward transform: entry `j` is `D^-1 sum_k v_k w^-((2 rev(k) + 1) j)`.
pub open spec fn ntt_backward_spec(v: Seq<u64>, w_inv: int, inv_d: int, q: int) -> Seq<u64> {
    Seq::new(v.len(), |j: int| ((inv_d * interp_sum(v, w_inv, j as nat, v.len(), v.len())) % q) as u64)
}

/// `2^k`.
pub fn pow2_of(k: usize) -> (r: u64)
    requires
        k < 64,
    ensures
        r == pow2(k as nat),
{
    let mut r: u64 = 1;
    let mut t: usize = 0;
    proof {
        lemma2_to64();
    }
    while t < k
        invariant
            t <= k < 64,
            r == pow2(t as nat),
        decreases k - t,
    {
        proof {
            lemma_pow2_unfold((t + 1) as nat);
            lemma_pow2_strictly_increases((t + 1) as nat, 64);
            lemma2_to64();
        }
        r = r * 2;
        t = t + 1;
    }
    r
}

/// `a` and its residue modulo `q` have the same inverses.
pub proof fn lemma_inverse_of_residue(a: int, q: int)
    requires
        q >= 1,
    ensures
        has_inverse(a, q) <==> has_inverse(a % q, q),
{
    if has_inverse(a, q) {
        let x = choose|x: int| 0 <= x < q && #[trigger] ((a * x) % q) == 1int % q;
        lemma_mul_mod_noop_general(a, x, q);
        assert(((a % q) * x) % q == 1int % q);
    }
    if has_inverse(a % q, q) {
        let x = choose|x: int| 0 <= x < q && #[trigger] (((a % q) * x) % q) == 1int % q;
        lemma_mul_mod_noop_general(a, x, q);
        assert((a * x) % q == 1int % q);
    }
}

/// Every entry of `a` lies in `[0, q)`.
pub open spec fn reduced(a: Seq<u64>, q: int) -> bool {
    forall|i: int| 0 <= i < a.len() ==> #[trigger] a[i] < q
}

/// The largest supported transform size, so that every exponent
/// `(2k + 1) j` with `k, j < d` fits in a `u64`.
pub const MAX_NTT_SIZE: usize = 0x8000_0000;

/// The constants of a transform of size `d` modulo `q` with root `w`.
pub struct NttTable {
    pub d: usize,
    pub q: u64,
    pub w: u64,
    pub w_inv: u64,
    pub inv_d: u64,
    /// Entry `i` is `w^(2 rev(i) + 1)`.
    pub w_points_bit_reversed: Vec<u64>,
    /// Entry `i` is `w_inv^(2 rev(i) + 1)`.
    pub w_inv_points_bit_reversed: Vec<u64>,
}

/// `w^(2s) - 1` is invertible modulo `q` for every `0 < s < d`, so that
/// the sums `sum_k (w^(2s))^k` over a full period vanish.
pub open spec fn geometric_ok(w: int, d: nat, q: int) -> bool {
    forall|s: int| 0 < s < d ==> has_inverse(#[trigger] ((pow(w, (2 * s) as nat) - 1) % q), q)
}

/// Entry `i` of `t` is `root^(2 rev(i) + 1) mod q`, for all `i < d`.
pub open spec fn is_point_table(t: Seq<u64>, root: int, d: nat, q: int) -> bool {
    &&& t.len() == d
    &&& forall|i: int| 0 <= i < d ==> #[trigger] t[i] as int == pow(root, point_exponent(i as nat, d)) % q
}

/// The evaluation points of a transform of size `d`, in bit-reversed
/// order: entry `i` is `root^(2 rev(i) + 1) mod q`.
pub fn evaluation_points_bit_reversed(d: usize, q: u64, root: u64) -> (r: Vec<u64>)
    requires
        1 <= d <= MAX_NTT_SIZE,
        is_pow2(d as nat),
        q >= 2,
    ensures
        is_point_table(r@, root as int, d as nat, q as int),
        reduced(r@, q as int),
{
    let mut t: Vec<u64> = Vec::new();
    let mut i: usize = 0;
    while i < d
        invariant
            1 <= d <= MAX_NTT_SIZE,
            is_pow2(d as nat),
            q >= 2,
            i <= d,
            t@.len() == i,
            forall|k: int| 0 <= k < i ==> #[trigger] t@[k] as int == pow(root as int, point_exponent(k as nat, d as nat)) % (q as int),
            reduced(t@, q as int),
        decreases d - i,
    {
        let r = reverse_bits(d, i);
        t.push(pow_mod(root, (2 * r + 1) as u64, q));
        i = i + 1;
    }
    t
}

impl NttTable {
    pub open spec fn wf(&self) -> bool {
        &&& 1 <= self.d <= MAX_NTT_SIZE
        &&& is_pow2(self.d as nat)
        &&& self.q >= 2
        &&& self.w < self.q
        &&& self.w_inv < self.q
        &&& self.inv_d < self.q
        &&& is_sqrt_root(self.w as int, self.d as nat, self.q as int)
        &&& geometric_ok(self.w as int, self.d as nat, self.q as int)
        &&& (self.w * self.w_inv) % (self.q as int) == 1
        &&& (self.d * self.inv_d) % (self.q as int) == 1
        &&& is_point_table(self.w_points_bit_reversed@, self.w as int, self.d as nat, self.q as int)
        &&& is_point_table(self.w_inv_points_bit_reversed@, self.w_inv as int, self.d as nat, self.q as int)
        &&& reduced(self.w_points_bit_reversed@, self.q as int)
        &&& reduced(self.w_inv_points_bit_reversed@, self.q as int)
    }

    /// Builds the table for size `d`, modulus `q` and root `w`; `None` when
    /// `d` is not a power of two, `w^d` is not `-1`, or `d` or `w` has no
    /// inverse modulo `q`.
    pub fn new(d: usize, q: u64, w: u64) -> (r: Option<NttTable>)
        requires
            q >= 2,
        ensures
            r is Some <==> (1 <= d <= MAX_NTT_SIZE && is_pow2(d as nat) && w < q && is_sqrt_root(w as int, d as nat, q as int)
                && geometric_ok(w as int, d as nat, q as int) && has_inverse(d as int, q as int) && has_inverse(w as int, q as int)),
            r matches Some(t) ==> t.wf() && t.d == d && t.q == q && t.w == w,
    {
        if d == 0 || d > MAX_NTT_SIZE || w >= q {
            return None;
        }
        let k = log2_of(d);
        let p2 = pow2_of(k);
        if p2 != d as u64 {
            return None;
        }
        let t = pow_mod(w, d as u64, q);
        if t != q - 1 {
            return None;
        }
        let mut s: usize = 1;
        while s < d
            invariant
                1 <= s <= d,
                d <= MAX_NTT_SIZE,
                q >= 2,
                forall|s2: int| 0 < s2 < s ==> has_inverse(#[trigger] ((pow(w as int, (2 * s2) as nat) - 1) % (q as int)), q as int),
            decreases d - s,
        {
            let x = pow_mod(w, (2 * s) as u64, q);
            let y = if x == 0 {
                q - 1
            } else {
                x - 1
            };
            proof {
                let pw = pow(w as int, (2 * s) as nat);
                lemma_sub_mod_noop(pw, 1, q as int);
                lemma_small_mod(1nat, q as nat);
                if x == 0 {
                    lemma_fundamental_div_mod_converse(-1, q as int, -1, (q - 1) as int);
                } else {
                    lemma_small_mod((x - 1) as nat, q as nat);
                }
                assert(y as int == (pw - 1) % (q as int));
                lemma_mod_twice(pw - 1, q as int);
            }
            if mod_inverse(y, q).is_none() {
                return None;
            }
            s = s + 1;
        }
        let inv_d = mod_inverse((d as u64) % q, q);
        let w_inv = mod_inverse(w, q);
        proof {
            lemma_inverse_of_residue(d as int, q as int);
            lemma_small_mod(1nat, q as nat);
        }
        match (inv_d, w_inv) {
            (Some(i_d), Some(w_i)) => {
                proof {
                    lemma_mul_mod_noop_general(d as int, i_d as int, q as int);
                    lemma_small_mod(1nat, q as nat);
                }
                let w_points_bit_reversed = evaluation_points_bit_reversed(d, q, w);
                let w_inv_points_bit_reversed = evaluation_points_bit_reversed(d, q, w_i);
                Some(NttTable { d, q, w, w_inv: w_i, inv_d: i_d, w_points_bit_reversed, w_inv_points_bit_reversed })
            },
            _ => None,
        }
    }
}

/// `xp x mod q`; for moduli below `2^30` by Shoup's multiplication with
/// the precomputed `ratio` of `x`.
fn next_power(xp: u64, x: u64, ratio: u64, q: u64) -> (r: u64)
    requires
        q >= 2,
        x < q,
        xp < q,
        q < 0x4000_0000 ==> ratio == (x * 0x1_0000_0000) / (q as int),
    ensures
        r < q,
        r as int == (xp * x) % (q as int),
{
    if q < 0x4000_0000 {
        let t = mod_mul32(xp, x, ratio, q);
        proof {
            lemma_mod_bound((xp * x) as int, q as int);
            if t >= q {
                lemma_mod_sub_multiples_vanish(t as int, q as int);
                lemma_small_mod((t - q) as nat, q as nat);
            } else {
                lemma_small_mod(t as nat, q as nat);
            }
        }
        if t >= q {
            t - q
        } else {
            t
        }
    } else {
        mul_mod(xp, x, q)
    }
}

/// `a(x) mod q`, by accumulating the powers of `x`.
fn eval_at(a: &Vec<u64>, x: u64, q: u64) -> (r: u64)
    requires
        q >= 2,
        x < q,
    ensures
        r as int == poly_eval(a@, x as int, q as int),
        r < q,
{
    let ratio = if q < 0x4000_0000 {
        get_ratio32(x, q)
    } else {
        0
    };
    let mut acc: u64 = 0;
    let mut xp: u64 = 1;
    let mut j: usize = 0;
    proof {
        lemma_pow0(x as int);
        lemma_small_mod(0nat, q as nat);
        lemma_small_mod(1nat, q as nat);
    }
    while j < a.len()
        invariant
            q >= 2,
            x < q,
            q < 0x4000_0000 ==> ratio == (x * 0x1_0000_0000) / (q as int),
            j <= a.len(),
            acc < q,
            xp < q,
            acc as int == eval_sum(a@, x as int, j as nat) % (q as int),
            xp as int == pow(x as int, j as nat) % (q as int),
        decreases a.len() - j,
    {
        let t = mul_mod(a[j], xp, q);
        let old_acc = acc;
        acc = add_mod(acc, t, q);
        let old_xp = xp;
        xp = next_power(xp, x, ratio, q);
        proof {
            let qi = q as int;
            let pj = pow(x as int, j as nat);
            let aj = a@[j as int] as int;
            lemma_mul_mod_noop_general(aj, pj, qi);
            lemma_add_mod_noop(eval_sum(a@, x as int, j as nat), aj * pj, qi);
            lemma_mod_twice(eval_sum(a@, x as int, j as nat), qi);
            lemma_mod_twice(aj * pj, qi);
            assert(eval_sum(a@, x as int, (j + 1) as nat) == eval_sum(a@, x as int, j as nat) + aj * pj);
            reveal(pow);
            assert(pow(x as int, (j + 1) as nat) == x * pj);
            lemma_mul_mod_noop_general(pj, x as int, qi);
            lemma_mul_is_commutative(pj, x as int);
        }
        j = j + 1;
    }
    acc
}

/// Forward negacyclic transform, in place: entry `i` becomes
/// `a(w^(2 rev(i) + 1)) mod q`.
pub fn ntt_neg_forward(values: &mut Aligned64<Vec<u64>>, table: &NttTable)
    requires
        table.wf(),
        old(values).0@.len() == table.d,
    ensures
        final(values).0@ == ntt_forward_spec(old(values).0@, table.w as int, table.q as int),
        reduced(final(values).0@, table.q as int),
{
    let d = table.d;
    let q = table.q;
    let mut out: Vec<u64> = Vec::new();
    let mut i: usize = 0;
    while i < d
        invariant
            table.wf(),
            d == table.d,
            q == table.q,
            values.0@.len() == d,
            i <= d,
            out@.len() == i,
            forall|k: int| 0 <= k < i ==> #[trigger] out@[k] == ntt_forward_spec(values.0@, table.w as int, q as int)[k],
            reduced(out@, q as int),
        decreases d - i,
    {
        let x = table.w_points_bit_reversed[i];
        let y = eval_at(&values.0, x, q);
        out.push(y);
        i = i + 1;
    }
    proof {
        assert(out@ =~= ntt_forward_spec(values.0@, table.w as int, q as int));
    }
    values.0 = out;
}

/// `inv_d * sum_k v_k w_inv^((2 rev(k) + 1) j) mod q`.
fn interp_at(v: &Vec<u64>, j: usize, table: &NttTable) -> (r: u64)
    requires
        table.wf(),
        v@.len() == table.d,
        j < table.d,
    ensures
        r as int == (table.inv_d * interp_sum(v@, table.w_inv as int, j as nat, table.d as nat, table.d as nat))
            % (table.q as int),
        r < table.q,
{
    let d = table.d;
    let q = table.q;
    let mut acc: u64 = 0;
    let mut k: usize = 0;
    proof {
        lemma_small_mod(0nat, q as nat);
    }
    while k < d
        invariant
            table.wf(),
            d == table.d,
            q == table.q,
            v@.len() == d,
            j < d,
            k <= d,
            acc < q,
            acc as int == interp_sum(v@, table.w_inv as int, j as nat, d as nat, k as nat) % (q as int),
        decreases d - k,
    {
        let p = table.w_inv_points_bit_reversed[k];
        let pw = pow_mod(p, j as u64, q);
        let ghost e = point_exponent(k as nat, d as nat) * j;
        proof {
            let pe = pow(table.w_inv as int, point_exponent(k as nat, d as nat));
            lemma_pow_multiplies(table.w_inv as int, point_exponent(k as nat, d as nat), j as nat);
            lemma_small_mod(p as nat, q as nat);
            crate::arith::lemma_mod_mul_equivalent_pow(p as int, pe, j as nat, q as int);
        }
        let t = mul_mod(v[k], pw, q);
        acc = add_mod(acc, t, q);
        proof {
            let qi = q as int;
            let vk = v@[k as int] as int;
            let pe = pow(table.w_inv as int, e as nat);
            let s = interp_sum(v@, table.w_inv as int, j as nat, d as nat, k as nat);
            lemma_mul_mod_noop_general(vk, pe, qi);
            lemma_add_mod_noop(s, vk * pe, qi);
            lemma_mod_twice(s, qi);
            lemma_mod_twice(vk * pe, qi);
        }
        k = k + 1;
    }
    let r = mul_mod(table.inv_d, acc, q);
    proof {
        lemma_mul_mod_noop_general(table.inv_d as int,
            interp_sum(v@, table.w_inv as int, j as nat, d as nat, d as nat), q as int);
    }
    r
}

/// Backward negacyclic transform, in place: entry `j` becomes
/// `D^-1 sum_k v_k w^-((2 rev(k) + 1) j) mod q`.
pub fn ntt_neg_backward(values: &mut Aligned64<Vec<u64>>, table: &NttTable)
    requires
        table.wf(),
        old(values).0@.len() == table.d,
    ensures
        final(values).0@ == ntt_backward_spec(old(values).0@, table.w_inv as int, table.inv_d as int, table.q as int),
        reduced(final(values).0@, table.q as int),
{
    let d = table.d;
    let mut out: Vec<u64> = Vec::new();
    let mut j: usize = 0;
    while j < d
        invariant
            table.wf(),
            d == table.d,
            values.0@.len() == d,
            j <= d,
            out@.len() == j,
            forall|k: int| 0 <= k < j ==> #[trigger] out@[k] == ntt_backward_spec(values.0@, table.w_inv as int,
                table.inv_d as int, table.q as int)[k],
            reduced(out@, table.q as int),
        decreases d - j,
    {
        let y = interp_at(&values.0, j, table);
        out.push(y);
        j = j + 1;
    }
    proof {
        assert(out@ =~= ntt_backward_spec(values.0@, table.w_inv as int, table.inv_d as int, table.q as int));
    }
    values.0 = out;
}

} // verus!
