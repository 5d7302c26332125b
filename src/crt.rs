//! The Chinese remainder map between `Z_q1 x Z_q2` and `Z_(q1 q2)`, and the
//! scaling between a plaintext modulus `p` and a ciphertext modulus `q`.
use crate::arith::{add_mod, mul_mod};
use crate::cyclo::{conv_sum, cyclo_mul, mul_term, row_sum, Z_N_CycloRaw};
use vstd::arithmetic::div_mod::*;
use vstd::arithmetic::mul::*;
use vstd::prelude::*;

verus! {

/// The constants of a CRT pair: `q1_inv = q1^-1 mod q2`, `q2_inv = q2^-1 mod q1`.
pub open spec fn crt_constants(q1: int, q2: int, q1_inv: int, q2_inv: int) -> bool {
    &&& q1 >= 2
    &&& q2 >= 2
    &&& q1 * q2 <= u64::MAX
    &&& 0 <= q1_inv < q2
    &&& 0 <= q2_inv < q1
    &&& (q1 * q1_inv) % q2 == 1
    &&& (q2 * q2_inv) % q1 == 1
}

/// Rounding of `x ∈ Z_q` to the nearest multiple of `q/p`, read in `Z_p`.
pub open spec fn round_down_spec(x: int, p: int, q: int) -> int {
    ((x * p + q / 2) / q) % p
}

/// `u ≡ a * q2_inv (mod q1)` makes `u * q2 ≡ a (mod q1)`.
proof fn lemma_crt_component(u: int, a: int, q1: int, q2: int, q2_inv: int)
    requires
        q1 >= 2,
        0 <= a < q1,
        u == (a * q2_inv) % q1,
        (q2 * q2_inv) % q1 == 1,
    ensures
        (u * q2) % q1 == a,
{
    lemma_mul_mod_noop_general(a * q2_inv, q2, q1);
    assert((a * q2_inv) * q2 == a * (q2 * q2_inv)) by (nonlinear_arith);
    lemma_mul_mod_noop_general(a, q2 * q2_inv, q1);
    lemma_small_mod(a as nat, q1 as nat);
}

/// Combines residues modulo `q1` and `q2` into the residue modulo `q1 q2`.
pub fn crt_compose(a1: u64, a2: u64, q1: u64, q2: u64, q1_inv: u64, q2_inv: u64) -> (r: u64)
    requires
        crt_constants(q1 as int, q2 as int, q1_inv as int, q2_inv as int),
        a1 < q1,
        a2 < q2,
    ensures
        r < q1 * q2,
        r % q1 == a1,
        r % q2 == a2,
{
    let big_q = q1 * q2;
    let u = mul_mod(a1, q2_inv, q1);
    let v = mul_mod(a2, q1_inv, q2);
    proof {
        assert(u * q2 < q1 * q2 && v * q1 < q1 * q2) by (nonlinear_arith)
            requires u < q1, v < q2, q1 >= 2, q2 >= 2;
    }
    let t1 = u * q2;
    let t2 = v * q1;
    let r = add_mod(t1, t2, big_q);
    proof {
        let qi1 = q1 as int;
        let qi2 = q2 as int;
        lemma_crt_component(u as int, a1 as int, qi1, qi2, q2_inv as int);
        lemma_crt_component(v as int, a2 as int, qi2, qi1, q1_inv as int);
        lemma_mod_multiples_basic(v as int, qi1);
        lemma_mod_multiples_basic(u as int, qi2);
        lemma_mod_mod(t1 + t2, qi1, qi2);
        lemma_mul_is_commutative(qi1, qi2);
        lemma_mod_mod(t1 + t2, qi2, qi1);
        assert(r == (t1 + t2) % (qi2 * qi1));
        assert(r as int % qi2 == (t1 + t2) % qi2);
        assert(r as int % qi1 == (t1 + t2) % qi1);
        lemma_add_mod_noop(t1 as int, t2 as int, qi1);
        lemma_add_mod_noop(t1 as int, t2 as int, qi2);
        lemma_small_mod(a1 as nat, q1 as nat);
        lemma_small_mod(a2 as nat, q2 as nat);
    }
    r
}

/// Two residues below `q1 q2` that agree modulo `q1` and modulo `q2` are equal.
pub proof fn lemma_crt_unique(x: int, y: int, q1: int, q2: int, q1_inv: int)
    requires
        q1 >= 2,
        q2 >= 2,
        0 <= x < q1 * q2,
        0 <= y < q1 * q2,
        x % q1 == y % q1,
        x % q2 == y % q2,
        (q1 * q1_inv) % q2 == 1,
    ensures
        x == y,
{
    let d = x - y;
    lemma_sub_mod_noop(x, y, q1);
    lemma_sub_mod_noop(x, y, q2);
    lemma_small_mod(0nat, q1 as nat);
    lemma_small_mod(0nat, q2 as nat);
    assert(d % q1 == 0);
    assert(d % q2 == 0);
    lemma_fundamental_div_mod(d, q1);
    let t = d / q1;
    assert(d == q1 * t);
    // t ≡ t * (q1 * q1_inv) ≡ (q1 * t) * q1_inv ≡ 0 (mod q2)
    lemma_mul_mod_noop_general(t, q1 * q1_inv, q2);
    assert((t * (q1 * q1_inv)) % q2 == t % q2);
    assert(t * (q1 * q1_inv) == (q1 * t) * q1_inv) by (nonlinear_arith);
    lemma_mul_mod_noop_general(q1 * t, q1_inv, q2);
    assert((q1 * t) % q2 == 0);
    assert(((q1 * t) * q1_inv) % q2 == 0);
    assert(t % q2 == 0);
    lemma_fundamental_div_mod(t, q2);
    let u = t / q2;
    assert(d == (q1 * q2) * u) by (nonlinear_arith)
        requires d == q1 * t, t == q2 * u;
    if u > 0 {
        assert((q1 * q2) * u >= q1 * q2) by (nonlinear_arith)
            requires u >= 1, q1 >= 2, q2 >= 2;
    } else if u < 0 {
        assert((q1 * q2) * u <= -(q1 * q2)) by (nonlinear_arith)
            requires u <= -1, q1 >= 2, q2 >= 2;
    } else {
        lemma_mul_basics(q1 * q2);
    }
}

/// Splitting a residue of `Z_(q1 q2)` into its two channels and combining
/// them again gives the residue back.
pub proof fn lemma_crt_round_trip(a: int, q1: int, q2: int, q1_inv: int, q2_inv: int, r: int)
    requires
        crt_constants(q1, q2, q1_inv, q2_inv),
        0 <= a < q1 * q2,
        0 <= r < q1 * q2,
        r % q1 == a % q1,
        r % q2 == a % q2,
    ensures
        r == a,
{
    lemma_crt_unique(r, a, q1, q2, q1_inv);
}

/// Embeds `mu ∈ Z_p` into `Z_q` as `mu * floor(q / p)`.
pub fn scale_up(mu: u64, p: u64, q: u64) -> (r: u64)
    requires
        1 <= p <= q,
        mu < p,
    ensures
        r == mu * (q / p),
        r < q,
{
    let delta = q / p;
    proof {
        lemma_fundamental_div_mod(q as int, p as int);
        lemma_mul_inequality(mu as int, (p - 1) as int, delta as int);
        assert((p - 1) * delta + delta == p * delta) by (nonlinear_arith);
        if delta == 0 {
            assert(mu * delta == 0);
        }
    }
    mu * delta
}

/// Rounds `x ∈ Z_q` to `round(p x / q) mod p`.
pub fn round_down(x: u64, p: u64, q: u64) -> (r: u64)
    requires
        1 <= p <= q,
        x < q,
    ensures
        r == round_down_spec(x as int, p as int, q as int),
        r < p,
{
    proof {
        assert(x * p <= u64::MAX as int * u64::MAX as int) by (nonlinear_arith)
            requires x <= u64::MAX, p <= u64::MAX, x >= 0, p >= 0;
    }
    let num: u128 = x as u128 * p as u128 + (q / 2) as u128;
    ((num / q as u128) % p as u128) as u64
}

/// Rounding undoes scaling: `round_down(scale_up(mu)) == mu`, for every
/// `mu` whose rounding error `mu * (q mod p)` stays within half of `q`.
pub proof fn lemma_round_down_scale_up(mu: int, p: int, q: int)
    requires
        1 <= p <= q,
        0 <= mu < p,
        mu * (q % p) <= q / 2,
    ensures
        round_down_spec(mu * (q / p), p, q) == mu,
{
    let delta = q / p;
    let rho = q % p;
    lemma_fundamental_div_mod(q, p);
    let num = mu * delta * p + q / 2;
    assert(mu * delta * p + q / 2 == mu * q + (q / 2 - mu * rho)) by (nonlinear_arith)
        requires q == p * delta + rho;
    lemma_fundamental_div_mod_converse(num, q, mu, q / 2 - mu * rho);
    lemma_small_mod(mu as nat, p as nat);
}


/// The image of `a` in `Z_M[X]/(X^D + 1)`: every coefficient reduced modulo `M`.
pub fn reduce_poly<const D: usize, const N: u64, const M: u64>(a: &Z_N_CycloRaw<D, N>) -> (r: Z_N_CycloRaw<D, M>)
    requires
        a.wf(),
        M >= 2,
    ensures
        r.wf(),
        forall|i: int| 0 <= i < D ==> #[trigger] r@[i] == a@[i] % M,
{
    let mut coeff: Vec<u64> = Vec::new();
    let mut i: usize = 0;
    while i < D
        invariant
            a.wf(),
            M >= 2,
            i <= D,
            coeff@.len() == i,
            forall|k: int| 0 <= k < i ==> #[trigger] coeff@[k] == a@[k] % M,
        decreases D - i,
    {
        coeff.push(a.coeff[i] % M);
        i = i + 1;
    }
    Z_N_CycloRaw { coeff }
}

/// Combines the two CRT channels of a polynomial coefficient by coefficient.
pub fn crt_compose_poly<const D: usize, const Q1: u64, const Q2: u64, const Q: u64>(
    a1: &Z_N_CycloRaw<D, Q1>,
    a2: &Z_N_CycloRaw<D, Q2>,
    q1_inv: u64,
    q2_inv: u64,
) -> (r: Z_N_CycloRaw<D, Q>)
    requires
        a1.wf(),
        a2.wf(),
        crt_constants(Q1 as int, Q2 as int, q1_inv as int, q2_inv as int),
        Q == Q1 * Q2,
    ensures
        r.wf(),
        forall|i: int| 0 <= i < D ==> #[trigger] r@[i] % Q1 == a1@[i] && r@[i] % Q2 == a2@[i],
{
    let mut coeff: Vec<u64> = Vec::new();
    let mut i: usize = 0;
    while i < D
        invariant
            a1.wf(),
            a2.wf(),
            crt_constants(Q1 as int, Q2 as int, q1_inv as int, q2_inv as int),
            Q == Q1 * Q2,
            i <= D,
            coeff@.len() == i,
            forall|k: int| 0 <= k < i ==> #[trigger] coeff@[k] < Q && coeff@[k] % Q1 == a1@[k] && coeff@[k] % Q2 == a2@[k],
        decreases D - i,
    {
        coeff.push(crt_compose(a1.coeff[i], a2.coeff[i], Q1, Q2, q1_inv, q2_inv));
        i = i + 1;
    }
    proof {
        assert(Q1 * Q2 >= 4) by (nonlinear_arith)
            requires Q1 >= 2, Q2 >= 2;
    }
    Z_N_CycloRaw { coeff }
}

/// Splitting a polynomial of `Z_(q1 q2)[X]/(X^D + 1)` into its two CRT
/// channels and combining them gives the polynomial back.
pub proof fn lemma_crt_poly_round_trip<const D: usize, const Q1: u64, const Q2: u64, const Q: u64>(
    a: Z_N_CycloRaw<D, Q>,
    r: Z_N_CycloRaw<D, Q>,
    q1_inv: u64,
    q2_inv: u64,
)
    requires
        a.wf(),
        r.wf(),
        crt_constants(Q1 as int, Q2 as int, q1_inv as int, q2_inv as int),
        Q == Q1 * Q2,
        forall|i: int| 0 <= i < D ==> #[trigger] r@[i] % Q1 == a@[i] % Q1 && r@[i] % Q2 == a@[i] % Q2,
    ensures
        r@ == a@,
{
    assert forall|i: int| 0 <= i < D implies #[trigger] r@[i] == a@[i] by {
        lemma_crt_round_trip(a@[i] as int, Q1 as int, Q2 as int, q1_inv as int, q2_inv as int, r@[i] as int);
    };
    assert(r@ =~= a@);
}

} // verus!

verus! {

/// Reducing the factors modulo a divisor `m` of `q` commutes with the
/// product: `(a b mod q) mod m == (a mod m)(b mod m) mod m`.
pub proof fn lemma_cyclo_mul_reduce(a: Seq<u64>, b: Seq<u64>, d: int, q: int, m: int, k: int)
    requires
        d >= 1,
        2 <= m <= u64::MAX,
        2 <= q <= u64::MAX,
        q % m == 0,
        0 <= k < d,
        a.len() == d,
        b.len() == d,
    ensures
        (cyclo_mul(a, b, d, q)[k] as int) % m == cyclo_mul(
            Seq::new(d as nat, |i: int| (a[i] % (m as u64)) as u64),
            Seq::new(d as nat, |i: int| (b[i] % (m as u64)) as u64),
            d,
            m,
        )[k] as int,
{
    let ar = Seq::new(d as nat, |i: int| (a[i] % (m as u64)) as u64);
    let br = Seq::new(d as nat, |i: int| (b[i] % (m as u64)) as u64);
    let cs = conv_sum(a, b, d, k, d as nat);
    lemma_conv_congruent(a, b, ar, br, d, k, m, d as nat);
    lemma_mod_bound(cs, q);
    lemma_fundamental_div_mod(q, m);
    let qm = q / m;
    lemma_mod_mod(cs, m, qm);
    assert(m * qm == q);
    lemma_mul_is_commutative(m, qm);
    lemma_mod_bound(conv_sum(ar, br, d, k, d as nat), m);
}

proof fn lemma_row_congruent(a: Seq<u64>, b: Seq<u64>, ar: Seq<u64>, br: Seq<u64>, d: int, k: int, i: int, m: int, n: nat)
    requires
        2 <= m <= u64::MAX,
        0 <= i < d,
        n <= d,
        a.len() == d,
        b.len() == d,
        ar == Seq::new(d as nat, |t: int| (a[t] % (m as u64)) as u64),
        br == Seq::new(d as nat, |t: int| (b[t] % (m as u64)) as u64),
    ensures
        row_sum(a, b, d, k, i, n) % m == row_sum(ar, br, d, k, i, n) % m,
    decreases n,
{
    if n > 0 {
        let j = n - 1;
        lemma_row_congruent(a, b, ar, br, d, k, i, m, (n - 1) as nat);
        lemma_mul_mod_noop_general(a[i] as int, b[j] as int, m);
        assert(ar[i] as int == (a[i] as int) % m);
        assert(br[j] as int == (b[j] as int) % m);
        let p = a[i] * b[j];
        let pr = ar[i] * br[j];
        assert(p % m == pr % m);
        lemma_sub_mod_noop(0, p, m);
        lemma_sub_mod_noop(0, pr, m);
        let t = mul_term(a, b, d, k, i, j);
        let tr = mul_term(ar, br, d, k, i, j);
        assert(t % m == tr % m);
        lemma_add_mod_noop(row_sum(a, b, d, k, i, (n - 1) as nat), t, m);
        lemma_add_mod_noop(row_sum(ar, br, d, k, i, (n - 1) as nat), tr, m);
    }
}

proof fn lemma_conv_congruent(a: Seq<u64>, b: Seq<u64>, ar: Seq<u64>, br: Seq<u64>, d: int, k: int, m: int, n: nat)
    requires
        2 <= m <= u64::MAX,
        n <= d,
        a.len() == d,
        b.len() == d,
        ar == Seq::new(d as nat, |t: int| (a[t] % (m as u64)) as u64),
        br == Seq::new(d as nat, |t: int| (b[t] % (m as u64)) as u64),
    ensures
        conv_sum(a, b, d, k, n) % m == conv_sum(ar, br, d, k, n) % m,
    decreases n,
{
    if n > 0 {
        lemma_conv_congruent(a, b, ar, br, d, k, m, (n - 1) as nat);
        lemma_row_congruent(a, b, ar, br, d, k, n - 1, m, d as nat);
        lemma_add_mod_noop(conv_sum(a, b, d, k, (n - 1) as nat), row_sum(a, b, d, k, n - 1, d as nat), m);
        lemma_add_mod_noop(conv_sum(ar, br, d, k, (n - 1) as nat), row_sum(ar, br, d, k, n - 1, d as nat), m);
    }
}

} // verus!

verus! {

/// Modulus switching: every coefficient `x` of `a` becomes
/// `round(x P / Q) mod P`, taking `a` from `Z_Q[X]/(X^D + 1)` to `Z_P[X]/(X^D + 1)`.
pub fn mod_switch<const D: usize, const Q: u64, const P: u64>(a: &Z_N_CycloRaw<D, Q>) -> (r: Z_N_CycloRaw<D, P>)
    requires
        a.wf(),
        2 <= P <= Q,
    ensures
        r.wf(),
        forall|i: int| 0 <= i < D ==> #[trigger] r@[i] as int == round_down_spec(a@[i] as int, P as int, Q as int),
{
    let mut coeff: Vec<u64> = Vec::new();
    let mut i: usize = 0;
    while i < D
        invariant
            a.wf(),
            2 <= P <= Q,
            i <= D,
            coeff@.len() == i,
            forall|k: int| 0 <= k < i ==> #[trigger] coeff@[k] as int == round_down_spec(a@[k] as int, P as int, Q as int)
                && coeff@[k] < P,
        decreases D - i,
    {
        coeff.push(round_down(a.coeff[i], P, Q));
        i = i + 1;
    }
    Z_N_CycloRaw { coeff }
}

} // verus!
