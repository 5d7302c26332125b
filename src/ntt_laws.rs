//! The transforms undo each other: interpolating the evaluations of a
//! polynomial gives the polynomial back.
use crate::arith::{lemma_mod_mul_equivalent_pow, rev_bits};
use crate::number_theory::{has_inverse, ilog2, is_pow2, is_sqrt_root};
use crate::cyclo::{conv_sum, cyclo_mul, mul_term, row_sum};
use crate::ntt::{eval_sum, geometric_ok, interp_sum, ntt_backward_spec, ntt_forward_spec, point_exponent, reduced};
use vstd::arithmetic::div_mod::*;
use vstd::arithmetic::mul::*;
use vstd::arithmetic::power::*;
use vstd::arithmetic::power2::*;
use vstd::prelude::*;

verus! {

/// `sum_{k < n} f(k)`.
pub open spec fn sum_f(f: spec_fn(int) -> int, n: nat) -> int
    decreases n,
{
    if n == 0 {
        0
    } else {
        sum_f(f, (n - 1) as nat) + f(n - 1)
    }
}

proof fn lemma_sum_ext(f: spec_fn(int) -> int, g: spec_fn(int) -> int, n: nat)
    requires
        forall|k: int| 0 <= k < n ==> #[trigger] f(k) == g(k),
    ensures
        sum_f(f, n) == sum_f(g, n),
    decreases n,
{
    if n > 0 {
        lemma_sum_ext(f, g, (n - 1) as nat);
    }
}

proof fn lemma_sum_mod(f: spec_fn(int) -> int, g: spec_fn(int) -> int, n: nat, q: int)
    requires
        q > 0,
        forall|k: int| 0 <= k < n ==> #[trigger] f(k) % q == g(k) % q,
    ensures
        sum_f(f, n) % q == sum_f(g, n) % q,
    decreases n,
{
    if n > 0 {
        lemma_sum_mod(f, g, (n - 1) as nat, q);
        let a = sum_f(f, (n - 1) as nat);
        let b = sum_f(g, (n - 1) as nat);
        lemma_add_mod_noop(a, f(n - 1), q);
        lemma_add_mod_noop(b, g(n - 1), q);
    }
}

proof fn lemma_sum_scale(f: spec_fn(int) -> int, h: spec_fn(int) -> int, c: int, n: nat)
    requires
        forall|k: int| 0 <= k < n ==> #[trigger] h(k) == c * f(k),
    ensures
        sum_f(h, n) == c * sum_f(f, n),
    decreases n,
{
    if n > 0 {
        lemma_sum_scale(f, h, c, (n - 1) as nat);
        lemma_mul_is_distributive_add(c, sum_f(f, (n - 1) as nat), f(n - 1));
    }
}

proof fn lemma_sum_even_odd(f: spec_fn(int) -> int, h: spec_fn(int) -> int, n: nat)
    requires
        forall|k: int| 0 <= k < n ==> #[trigger] h(k) == f(2 * k) + f(2 * k + 1),
    ensures
        sum_f(f, 2 * n) == sum_f(h, n),
    decreases n,
{
    if n > 0 {
        lemma_sum_even_odd(f, h, (n - 1) as nat);
        assert(sum_f(f, 2 * n) == sum_f(f, (2 * n - 1) as nat) + f(2 * n - 1));
        assert(sum_f(f, (2 * n - 1) as nat) == sum_f(f, (2 * (n - 1)) as nat) + f(2 * n - 2));
    }
}

/// `sum_{l < m} g(k, l)`.
pub open spec fn row_total(g: spec_fn(int, int) -> int, k: int, m: nat) -> int
    decreases m,
{
    if m == 0 {
        0
    } else {
        row_total(g, k, (m - 1) as nat) + g(k, m - 1)
    }
}

/// `sum_{k < n} g(k, l)`.
pub open spec fn col_total(g: spec_fn(int, int) -> int, l: int, n: nat) -> int
    decreases n,
{
    if n == 0 {
        0
    } else {
        col_total(g, l, (n - 1) as nat) + g(n - 1, l)
    }
}

/// `sum_{k < n} sum_{l < m} g(k, l)`, rows first.
pub open spec fn by_rows(g: spec_fn(int, int) -> int, n: nat, m: nat) -> int
    decreases n,
{
    if n == 0 {
        0
    } else {
        by_rows(g, (n - 1) as nat, m) + row_total(g, n - 1, m)
    }
}

/// `sum_{l < m} sum_{k < n} g(k, l)`, columns first.
pub open spec fn by_cols(g: spec_fn(int, int) -> int, n: nat, m: nat) -> int
    decreases m,
{
    if m == 0 {
        0
    } else {
        by_cols(g, n, (m - 1) as nat) + col_total(g, m - 1, n)
    }
}

proof fn lemma_by_cols_peel(g: spec_fn(int, int) -> int, n: nat, m: nat)
    requires
        n > 0,
    ensures
        by_cols(g, n, m) == by_cols(g, (n - 1) as nat, m) + row_total(g, n - 1, m),
    decreases m,
{
    if m > 0 {
        lemma_by_cols_peel(g, n, (m - 1) as nat);
    }
}

proof fn lemma_sum_swap(g: spec_fn(int, int) -> int, n: nat, m: nat)
    ensures
        by_rows(g, n, m) == by_cols(g, n, m),
    decreases n,
{
    if n > 0 {
        lemma_sum_swap(g, (n - 1) as nat, m);
        lemma_by_cols_peel(g, n, m);
    } else {
        lemma_by_cols_zero(g, m);
    }
}

proof fn lemma_by_cols_zero(g: spec_fn(int, int) -> int, m: nat)
    ensures
        by_cols(g, 0, m) == 0,
    decreases m,
{
    if m > 0 {
        lemma_by_cols_zero(g, (m - 1) as nat);
    }
}

/// A sum whose terms vanish but for term `j` is that term.
proof fn lemma_sum_single(f: spec_fn(int) -> int, n: nat, j: int)
    requires
        0 <= j < n,
        forall|k: int| 0 <= k < n && k != j ==> #[trigger] f(k) == 0,
    ensures
        sum_f(f, n) == f(j),
    decreases n,
{
    if n > 0 {
        if j < n - 1 {
            lemma_sum_single(f, (n - 1) as nat, j);
        } else {
            lemma_sum_zero(f, (n - 1) as nat);
        }
    }
}

proof fn lemma_sum_zero(f: spec_fn(int) -> int, n: nat)
    requires
        forall|k: int| 0 <= k < n ==> #[trigger] f(k) == 0,
    ensures
        sum_f(f, n) == 0,
    decreases n,
{
    if n > 0 {
        lemma_sum_zero(f, (n - 1) as nat);
    }
}

/// `sum_{k < 2^m} w^rev(k)`.
pub open spec fn rev_power_sum(w: int, m: nat) -> int {
    sum_f(|k: int| pow(w, rev_bits(k as nat, m)), pow2(m))
}

/// Summed in bit-reversed order, the powers of `w` still telescope:
/// `(w - 1) sum_{k < 2^m} w^rev(k) = w^(2^m) - 1`, and the sum is `2^m` at `w = 1`.
proof fn lemma_rev_power_sum(w: int, m: nat)
    ensures
        (w - 1) * rev_power_sum(w, m) == pow(w, pow2(m)) - 1,
        w == 1 ==> rev_power_sum(w, m) == pow2(m),
    decreases m,
{
    let f = |k: int| pow(w, rev_bits(k as nat, m));
    if m == 0 {
        lemma2_to64();
        lemma_pow0(w);
        lemma_pow1(w);
        assert(rev_bits(0, 0) == 0);
        assert(sum_f(f, 1) == sum_f(f, 0) + f(0));
        assert(f(0) == 1);
        assert(rev_power_sum(w, m) == 1);
    } else {
        let m1 = (m - 1) as nat;
        let n = pow2(m1);
        lemma_pow2_unfold(m);
        lemma_rev_power_sum(w, m1);
        let g = |k: int| pow(w, rev_bits(k as nat, m1));
        let c = 1 + pow(w, n);
        let h1 = |k: int| f(2 * k) + f(2 * k + 1);
        let h2 = |k: int| c * g(k);
        lemma_sum_even_odd(f, h1, n);
        assert forall|k: int| 0 <= k < n implies #[trigger] h1(k) == h2(k) by {
            let r = rev_bits(k as nat, m1);
            assert(rev_bits((2 * k) as nat, m) == r) by {
                assert(((2 * k) as nat) % 2 == 0 && ((2 * k) as nat) / 2 == k);
            };
            assert(rev_bits((2 * k + 1) as nat, m) == n + r) by {
                assert(((2 * k + 1) as nat) % 2 == 1 && ((2 * k + 1) as nat) / 2 == k);
            };
            lemma_pow_adds(w, n, r);
            lemma_mul_is_distributive_add_other_way(pow(w, r), 1, pow(w, n));
            lemma_mul_is_commutative(pow(w, n), pow(w, r));
        };
        lemma_sum_ext(h1, h2, n);
        lemma_sum_scale(g, h2, c, n);
        let s1 = rev_power_sum(w, m1);
        assert(sum_f(g, n) == s1);
        assert(pow2(m) == 2 * n);
        assert(rev_power_sum(w, m) == sum_f(f, 2 * n));
        assert(rev_power_sum(w, m) == c * s1);
        assert(pow(w, pow2(m)) == pow(w, n + n));
        lemma_pow_adds(w, n, n);
        let pn = pow(w, n);
        assert((w - 1) * (c * s1) == c * ((w - 1) * s1)) by (nonlinear_arith);
        assert(c * (pn - 1) == pow(w, n + n) - 1) by (nonlinear_arith)
            requires c == 1 + pn, pow(w, n + n) == pn * pn;
        if w == 1 {
            lemma1_pow(n);
        }
    }
}

/// `rho^d ≡ -1` and `rho^(2s) - 1` invertible make the bit-reversed sum of
/// the powers of `rho^(2s)` vanish modulo `q`.
proof fn lemma_sum_vanishes(rho: int, s: int, m: nat, q: int)
    requires
        q >= 2,
        0 < s,
        pow(rho, pow2(m)) % q == q - 1,
        has_inverse((pow(rho, (2 * s) as nat) - 1) % q, q),
    ensures
        rev_power_sum(pow(rho, (2 * s) as nat), m) % q == 0,
{
    let d = pow2(m);
    let om = pow(rho, (2 * s) as nat);
    let g = rev_power_sum(om, m);
    lemma_rev_power_sum(om, m);
    // om^d = (rho^d)^(2s) ≡ (-1)^(2s) = 1
    lemma_pow_multiplies(rho, (2 * s) as nat, d);
    lemma_pow_multiplies(rho, d, (2 * s) as nat);
    lemma_mul_is_commutative(d as int, 2 * s);
    let rd = pow(rho, d);
    assert(rd % q == (-1int) % q) by {
        lemma_fundamental_div_mod_converse(-1, q, -1, q - 1);
    };
    lemma_mod_mul_equivalent_pow(rd, -1, (2 * s) as nat, q);
    lemma_pow_multiplies(-1, 2, s as nat);
    lemma_square_is_pow2(-1);
    lemma1_pow(s as nat);
    assert(pow(om, d) % q == 1int % q);
    lemma_small_mod(1, q as nat);
    lemma_sub_mod_noop(pow(om, d), 1, q);
    lemma_small_mod(0, q as nat);
    assert(((om - 1) * g) % q == 0);
    let y = choose|y: int| 0 <= y < q && #[trigger] ((((om - 1) % q) * y) % q) == 1int % q;
    // g ≡ g ((om - 1) y) ≡ ((om - 1) g) y ≡ 0
    lemma_mul_mod_noop_general(om - 1, y, q);
    lemma_mul_mod_noop_general(g, (om - 1) * y, q);
    assert(g * ((om - 1) * y) == ((om - 1) * g) * y) by (nonlinear_arith);
    lemma_mul_mod_noop_general((om - 1) * g, y, q);
    lemma_mul_mod_noop_general(g, 1, q);
}

/// `rho^d ≡ -1` for the inverse of a root with `w^d ≡ -1`.
proof fn lemma_inverse_root(w: int, w_inv: int, d: nat, q: int)
    requires
        q >= 2,
        pow(w, d) % q == q - 1,
        (w * w_inv) % q == 1,
    ensures
        pow(w_inv, d) % q == q - 1,
{
    lemma_pow_distributes(w, w_inv, d);
    lemma_small_mod(1, q as nat);
    lemma_mod_mul_equivalent_pow(w * w_inv, 1, d, q);
    lemma1_pow(d);
    let a = pow(w, d);
    let b = pow(w_inv, d);
    // (q - 1) b ≡ a b ≡ 1, so b ≡ -1
    lemma_mul_mod_noop_general(a, b, q);
    lemma_small_mod(1, q as nat);
    assert(((q - 1) * (b % q)) % q == 1);
    let bm = b % q;
    lemma_mod_bound(b, q);
    assert((q - 1) * bm == q * bm - bm) by (nonlinear_arith);
    lemma_mod_multiples_vanish(bm, -bm, q);
    assert((-bm) % q == 1);
    lemma_fundamental_div_mod((-bm), q);
    if bm == 0 {
        lemma_small_mod(0, q as nat);
    } else {
        lemma_fundamental_div_mod_converse(-bm, q, -1, q - bm);
    }
}

/// `(w w_inv)^n ≡ 1`.
proof fn lemma_unit_power(w: int, w_inv: int, n: nat, q: int)
    requires
        q >= 2,
        (w * w_inv) % q == 1,
    ensures
        (pow(w, n) * pow(w_inv, n)) % q == 1,
{
    lemma_pow_distributes(w, w_inv, n);
    lemma_small_mod(1, q as nat);
    lemma_mod_mul_equivalent_pow(w * w_inv, 1, n, q);
    lemma1_pow(n);
}

/// `w^(e l) w_inv^(e j)` is `w^(e (l - j))` or `w_inv^(e (j - l))` modulo `q`.
proof fn lemma_term(w: int, w_inv: int, e: nat, l: nat, j: nat, q: int)
    requires
        q >= 2,
        (w * w_inv) % q == 1,
    ensures
        l >= j ==> (pow(w, e * l) * pow(w_inv, e * j)) % q == pow(w, e * (l - j) as nat) % q,
        l < j ==> (pow(w, e * l) * pow(w_inv, e * j)) % q == pow(w_inv, e * (j - l) as nat) % q,
{
    if l >= j {
        let dd = (l - j) as nat;
        assert(e * l == e * dd + e * j) by (nonlinear_arith)
            requires dd == l - j;
        lemma_pow_adds(w, e * dd, e * j);
        lemma_unit_power(w, w_inv, e * j, q);
        let x = pow(w, e * dd);
        let u = pow(w, e * j) * pow(w_inv, e * j);
        assert(pow(w, e * dd) * pow(w, e * j) * pow(w_inv, e * j) == x * u) by (nonlinear_arith)
            requires x == pow(w, e * dd), u == pow(w, e * j) * pow(w_inv, e * j);
        lemma_mul_mod_noop_general(x, u, q);
        lemma_mul_basics(x % q);
        lemma_mod_twice(x, q);
    } else {
        let dd = (j - l) as nat;
        assert(e * j == e * dd + e * l) by (nonlinear_arith)
            requires dd == j - l;
        lemma_pow_adds(w_inv, e * dd, e * l);
        lemma_unit_power(w, w_inv, e * l, q);
        let x = pow(w_inv, e * dd);
        let u = pow(w, e * l) * pow(w_inv, e * l);
        assert(pow(w, e * l) * (pow(w_inv, e * dd) * pow(w_inv, e * l)) == x * u) by (nonlinear_arith)
            requires x == pow(w_inv, e * dd), u == pow(w, e * l) * pow(w_inv, e * l);
        lemma_mul_mod_noop_general(x, u, q);
        lemma_mul_basics(x % q);
        lemma_mod_twice(x, q);
    }
}

/// `sum_k w^((2 rev(k) + 1) l) w_inv^((2 rev(k) + 1) j)` over the `d` points.
pub open spec fn orth_sum(w: int, w_inv: int, d: nat, l: int, j: int) -> int {
    sum_f(|k: int| pow(w, point_exponent(k as nat, d) * l as nat) * pow(w_inv, point_exponent(k as nat, d) * j as nat), d)
}

/// `sum_k rho^((2 rev(k) + 1) s) = rho^s sum_k (rho^(2s))^rev(k)`.
proof fn lemma_point_power_sum(rho: int, s: nat, d: nat)
    requires
        is_pow2(d),
    ensures
        sum_f(|k: int| pow(rho, point_exponent(k as nat, d) * s), d) == pow(rho, s) * rev_power_sum(pow(rho, 2 * s), ilog2(d)),
{
    let m = ilog2(d);
    let om = pow(rho, 2 * s);
    let f = |k: int| pow(om, rev_bits(k as nat, m));
    let h = |k: int| pow(rho, point_exponent(k as nat, d) * s);
    assert forall|k: int| 0 <= k < d implies #[trigger] h(k) == pow(rho, s) * f(k) by {
        let r = rev_bits(k as nat, m);
        assert(point_exponent(k as nat, d) * s == s + (2 * s) * r) by (nonlinear_arith)
            requires point_exponent(k as nat, d) == 2 * r + 1;
        lemma_pow_adds(rho, s, (2 * s) * r);
        lemma_pow_multiplies(rho, 2 * s, r);
    };
    lemma_sum_scale(f, h, pow(rho, s), d);
}

/// The inverse root keeps `w_inv^(2s) - 1` invertible when `w^(2s) - 1` is.
proof fn lemma_geometric_inverse(w: int, w_inv: int, s: nat, q: int)
    requires
        q >= 2,
        (w * w_inv) % q == 1,
        has_inverse((pow(w, 2 * s) - 1) % q, q),
    ensures
        has_inverse((pow(w_inv, 2 * s) - 1) % q, q),
{
    let a = pow(w, 2 * s);
    let b = pow(w_inv, 2 * s);
    lemma_unit_power(w, w_inv, 2 * s, q);
    lemma_small_mod(1, q as nat);
    let y = choose|y: int| 0 <= y < q && #[trigger] ((((a - 1) % q) * y) % q) == 1int % q;
    let x = ((-a) * y) % q;
    lemma_mod_bound((-a) * y, q);
    lemma_mul_mod_noop_general(b - 1, (-a) * y, q);
    assert((b - 1) * ((-a) * y) == (a - a * b) * y) by (nonlinear_arith);
    lemma_mul_mod_noop_general(a - a * b, y, q);
    lemma_sub_mod_noop(a, a * b, q);
    lemma_sub_mod_noop(a, 1, q);
    lemma_mul_mod_noop_general(a - 1, y, q);
    assert((((b - 1) % q) * x) % q == 1int % q);
}

/// Orthogonality of the evaluation points: `sum_k x_k^l x_k^-j` is `d`
/// when `l == j` and `0` otherwise, modulo `q`.
proof fn lemma_orthogonality(w: int, w_inv: int, d: nat, q: int, l: int, j: int)
    requires
        q >= 2,
        d >= 1,
        is_pow2(d),
        is_sqrt_root(w, d, q),
        geometric_ok(w, d, q),
        (w * w_inv) % q == 1,
        0 <= l < d,
        0 <= j < d,
    ensures
        orth_sum(w, w_inv, d, l, j) % q == if l == j { d as int % q } else { 0 },
{
    let m = ilog2(d);
    let f = |k: int| pow(w, point_exponent(k as nat, d) * l as nat) * pow(w_inv, point_exponent(k as nat, d) * j as nat);
    let (rho, s) = if l >= j { (w, (l - j) as nat) } else { (w_inv, (j - l) as nat) };
    let h = |k: int| pow(rho, point_exponent(k as nat, d) * s);
    assert forall|k: int| 0 <= k < d implies #[trigger] f(k) % q == h(k) % q by {
        lemma_term(w, w_inv, point_exponent(k as nat, d), l as nat, j as nat, q);
    };
    lemma_sum_mod(f, h, d, q);
    lemma_point_power_sum(rho, s, d);
    let g = rev_power_sum(pow(rho, 2 * s), m);
    if s == 0 {
        lemma_pow0(rho);
        lemma_rev_power_sum(1, m);
        assert(sum_f(h, d) == d);
    } else {
        if l >= j {
            assert(has_inverse((pow(w, (2 * s) as nat) - 1) % q, q));
            lemma_sum_vanishes(w, s as int, m, q);
        } else {
            assert(has_inverse((pow(w, (2 * s) as nat) - 1) % q, q));
            lemma_geometric_inverse(w, w_inv, s, q);
            lemma_inverse_root(w, w_inv, d, q);
            lemma_sum_vanishes(w_inv, s as int, m, q);
        }
        lemma_mul_mod_noop_general(pow(rho, s), g, q);
        lemma_small_mod(0, q as nat);
    }
}

proof fn lemma_eval_congruent(a: Seq<u64>, x: int, y: int, n: nat, q: int)
    requires
        q >= 2,
        x % q == y % q,
    ensures
        eval_sum(a, x, n) % q == eval_sum(a, y, n) % q,
    decreases n,
{
    if n > 0 {
        let t = (n - 1) as nat;
        lemma_eval_congruent(a, x, y, t, q);
        lemma_mod_mul_equivalent_pow(x, y, t, q);
        lemma_mul_mod_noop_general(a[t as int] as int, pow(x, t), q);
        lemma_mul_mod_noop_general(a[t as int] as int, pow(y, t), q);
        lemma_add_mod_noop(eval_sum(a, x, t), a[t as int] * pow(x, t), q);
        lemma_add_mod_noop(eval_sum(a, y, t), a[t as int] * pow(y, t), q);
    }
}

/// The terms `a_l w^(e_k l) w_inv^(e_k j)` of the round trip.
pub open spec fn round_trip_terms(a: Seq<u64>, w: int, w_inv: int, d: nat, j: int) -> spec_fn(int, int) -> int {
    |k: int, l: int| a[l] * (pow(w, point_exponent(k as nat, d) * l as nat) * pow(w_inv, point_exponent(k as nat, d) * j as nat))
}

proof fn lemma_row_is_scaled_eval(a: Seq<u64>, w: int, w_inv: int, d: nat, j: int, k: int, m: nat)
    requires
        0 <= j,
    ensures
        row_total(round_trip_terms(a, w, w_inv, d, j), k, m) == eval_sum(a, pow(w, point_exponent(k as nat, d)), m)
            * pow(w_inv, point_exponent(k as nat, d) * j as nat),
    decreases m,
{
    if m > 0 {
        let t = (m - 1) as nat;
        let e = point_exponent(k as nat, d);
        lemma_row_is_scaled_eval(a, w, w_inv, d, j, k, t);
        lemma_pow_multiplies(w, e, t);
        let p = pow(w_inv, e * j as nat);
        let ev = eval_sum(a, pow(w, e), t);
        let at = a[t as int] as int;
        let pw = pow(w, e * t);
        assert(round_trip_terms(a, w, w_inv, d, j)(k, t as int) == at * (pw * p));
        assert(ev * p + at * (pw * p) == (ev + at * pw) * p) by (nonlinear_arith);
    }
}

proof fn lemma_col_is_scaled_orth(a: Seq<u64>, w: int, w_inv: int, d: nat, j: int, l: int, n: nat)
    ensures
        col_total(round_trip_terms(a, w, w_inv, d, j), l, n) == a[l] * sum_f(
            |k: int| pow(w, point_exponent(k as nat, d) * l as nat) * pow(w_inv, point_exponent(k as nat, d) * j as nat),
            n,
        ),
    decreases n,
{
    if n > 0 {
        lemma_col_is_scaled_orth(a, w, w_inv, d, j, l, (n - 1) as nat);
        let f = |k: int| pow(w, point_exponent(k as nat, d) * l as nat) * pow(w_inv, point_exponent(k as nat, d) * j as nat);
        lemma_mul_is_distributive_add(a[l] as int, sum_f(f, (n - 1) as nat), f(n - 1));
    }
}

proof fn lemma_interp_rows(a: Seq<u64>, w: int, w_inv: int, q: int, j: int, n: nat)
    requires
        2 <= q <= u64::MAX,
        0 <= j,
        n <= a.len(),
    ensures
        interp_sum(ntt_forward_spec(a, w, q), w_inv, j as nat, a.len(), n) % q == by_rows(
            round_trip_terms(a, w, w_inv, a.len(), j), n, a.len()) % q,
    decreases n,
{
    if n > 0 {
        let d = a.len();
        let k = n - 1;
        lemma_interp_rows(a, w, w_inv, q, j, (n - 1) as nat);
        let fv = ntt_forward_spec(a, w, q);
        let e = point_exponent(k as nat, d);
        let x = pow(w, e);
        let p = pow(w_inv, e * j as nat);
        let ev = eval_sum(a, x, d);
        // entry k of the forward transform is a(w^e) mod q
        lemma_mod_twice(x, q);
        lemma_eval_congruent(a, x % q, x, d, q);
        lemma_mod_bound(eval_sum(a, x % q, d), q);
        assert(fv[k] as int == eval_sum(a, x % q, d) % q);
        lemma_row_is_scaled_eval(a, w, w_inv, d, j, k, d);
        lemma_mul_mod_noop_general(fv[k] as int, p, q);
        lemma_mul_mod_noop_general(ev, p, q);
        lemma_mod_twice(ev, q);
        let prev_i = interp_sum(fv, w_inv, j as nat, d, (n - 1) as nat);
        let prev_r = by_rows(round_trip_terms(a, w, w_inv, d, j), (n - 1) as nat, d);
        lemma_add_mod_noop(prev_i, fv[k] * p, q);
        lemma_add_mod_noop(prev_r, ev * p, q);
    }
}

proof fn lemma_cols_pick(a: Seq<u64>, w: int, w_inv: int, q: int, j: int, m: nat)
    requires
        q >= 2,
        a.len() >= 1,
        is_pow2(a.len()),
        is_sqrt_root(w, a.len(), q),
        geometric_ok(w, a.len(), q),
        (w * w_inv) % q == 1,
        0 <= j < a.len(),
        m <= a.len(),
    ensures
        by_cols(round_trip_terms(a, w, w_inv, a.len(), j), a.len(), m) % q == if m > j {
            (a[j] * a.len()) % q
        } else {
            0
        },
    decreases m,
{
    let d = a.len();
    let g = round_trip_terms(a, w, w_inv, d, j);
    if m == 0 {
        lemma_small_mod(0, q as nat);
    } else {
        let l = m - 1;
        lemma_cols_pick(a, w, w_inv, q, j, (m - 1) as nat);
        lemma_col_is_scaled_orth(a, w, w_inv, d, j, l, d);
        lemma_orthogonality(w, w_inv, d, q, l, j);
        let o = orth_sum(w, w_inv, d, l, j);
        lemma_mul_mod_noop_general(a[l] as int, o, q);
        lemma_mul_mod_noop_general(a[l] as int, d as int, q);
        let prev = by_cols(g, d, (m - 1) as nat);
        lemma_add_mod_noop(prev, a[l] * o, q);
        lemma_small_mod(0, q as nat);
        if l != j {
            lemma_mul_basics(a[l] as int);
        }
        lemma_mod_twice(a[j] * d, q);
        lemma_mod_twice(a[l] * o, q);
    }
}

/// The backward transform undoes the forward one: interpolating the
/// evaluations of `a` at the table's points gives `a` back.
pub proof fn lemma_ntt_round_trip(t: crate::ntt::NttTable, a: Seq<u64>)
    requires
        t.wf(),
        a.len() == t.d,
        reduced(a, t.q as int),
    ensures
        ntt_backward_spec(ntt_forward_spec(a, t.w as int, t.q as int), t.w_inv as int, t.inv_d as int, t.q as int) == a,
{
    let q = t.q as int;
    let d = t.d as nat;
    let fv = ntt_forward_spec(a, t.w as int, q);
    let b = ntt_backward_spec(fv, t.w_inv as int, t.inv_d as int, q);
    assert forall|j: int| 0 <= j < d implies #[trigger] b[j] == a[j] by {
        let g = round_trip_terms(a, t.w as int, t.w_inv as int, d, j);
        lemma_interp_rows(a, t.w as int, t.w_inv as int, q, j, d);
        lemma_sum_swap(g, d, d);
        lemma_cols_pick(a, t.w as int, t.w_inv as int, q, j, d);
        let x = interp_sum(fv, t.w_inv as int, j as nat, d, d);
        // x ≡ a_j d, so inv_d x ≡ a_j (d inv_d) ≡ a_j
        lemma_mul_mod_noop_general(t.inv_d as int, x, q);
        lemma_mul_mod_noop_general(t.inv_d as int, a[j] * d, q);
        assert((t.inv_d as int) * (a[j] * d) == a[j] * (d * t.inv_d)) by (nonlinear_arith);
        lemma_mul_mod_noop_general(a[j] as int, d * t.inv_d, q);
        lemma_small_mod(a[j] as nat, q as nat);
        lemma_mod_bound(t.inv_d * x, q);
    };
    assert(b =~= a);
}

/// Bit reversal is injective on `[0, 2^m)`.
proof fn lemma_rev_injective(x: nat, y: nat, m: nat)
    requires
        x < pow2(m),
        y < pow2(m),
        rev_bits(x, m) == rev_bits(y, m),
    ensures
        x == y,
    decreases m,
{
    if m == 0 {
        lemma2_to64();
    } else {
        let m1 = (m - 1) as nat;
        lemma_pow2_unfold(m);
        crate::number_theory::lemma_rev_bits_bound(x / 2, m1);
        crate::number_theory::lemma_rev_bits_bound(y / 2, m1);
        let p = pow2(m1);
        assert(rev_bits(x, m) == (x % 2) * p + rev_bits(x / 2, m1));
        assert(rev_bits(y, m) == (y % 2) * p + rev_bits(y / 2, m1));
        lemma_mod_bound(x as int, 2);
        lemma_mod_bound(y as int, 2);
        if x % 2 == 0 {
            assert((x % 2) * p == 0);
        } else {
            assert(x % 2 == 1);
            assert((x % 2) * p == p);
        }
        if y % 2 == 0 {
            assert((y % 2) * p == 0);
        } else {
            assert(y % 2 == 1);
            assert((y % 2) * p == p);
        }
        assert(rev_bits(x / 2, m1) == rev_bits(y / 2, m1));
        lemma_rev_injective(x / 2, y / 2, m1);
    }
}

/// `(om - 1) sum_{j < n} om^j = om^n - 1`.
proof fn lemma_geometric_sum(om: int, n: nat)
    ensures
        (om - 1) * sum_f(|j: int| pow(om, j as nat), n) == pow(om, n) - 1,
    decreases n,
{
    let f = |j: int| pow(om, j as nat);
    if n == 0 {
        lemma_pow0(om);
    } else {
        lemma_geometric_sum(om, (n - 1) as nat);
        let t = (n - 1) as nat;
        lemma_pow_adds(om, t, 1);
        lemma_pow1(om);
        let st = sum_f(f, t);
        let pt = pow(om, t);
        assert((om - 1) * (st + pt) == pt * om - 1) by (nonlinear_arith)
            requires (om - 1) * st == pt - 1;
    }
}

/// Orthogonality of the evaluation points for the other composition:
/// `sum_j x_i^j x_k^-j` is `d` when `i == k` and `0` otherwise, modulo `q`.
proof fn lemma_point_orthogonality(w: int, w_inv: int, d: nat, q: int, i: int, k: int)
    requires
        q >= 2,
        d >= 1,
        is_pow2(d),
        is_sqrt_root(w, d, q),
        geometric_ok(w, d, q),
        (w * w_inv) % q == 1,
        0 <= i < d,
        0 <= k < d,
    ensures
        sum_f(|j: int| pow(w, point_exponent(i as nat, d) * j as nat) * pow(w_inv, point_exponent(k as nat, d) * j as nat), d)
            % q == if i == k { d as int % q } else { 0 },
{
    let m = ilog2(d);
    let ei = point_exponent(i as nat, d);
    let ek = point_exponent(k as nat, d);
    let ri = rev_bits(i as nat, m);
    let rk = rev_bits(k as nat, m);
    crate::number_theory::lemma_rev_bits_bound(i as nat, m);
    crate::number_theory::lemma_rev_bits_bound(k as nat, m);
    let f = |j: int| pow(w, ei * j as nat) * pow(w_inv, ek * j as nat);
    let (rho, s) = if ri >= rk { (w, (ri - rk) as nat) } else { (w_inv, (rk - ri) as nat) };
    let om = pow(rho, 2 * s);
    let h = |j: int| pow(om, j as nat);
    assert forall|j: int| 0 <= j < d implies #[trigger] f(j) % q == h(j) % q by {
        lemma_term(w, w_inv, j as nat, ei, ek, q);
        lemma_mul_is_commutative(ei as int, j);
        lemma_mul_is_commutative(ek as int, j);
        if ri >= rk {
            assert(j * (ei - ek) == (2 * s) * j) by (nonlinear_arith)
                requires ei == 2 * ri + 1, ek == 2 * rk + 1, s == ri - rk;
        } else {
            assert(j * (ek - ei) == (2 * s) * j) by (nonlinear_arith)
                requires ei == 2 * ri + 1, ek == 2 * rk + 1, s == rk - ri;
        }
        lemma_pow_multiplies(rho, 2 * s, j as nat);
    };
    lemma_sum_mod(f, h, d, q);
    if s == 0 {
        lemma_rev_injective(i as nat, k as nat, m);
        lemma_pow0(rho);
        assert forall|j: int| 0 <= j < d implies #[trigger] h(j) == 1 by {
            lemma1_pow(j as nat);
        };
        lemma_sum_ones(h, d);
    } else {
        assert(i != k);
        // om^d = (rho^d)^(2s) ≡ 1, and om - 1 is invertible
        let rd = pow(rho, d);
        if ri >= rk {
            assert(has_inverse((pow(w, (2 * s) as nat) - 1) % q, q));
        } else {
            assert(has_inverse((pow(w, (2 * s) as nat) - 1) % q, q));
            lemma_geometric_inverse(w, w_inv, s, q);
            lemma_inverse_root(w, w_inv, d, q);
        }
        lemma_geometric_sum(om, d);
        lemma_pow_multiplies(rho, 2 * s, d);
        lemma_pow_multiplies(rho, d, 2 * s);
        lemma_mul_is_commutative(d as int, (2 * s) as int);
        assert(rd % q == (-1int) % q) by {
            lemma_fundamental_div_mod_converse(-1, q, -1, q - 1);
        };
        lemma_mod_mul_equivalent_pow(rd, -1, 2 * s, q);
        lemma_pow_multiplies(-1, 2, s);
        lemma_square_is_pow2(-1);
        lemma1_pow(s);
        lemma_small_mod(1, q as nat);
        lemma_sub_mod_noop(pow(om, d), 1, q);
        lemma_small_mod(0, q as nat);
        let g = sum_f(h, d);
        assert(((om - 1) * g) % q == 0);
        let y = choose|y: int| 0 <= y < q && #[trigger] ((((om - 1) % q) * y) % q) == 1int % q;
        lemma_mul_mod_noop_general(om - 1, y, q);
        lemma_mul_mod_noop_general(g, (om - 1) * y, q);
        assert(g * ((om - 1) * y) == ((om - 1) * g) * y) by (nonlinear_arith);
        lemma_mul_mod_noop_general((om - 1) * g, y, q);
        lemma_mul_mod_noop_general(g, 1, q);
    }
}

proof fn lemma_sum_ones(f: spec_fn(int) -> int, n: nat)
    requires
        forall|k: int| 0 <= k < n ==> #[trigger] f(k) == 1,
    ensures
        sum_f(f, n) == n,
    decreases n,
{
    if n > 0 {
        lemma_sum_ones(f, (n - 1) as nat);
    }
}

/// The terms `v_k x_i^j x_k^-j` of the other round trip, for a fixed `i`.
pub open spec fn inverse_trip_terms(v: Seq<u64>, w: int, w_inv: int, d: nat, i: int) -> spec_fn(int, int) -> int {
    |j: int, k: int| v[k] * (pow(w, point_exponent(i as nat, d) * j as nat) * pow(w_inv, point_exponent(k as nat, d) * j as nat))
}

proof fn lemma_row_is_scaled_interp(v: Seq<u64>, w: int, w_inv: int, d: nat, i: int, j: int, n: nat)
    requires
        0 <= j,
    ensures
        row_total(inverse_trip_terms(v, w, w_inv, d, i), j, n) == pow(w, point_exponent(i as nat, d) * j as nat) * interp_sum(
            v, w_inv, j as nat, d, n),
    decreases n,
{
    if n > 0 {
        let t = (n - 1) as nat;
        lemma_row_is_scaled_interp(v, w, w_inv, d, i, j, t);
        let a = pow(w, point_exponent(i as nat, d) * j as nat);
        let b = pow(w_inv, point_exponent(t, d) * j as nat);
        let vt = v[t as int] as int;
        let prev = interp_sum(v, w_inv, j as nat, d, t);
        assert(inverse_trip_terms(v, w, w_inv, d, i)(j, t as int) == vt * (a * b));
        assert(a * prev + vt * (a * b) == a * (prev + vt * b)) by (nonlinear_arith);
    }
}

proof fn lemma_col_is_scaled_point_orth(v: Seq<u64>, w: int, w_inv: int, d: nat, i: int, k: int, n: nat)
    ensures
        col_total(inverse_trip_terms(v, w, w_inv, d, i), k, n) == v[k] * sum_f(
            |j: int| pow(w, point_exponent(i as nat, d) * j as nat) * pow(w_inv, point_exponent(k as nat, d) * j as nat),
            n,
        ),
    decreases n,
{
    if n > 0 {
        lemma_col_is_scaled_point_orth(v, w, w_inv, d, i, k, (n - 1) as nat);
        let f = |j: int| pow(w, point_exponent(i as nat, d) * j as nat) * pow(w_inv, point_exponent(k as nat, d) * j as nat);
        lemma_mul_is_distributive_add(v[k] as int, sum_f(f, (n - 1) as nat), f(n - 1));
    }
}

proof fn lemma_eval_rows(t: crate::ntt::NttTable, v: Seq<u64>, i: int, n: nat)
    requires
        t.wf(),
        v.len() == t.d,
        0 <= i < t.d,
        n <= t.d,
    ensures
        ({
            let q = t.q as int;
            let b = ntt_backward_spec(v, t.w_inv as int, t.inv_d as int, q);
            let x = pow(t.w as int, point_exponent(i as nat, t.d as nat));
            eval_sum(b, x, n) % q == (t.inv_d * by_rows(inverse_trip_terms(v, t.w as int, t.w_inv as int, t.d as nat, i), n,
                t.d as nat)) % q
        }),
    decreases n,
{
    let q = t.q as int;
    let d = t.d as nat;
    let b = ntt_backward_spec(v, t.w_inv as int, t.inv_d as int, q);
    let x = pow(t.w as int, point_exponent(i as nat, d));
    let g = inverse_trip_terms(v, t.w as int, t.w_inv as int, d, i);
    if n == 0 {
        lemma_mul_basics(t.inv_d as int);
    } else {
        let j = n - 1;
        lemma_eval_rows(t, v, i, (n - 1) as nat);
        let ij = interp_sum(v, t.w_inv as int, j as nat, d, d);
        let pj = pow(x, j as nat);
        lemma_pow_multiplies(t.w as int, point_exponent(i as nat, d), j as nat);
        lemma_row_is_scaled_interp(v, t.w as int, t.w_inv as int, d, i, j, d);
        let r = row_total(g, j, d);
        assert(r == pj * ij);
        // b_j ≡ inv_d ij, so b_j x^j ≡ inv_d (x^j ij)
        lemma_mod_bound(t.inv_d * ij, q);
        assert(b[j] as int == (t.inv_d * ij) % q);
        lemma_mul_mod_noop_general(t.inv_d * ij, pj, q);
        assert((t.inv_d * ij) * pj == t.inv_d * r) by (nonlinear_arith)
            requires r == pj * ij;
        let prev_e = eval_sum(b, x, (n - 1) as nat);
        let prev_r = by_rows(g, (n - 1) as nat, d);
        lemma_add_mod_noop(prev_e, b[j] * pj, q);
        lemma_mul_mod_noop_general(b[j] as int, pj, q);
        lemma_mul_is_distributive_add(t.inv_d as int, prev_r, r);
        lemma_add_mod_noop(t.inv_d * prev_r, t.inv_d * r, q);
    }
}

proof fn lemma_cols_pick_point(t: crate::ntt::NttTable, v: Seq<u64>, i: int, m: nat)
    requires
        t.wf(),
        v.len() == t.d,
        0 <= i < t.d,
        m <= t.d,
    ensures
        by_cols(inverse_trip_terms(v, t.w as int, t.w_inv as int, t.d as nat, i), t.d as nat, m) % (t.q as int) == if m > i {
            (v[i] * t.d) % (t.q as int)
        } else {
            0
        },
    decreases m,
{
    let q = t.q as int;
    let d = t.d as nat;
    let g = inverse_trip_terms(v, t.w as int, t.w_inv as int, d, i);
    if m == 0 {
        lemma_small_mod(0, q as nat);
    } else {
        let k = m - 1;
        lemma_cols_pick_point(t, v, i, (m - 1) as nat);
        lemma_col_is_scaled_point_orth(v, t.w as int, t.w_inv as int, d, i, k, d);
        lemma_point_orthogonality(t.w as int, t.w_inv as int, d, q, i, k);
        let o = sum_f(
            |j: int| pow(t.w as int, point_exponent(i as nat, d) * j as nat) * pow(t.w_inv as int, point_exponent(k as nat, d) * j as nat),
            d,
        );
        lemma_mul_mod_noop_general(v[k] as int, o, q);
        lemma_mul_mod_noop_general(v[k] as int, d as int, q);
        let prev = by_cols(g, d, (m - 1) as nat);
        lemma_add_mod_noop(prev, v[k] * o, q);
        lemma_small_mod(0, q as nat);
        if k != i {
            lemma_mul_basics(v[k] as int);
        }
        lemma_mod_twice(v[i] * d, q);
        lemma_mod_twice(v[k] * o, q);
    }
}

/// The forward transform undoes the backward one: evaluating the
/// interpolation of `v` at the table's points gives `v` back.
pub proof fn lemma_ntt_inverse_round_trip(t: crate::ntt::NttTable, v: Seq<u64>)
    requires
        t.wf(),
        v.len() == t.d,
        reduced(v, t.q as int),
    ensures
        ntt_forward_spec(ntt_backward_spec(v, t.w_inv as int, t.inv_d as int, t.q as int), t.w as int, t.q as int) == v,
{
    let q = t.q as int;
    let d = t.d as nat;
    let b = ntt_backward_spec(v, t.w_inv as int, t.inv_d as int, q);
    let f = ntt_forward_spec(b, t.w as int, q);
    assert forall|i: int| 0 <= i < d implies #[trigger] f[i] == v[i] by {
        let g = inverse_trip_terms(v, t.w as int, t.w_inv as int, d, i);
        let x = pow(t.w as int, point_exponent(i as nat, d));
        lemma_eval_rows(t, v, i, d);
        lemma_sum_swap(g, d, d);
        lemma_cols_pick_point(t, v, i, d);
        lemma_mod_twice(x, q);
        lemma_eval_congruent(b, x % q, x, d, q);
        lemma_mod_bound(eval_sum(b, x % q, d), q);
        let c = by_rows(g, d, d);
        // inv_d c ≡ inv_d v_i d ≡ v_i
        lemma_mul_mod_noop_general(t.inv_d as int, c, q);
        lemma_mul_mod_noop_general(t.inv_d as int, v[i] * d, q);
        assert((t.inv_d as int) * (v[i] * d) == v[i] * (d * t.inv_d)) by (nonlinear_arith);
        lemma_mul_mod_noop_general(v[i] as int, d * t.inv_d, q);
        lemma_small_mod(v[i] as nat, q as nat);
    };
    assert(f =~= v);
}

/// `mul_term(k, i, j) x^k` for fixed `i`: the contribution of `a_i b_j` to
/// coefficient `k` of the product, times `x^k`.
pub open spec fn inner_terms(a: Seq<u64>, b: Seq<u64>, d: int, x: int, i: int) -> spec_fn(int, int) -> int {
    |k: int, j: int| mul_term(a, b, d, k, i, j) * pow(x, k as nat)
}

/// `row_sum(k, i) x^k`: row `i` of coefficient `k` of the product, times `x^k`.
pub open spec fn outer_terms(a: Seq<u64>, b: Seq<u64>, d: int, x: int) -> spec_fn(int, int) -> int {
    |k: int, i: int| row_sum(a, b, d, k, i, d as nat) * pow(x, k as nat)
}

proof fn lemma_inner_row(a: Seq<u64>, b: Seq<u64>, d: int, x: int, i: int, k: int, n: nat)
    ensures
        row_total(inner_terms(a, b, d, x, i), k, n) == row_sum(a, b, d, k, i, n) * pow(x, k as nat),
    decreases n,
{
    if n > 0 {
        lemma_inner_row(a, b, d, x, i, k, (n - 1) as nat);
        lemma_mul_is_distributive_add_other_way(pow(x, k as nat), row_sum(a, b, d, k, i, (n - 1) as nat), mul_term(a, b, d, k, i, n - 1));
    }
}

proof fn lemma_outer_row(a: Seq<u64>, b: Seq<u64>, d: int, x: int, k: int, m: nat)
    ensures
        row_total(outer_terms(a, b, d, x), k, m) == conv_sum(a, b, d, k, m) * pow(x, k as nat),
    decreases m,
{
    if m > 0 {
        lemma_outer_row(a, b, d, x, k, (m - 1) as nat);
        lemma_mul_is_distributive_add_other_way(pow(x, k as nat), conv_sum(a, b, d, k, (m - 1) as nat), row_sum(a, b, d, k, m - 1, d as nat));
    }
}

proof fn lemma_outer_col(a: Seq<u64>, b: Seq<u64>, d: int, x: int, i: int, n: nat)
    ensures
        col_total(outer_terms(a, b, d, x), i, n) == by_rows(inner_terms(a, b, d, x, i), n, d as nat),
    decreases n,
{
    if n > 0 {
        lemma_outer_col(a, b, d, x, i, (n - 1) as nat);
        lemma_inner_row(a, b, d, x, i, n - 1, d as nat);
    }
}

/// `x^d ≡ -1` folds `X^d` back to `-1`: the terms of `a_i b_j` over all
/// coefficients add up to `a_i b_j x^(i + j)` modulo `q`.
proof fn lemma_inner_col(a: Seq<u64>, b: Seq<u64>, d: int, x: int, q: int, i: int, j: int)
    requires
        q >= 2,
        d >= 1,
        0 <= i < d,
        0 <= j < d,
        pow(x, d as nat) % q == q - 1,
    ensures
        col_total(inner_terms(a, b, d, x, i), j, d as nat) % q == (a[i] * b[j] * pow(x, (i + j) as nat)) % q,
{
    let g = inner_terms(a, b, d, x, i);
    let f = |k: int| g(k, j);
    let kk = if i + j < d { i + j } else { i + j - d };
    lemma_col_as_sum(g, j, d as nat);
    assert forall|k: int| 0 <= k < d && k != kk implies #[trigger] f(k) == 0 by {
        assert(mul_term(a, b, d, k, i, j) == 0);
    };
    lemma_sum_single(f, d as nat, kk);
    let ab = a[i] * b[j];
    if i + j < d {
        assert(f(kk) == ab * pow(x, (i + j) as nat));
    } else {
        // -ab x^(i+j-d) ≡ ab x^(i+j-d) x^d
        let e = (i + j - d) as nat;
        assert(f(kk) == -ab * pow(x, e));
        lemma_pow_adds(x, e, d as nat);
        let pe = pow(x, e);
        let pd = pow(x, d as nat);
        assert(ab * pow(x, (i + j) as nat) == (ab * pe) * pd) by (nonlinear_arith)
            requires pow(x, (i + j) as nat) == pe * pd;
        lemma_mul_mod_noop_general(ab * pe, pd, q);
        lemma_fundamental_div_mod_converse(-1, q, -1, q - 1);
        lemma_mul_mod_noop_general(ab * pe, -1, q);
        assert((ab * pe) * -1 == -ab * pe) by (nonlinear_arith);
    }
}

proof fn lemma_col_as_sum(g: spec_fn(int, int) -> int, j: int, n: nat)
    ensures
        col_total(g, j, n) == sum_f(|k: int| g(k, j), n),
    decreases n,
{
    if n > 0 {
        lemma_col_as_sum(g, j, (n - 1) as nat);
    }
}

/// `sum_{j < m} a_i b_j x^(i+j)`, modulo `q`, collected column by column.
proof fn lemma_inner_cols(a: Seq<u64>, b: Seq<u64>, d: int, x: int, q: int, i: int, m: nat)
    requires
        q >= 2,
        d >= 1,
        0 <= i < d,
        m <= d,
        pow(x, d as nat) % q == q - 1,
    ensures
        by_cols(inner_terms(a, b, d, x, i), d as nat, m) % q == (a[i] * pow(x, i as nat) * eval_sum(b, x, m)) % q,
    decreases m,
{
    if m == 0 {
        lemma_mul_basics(a[i] * pow(x, i as nat));
    } else {
        let j = m - 1;
        lemma_inner_cols(a, b, d, x, q, i, (m - 1) as nat);
        lemma_inner_col(a, b, d, x, q, i, j);
        let prev = by_cols(inner_terms(a, b, d, x, i), d as nat, (m - 1) as nat);
        let col = col_total(inner_terms(a, b, d, x, i), j, d as nat);
        let c = a[i] * pow(x, i as nat);
        let ev = eval_sum(b, x, (m - 1) as nat);
        lemma_pow_adds(x, i as nat, j as nat);
        assert(c * (ev + b[j] * pow(x, j as nat)) == c * ev + a[i] * b[j] * pow(x, (i + j) as nat)) by (nonlinear_arith)
            requires c == a[i] * pow(x, i as nat), pow(x, (i + j) as nat) == pow(x, i as nat) * pow(x, j as nat);
        lemma_add_mod_noop(prev, col, q);
        lemma_add_mod_noop(c * ev, a[i] * b[j] * pow(x, (i + j) as nat), q);
    }
}

/// `sum_{i < m} a_i x^i B(x)`, modulo `q`, collected column by column.
proof fn lemma_outer_cols(a: Seq<u64>, b: Seq<u64>, d: int, x: int, q: int, m: nat)
    requires
        q >= 2,
        d >= 1,
        m <= d,
        pow(x, d as nat) % q == q - 1,
    ensures
        by_cols(outer_terms(a, b, d, x), d as nat, m) % q == (eval_sum(a, x, m) * eval_sum(b, x, d as nat)) % q,
    decreases m,
{
    if m == 0 {
        lemma_mul_basics(eval_sum(b, x, d as nat));
    } else {
        let i = m - 1;
        lemma_outer_cols(a, b, d, x, q, (m - 1) as nat);
        lemma_outer_col(a, b, d, x, i, d as nat);
        lemma_sum_swap(inner_terms(a, b, d, x, i), d as nat, d as nat);
        lemma_inner_cols(a, b, d, x, q, i, d as nat);
        let prev = by_cols(outer_terms(a, b, d, x), d as nat, (m - 1) as nat);
        let col = col_total(outer_terms(a, b, d, x), i, d as nat);
        let bx = eval_sum(b, x, d as nat);
        let ea = eval_sum(a, x, (m - 1) as nat);
        assert((ea + a[i] * pow(x, i as nat)) * bx == ea * bx + a[i] * pow(x, i as nat) * bx) by (nonlinear_arith);
        lemma_add_mod_noop(prev, col, q);
        lemma_add_mod_noop(ea * bx, a[i] * pow(x, i as nat) * bx, q);
    }
}

/// Evaluation at a root of `X^d + 1` turns the negacyclic product into a
/// product of values: `(a b)(x) ≡ a(x) b(x) (mod q)`.
proof fn lemma_eval_mul(a: Seq<u64>, b: Seq<u64>, d: nat, x: int, q: int)
    requires
        2 <= q <= u64::MAX,
        d >= 1,
        a.len() == d,
        b.len() == d,
        pow(x, d) % q == q - 1,
    ensures
        eval_sum(cyclo_mul(a, b, d as int, q), x, d) % q == (eval_sum(a, x, d) * eval_sum(b, x, d)) % q,
{
    let c = cyclo_mul(a, b, d as int, q);
    let go = outer_terms(a, b, d as int, x);
    lemma_eval_conv(a, b, d, x, q, d);
    lemma_sum_swap(go, d, d);
    lemma_outer_cols(a, b, d as int, x, q, d);
}

/// `c(x) ≡ sum_{k < n} conv_sum(k) x^k`, collected row by row.
proof fn lemma_eval_conv(a: Seq<u64>, b: Seq<u64>, d: nat, x: int, q: int, n: nat)
    requires
        2 <= q <= u64::MAX,
        n <= d,
    ensures
        eval_sum(cyclo_mul(a, b, d as int, q), x, n) % q == by_rows(outer_terms(a, b, d as int, x), n, d) % q,
    decreases n,
{
    if n > 0 {
        let k = n - 1;
        let c = cyclo_mul(a, b, d as int, q);
        lemma_eval_conv(a, b, d, x, q, (n - 1) as nat);
        lemma_outer_row(a, b, d as int, x, k, d);
        let cs = conv_sum(a, b, d as int, k, d);
        lemma_mod_bound(cs, q);
        assert(c[k] as int == cs % q);
        lemma_mul_mod_noop_general(cs, pow(x, k as nat), q);
        lemma_mul_mod_noop_general(c[k] as int, pow(x, k as nat), q);
        lemma_mod_twice(cs, q);
        let pe = eval_sum(c, x, (n - 1) as nat);
        let pr = by_rows(outer_terms(a, b, d as int, x), (n - 1) as nat, d);
        lemma_add_mod_noop(pe, c[k] * pow(x, k as nat), q);
        lemma_add_mod_noop(pr, cs * pow(x, k as nat), q);
    }
}

/// Entry-wise product of two transforms, modulo `q`.
pub open spec fn pointwise_mul(u: Seq<u64>, v: Seq<u64>, q: int) -> Seq<u64> {
    Seq::new(u.len(), |k: int| ((u[k] * v[k]) % q) as u64)
}

/// Every evaluation point `x = w^(2 rev(k) + 1) mod q` is a root of `X^d + 1`.
proof fn lemma_point_is_root(w: int, d: nat, q: int, k: nat)
    requires
        q >= 2,
        pow(w, d) % q == q - 1,
    ensures
        pow(pow(w, point_exponent(k, d)) % q, d) % q == q - 1,
{
    let e = point_exponent(k, d);
    let r = ((e - 1) / 2) as nat;
    let x = pow(w, e);
    lemma_mod_twice(x, q);
    lemma_mod_mul_equivalent_pow(x % q, x, d, q);
    lemma_pow_multiplies(w, e, d);
    lemma_pow_multiplies(w, d, e);
    lemma_mul_is_commutative(e as int, d as int);
    assert(pow(w, d) % q == (-1int) % q) by {
        lemma_fundamental_div_mod_converse(-1, q, -1, q - 1);
    };
    lemma_mod_mul_equivalent_pow(pow(w, d), -1, e, q);
    // (-1)^(2r+1) = -1
    assert(e == 2 * r + 1);
    lemma_pow_adds(-1, 2 * r, 1);
    lemma_pow_multiplies(-1, 2, r);
    lemma_square_is_pow2(-1);
    lemma1_pow(r);
    lemma_pow1(-1);
    lemma_fundamental_div_mod_converse(-1, q, -1, q - 1);
}

/// Transforms turn the product in `Z_q[X]/(X^d + 1)` into the entry-wise
/// product: `ntt^-1(ntt(a) * ntt(b)) = a b`.
pub proof fn lemma_ntt_multiplicative(t: crate::ntt::NttTable, a: Seq<u64>, b: Seq<u64>)
    requires
        t.wf(),
        a.len() == t.d,
        b.len() == t.d,
        reduced(a, t.q as int),
        reduced(b, t.q as int),
    ensures
        ntt_backward_spec(
            pointwise_mul(ntt_forward_spec(a, t.w as int, t.q as int), ntt_forward_spec(b, t.w as int, t.q as int), t.q as int),
            t.w_inv as int,
            t.inv_d as int,
            t.q as int,
        ) == cyclo_mul(a, b, t.d as int, t.q as int),
{
    let q = t.q as int;
    let d = t.d as nat;
    let w = t.w as int;
    let c = cyclo_mul(a, b, d as int, q);
    let fa = ntt_forward_spec(a, w, q);
    let fb = ntt_forward_spec(b, w, q);
    let fc = ntt_forward_spec(c, w, q);
    let pm = pointwise_mul(fa, fb, q);
    assert forall|k: int| 0 <= k < d implies #[trigger] pm[k] == fc[k] by {
        let x = pow(w, point_exponent(k as nat, d)) % q;
        lemma_point_is_root(w, d, q, k as nat);
        lemma_eval_mul(a, b, d, x, q);
        let ea = eval_sum(a, x, d);
        let eb = eval_sum(b, x, d);
        lemma_mod_bound(ea, q);
        lemma_mod_bound(eb, q);
        lemma_mod_bound(eval_sum(c, x, d), q);
        lemma_mul_mod_noop_general(ea, eb, q);
        lemma_mod_bound((ea % q) * (eb % q), q);
    };
    assert(pm =~= fc);
    assert forall|k: int| 0 <= k < d implies #[trigger] c[k] < q by {
        lemma_mod_bound(conv_sum(a, b, d as int, k, d), q);
    };
    lemma_ntt_round_trip(t, c);
}

} // verus!
