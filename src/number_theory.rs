//! Number-theory helpers: logarithms, bit reversal, modular inverses,
//! roots of unity, the Chinese remainder map and plaintext scaling.
use crate::arith::{mul_mod, pow_mod, rev_bits, sub_mod};
use vstd::arithmetic::div_mod::*;
use vstd::arithmetic::mul::*;
use vstd::arithmetic::power::*;
use vstd::arithmetic::power2::*;
use vstd::prelude::*;

verus! {

/// `floor(log2(d))`, with `ilog2(0) == ilog2(1) == 0`.
pub open spec fn ilog2(d: nat) -> nat
    decreases d,
{
    if d <= 1 {
        0
    } else {
        1 + ilog2(d / 2)
    }
}

/// `d` is a power of two.
pub open spec fn is_pow2(d: nat) -> bool {
    pow2(ilog2(d)) == d
}

/// `x` has a multiplicative inverse modulo `m`.
pub open spec fn has_inverse(a: int, m: int) -> bool {
    exists|x: int| 0 <= x < m && #[trigger] ((a * x) % m) == 1int % m
}

/// `w^d ≡ -1 (mod q)`: for `d` a power of two, `w` has order exactly `2d`.
pub open spec fn is_sqrt_root(w: int, d: nat, q: int) -> bool {
    pow(w, d) % q == q - 1
}

/// The root candidate drawn from generator `g`: `g^((q-1)/(2d)) mod q`.
pub open spec fn root_candidate(g: int, d: nat, q: int) -> int {
    pow(g, ((q - 1) / (2 * (d as int))) as nat) % q
}

pub proof fn lemma_rev_bits_bound(x: nat, k: nat)
    ensures
        rev_bits(x, k) < pow2(k),
    decreases k,
{
    if k == 0 {
        lemma2_to64();
    } else {
        lemma_rev_bits_bound(x / 2, (k - 1) as nat);
        lemma_pow2_unfold(k);
        if x % 2 == 0 {
            assert((x % 2) * pow2((k - 1) as nat) == 0);
        } else {
            assert((x % 2) * pow2((k - 1) as nat) == pow2((k - 1) as nat));
        }
    }
}

/// The number of bits of `width`, which is a power of two.
pub fn log2_of(width: usize) -> (r: usize)
    requires
        width >= 1,
    ensures
        r as nat == ilog2(width as nat),
        r < 64,
{
    let mut w = width;
    let mut k: usize = 0;
    proof {
        lemma2_to64();
    }
    while w > 1
        invariant
            w >= 1,
            k + ilog2(w as nat) == ilog2(width as nat),
            k + w <= width,
            w as nat * pow2(k as nat) <= width,
        decreases w,
    {
        proof {
            lemma_pow2_unfold((k + 1) as nat);
            assert((w / 2) as nat * pow2((k + 1) as nat) <= w as nat * pow2(k as nat)) by (nonlinear_arith)
                requires pow2((k + 1) as nat) == 2 * pow2(k as nat), w >= 1;
        }
        w = w / 2;
        k = k + 1;
    }
    proof {
        lemma2_to64();
        if k >= 64 {
            if k > 64 {
                lemma_pow2_strictly_increases(64, k as nat);
            }
        }
    }
    k
}

/// Reverses the `log2(width)` low bits of `value`.
pub fn reverse_bits(width: usize, value: usize) -> (r: usize)
    requires
        width >= 1,
        is_pow2(width as nat),
        value < width,
    ensures
        r as nat == rev_bits(value as nat, ilog2(width as nat)),
        r < width,
{
    let k = log2_of(width);
    let mut y = value;
    let mut acc: usize = 0;
    let mut t: usize = 0;
    proof {
        lemma_pow2_pos(k as nat);
        lemma2_to64();
    }
    while t < k
        invariant
            t <= k,
            k == ilog2(width as nat),
            pow2(k as nat) == width,
            rev_bits(value as nat, k as nat) == acc * pow2((k - t) as nat) + rev_bits(y as nat, (k - t) as nat),
            acc < pow2(t as nat),
            pow2(t as nat) * pow2((k - t) as nat) == pow2(k as nat),
        decreases k - t,
    {
        let ghost m = (k - t) as nat;
        proof {
            lemma_pow2_unfold(m);
            lemma_pow2_unfold((t + 1) as nat);
            lemma_pow2_adds((t + 1) as nat, (m - 1) as nat);
            let b = (y % 2) as int;
            let p = pow2((m - 1) as nat) as int;
            assert(acc * (2 * p) + b * p == (2 * acc + b) * p) by (nonlinear_arith);
            assert(2 * acc + b < 2 * pow2(t as nat)) by (nonlinear_arith)
                requires acc < pow2(t as nat), b <= 1;
            assert(pow2((t + 1) as nat) <= width) by {
                if t + 1 < k {
                    lemma_pow2_strictly_increases((t + 1) as nat, k as nat);
                }
            };
        }
        acc = 2 * acc + y % 2;
        y = y / 2;
        t = t + 1;
    }
    proof {
        lemma2_to64();
        assert(rev_bits(y as nat, 0) == 0);
        assert(acc * pow2(0) == acc);
    }
    acc
}

/// Smallest `l` with `base^l >= x`.
pub fn ceil_log(base: u64, x: u64) -> (r: usize)
    requires
        base >= 2,
    ensures
        pow(base as int, r as nat) >= x,
        r == 0 || pow(base as int, (r - 1) as nat) < x,
{
    let mut pw: u128 = 1;
    let mut l: usize = 0;
    proof {
        lemma_pow0(base as int);
        lemma2_to64();
    }
    while pw < x as u128
        invariant
            base >= 2,
            pw == pow(base as int, l as nat),
            pw >= 1,
            l <= 64,
            pow2(l as nat) <= pw,
            l == 0 || pow(base as int, (l - 1) as nat) < x,
        decreases u128::MAX - pw,
    {
        proof {
            lemma_pow_adds(base as int, l as nat, 1);
            lemma_pow1(base as int);
            lemma_pow2_unfold((l + 1) as nat);
            assert(pw * base >= 2 * pw) by (nonlinear_arith)
                requires base >= 2, pw >= 0;
            assert(pw * base <= u64::MAX as int * u64::MAX as int) by (nonlinear_arith)
                requires base <= u64::MAX, pw <= u64::MAX, pw >= 0;
            lemma2_to64();
            if l >= 64 {
                if l > 64 {
                    lemma_pow2_strictly_increases(64, l as nat);
                }
            }
        }
        pw = pw * base as u128;
        l = l + 1;
    }
    l
}

/// Largest `l` with `base^l <= x`.
pub fn floor_log(base: u64, x: u64) -> (r: usize)
    requires
        base >= 2,
        x >= 1,
    ensures
        pow(base as int, r as nat) <= x,
        pow(base as int, (r + 1) as nat) > x,
{
    let mut pw: u64 = 1;
    let mut l: usize = 0;
    let limit = x / base;
    proof {
        lemma_pow0(base as int);
        lemma2_to64();
        lemma_fundamental_div_mod(x as int, base as int);
    }
    while pw <= limit
        invariant
            base >= 2,
            limit == x / base,
            x == base * limit + x % base,
            pw == pow(base as int, l as nat),
            1 <= pw <= x,
            l < 64,
            pow2(l as nat) <= pw,
        decreases x - pw,
    {
        proof {
            lemma_pow_adds(base as int, l as nat, 1);
            lemma_pow1(base as int);
            lemma_pow2_unfold((l + 1) as nat);
            assert(pw * base >= 2 * pw && pw * base <= x) by (nonlinear_arith)
                requires base >= 2, pw >= 1, pw <= limit, x == base * limit + x % base, x % base >= 0;
            lemma2_to64();
            if l + 1 >= 64 {
                if l + 1 > 64 {
                    lemma_pow2_strictly_increases(64, (l + 1) as nat);
                }
            }
        }
        pw = pw * base;
        l = l + 1;
    }
    proof {
        lemma_pow_adds(base as int, l as nat, 1);
        lemma_pow1(base as int);
        assert(pw * base > x) by (nonlinear_arith)
            requires base >= 2, pw > limit, x == base * limit + x % base, x % base < base;
    }
    l
}

proof fn lemma_divides_combination(g: int, a: int, m: int, x: int, k: int)
    requires
        g > 0,
        a % g == 0,
        m % g == 0,
    ensures
        (a * x - k * m) % g == 0,
{
    lemma_fundamental_div_mod(a, g);
    lemma_fundamental_div_mod(m, g);
    let a1 = a / g;
    let m1 = m / g;
    assert(a * x - k * m == (a1 * x - k * m1) * g) by (nonlinear_arith)
        requires a == g * a1, m == g * m1;
    lemma_mod_multiples_basic(a1 * x - k * m1, g);
}

/// The inverse of `a` modulo `m`, by the extended Euclidean algorithm.
pub fn mod_inverse(a: u64, m: u64) -> (r: Option<u64>)
    requires
        m >= 1,
    ensures
        r.is_some() <==> has_inverse(a as int, m as int),
        r matches Some(x) ==> x < m && (a as int * x) % (m as int) == 1int % (m as int),
{
    let mut old_r: u64 = a;
    let mut rr: u64 = m;
    let mut old_s: u64 = 1 % m;
    let mut s: u64 = 0;
    proof {
        lemma_mul_mod_noop_general(1, a as int, m as int);
        lemma_mod_self_0(m as int);
        lemma_small_mod(0nat, m as nat);
    }
    while rr != 0
        invariant
            m >= 1,
            old_s < m,
            s < m,
            (old_s as int * a as int) % (m as int) == old_r as int % (m as int),
            (s as int * a as int) % (m as int) == rr as int % (m as int),
            forall|d: int|
                d > 0 && #[trigger] (old_r as int % d) == 0 && rr as int % d == 0 ==> a as int % d == 0
                    && m as int % d == 0,
        decreases rr,
    {
        let quot = old_r / rr;
        let rem = old_r % rr;
        let qs = mul_mod(quot, s, m);
        let new_s = sub_mod(old_s, qs, m);
        proof {
            let mi = m as int;
            lemma_fundamental_div_mod(old_r as int, rr as int);
            // rem == old_r - quot * rr, so rem ≡ (old_s - quot * s) * a
            lemma_euclid_step(a as int, mi, old_s as int, s as int, old_r as int, rr as int, quot as int, new_s as int);
            assert forall|d: int| d > 0 && #[trigger] (rr as int % d) == 0 && rem as int % d == 0 implies a as int
                % d == 0 && m as int % d == 0 by {
                lemma_fundamental_div_mod(rr as int, d);
                lemma_fundamental_div_mod(rem as int, d);
                let r1 = rr as int / d;
                let e1 = rem as int / d;
                assert(old_r == (quot * r1 + e1) * d) by (nonlinear_arith)
                    requires old_r == quot * rr + rem, rr == d * r1, rem == d * e1;
                lemma_mod_multiples_basic(quot * r1 + e1, d);
            };
        }
        old_r = rr;
        rr = rem;
        old_s = s;
        s = new_s;
    }
    if old_r == 1 {
        proof {
            assert(has_inverse(a as int, m as int)) by {
                lemma_mul_is_commutative(old_s as int, a as int);
            };
            lemma_mul_is_commutative(old_s as int, a as int);
        }
        Some(old_s)
    } else {
        proof {
            let g = old_r as int;
            lemma_small_mod(0nat, m as nat);
            if g == 0 {
                // every d > 0 would divide m, which fails for d == m + 1
                let d = m as int + 1;
                lemma_small_mod(0nat, d as nat);
                assert(old_r as int % d == 0);
                lemma_small_mod(m as nat, d as nat);
            }
            assert(a as int % g == 0 && m as int % g == 0) by {
                lemma_mod_self_0(g);
                lemma_mod_of_zero_is_zero(g);
            };
            if has_inverse(a as int, m as int) {
                let x = choose|x: int| 0 <= x < m && #[trigger] ((a * x) % (m as int)) == 1int % (m as int);
                let mi = m as int;
                let k = (a * x) / mi;
                lemma_fundamental_div_mod(a * x, mi);
                lemma_divides_combination(g, a as int, mi, x, k);
                if mi == 1 {
                    assert(m as int % g == 0);
                    assert(g > 1);
                    lemma_small_mod(1nat, g as nat);
                } else {
                    lemma_small_mod(1nat, mi as nat);
                    assert(a * x - k * mi == 1);
                    lemma_small_mod(1nat, g as nat);
                }
            }
        }
        None
    }
}

proof fn lemma_euclid_step(a: int, m: int, old_s: int, s: int, old_r: int, rr: int, quot: int, new_s: int)
    requires
        m > 0,
        0 <= old_s < m,
        (old_s * a) % m == old_r % m,
        (s * a) % m == rr % m,
        new_s == (old_s - (quot * s) % m) % m,
    ensures
        (new_s * a) % m == (old_r - quot * rr) % m,
{
    let x = old_s - quot * s;
    lemma_small_mod(old_s as nat, m as nat);
    lemma_sub_mod_noop(old_s, quot * s, m);
    lemma_mod_twice(quot * s, m);
    assert(new_s % m == x % m) by {
        lemma_mod_twice(old_s - (quot * s) % m, m);
        lemma_sub_mod_noop(old_s, (quot * s) % m, m);
    };
    lemma_mul_mod_noop_general(new_s, a, m);
    lemma_mul_mod_noop_general(x, a, m);
    assert(x * a == old_s * a - quot * (s * a)) by (nonlinear_arith)
        requires x == old_s - quot * s;
    lemma_sub_mod_noop(old_s * a, quot * (s * a), m);
    lemma_mul_mod_noop_general(quot, s * a, m);
    lemma_mul_mod_noop_general(quot, rr, m);
    lemma_sub_mod_noop(old_r, quot * rr, m);
}

proof fn lemma_mod_of_zero_is_zero(g: int)
    requires
        g > 0,
    ensures
        0int % g == 0,
{
    lemma_small_mod(0nat, g as nat);
}


/// A root `w` with `w^d ≡ -1 (mod q)`: `w = g^((q-1)/(2d)) mod q` for the
/// least `g >= 2` whose candidate works. For `d` a power of two such a `w`
/// is a primitive `2d`-th root of unity.
pub fn find_sqrt_primitive_root(d: usize, q: u64) -> (r: Option<u64>)
    requires
        d >= 1,
        q >= 2,
    ensures
        r is None <==> ((q - 1) % (2 * d) != 0 || forall|g: int|
            2 <= g < q ==> !is_sqrt_root(#[trigger] root_candidate(g, d as nat, q as int), d as nat, q as int)),
        r matches Some(w) ==> w < q && is_sqrt_root(w as int, d as nat, q as int) && exists|g: int|
            2 <= g < q && w == root_candidate(g, d as nat, q as int) && forall|h: int|
                2 <= h < g ==> !is_sqrt_root(#[trigger] root_candidate(h, d as nat, q as int), d as nat, q as int),
{
    let two_d: u128 = 2 * (d as u128);
    if ((q - 1) as u128) % two_d != 0 {
        assert((q - 1) % (2 * d) != 0);
        return None;
    }
    let e: u64 = ((q - 1) as u128 / two_d) as u64;
    assert(e == (q - 1) / (2 * (d as int)));
    let mut g: u64 = 2;
    while g < q
        invariant
            2 <= g <= q,
            q >= 2,
            e == (q - 1) / (2 * (d as int)),
            (q - 1) % (2 * d) == 0,
            forall|h: int| 2 <= h < g ==> !is_sqrt_root(#[trigger] root_candidate(h, d as nat, q as int), d as nat, q as int),
        decreases q - g,
    {
        let w = pow_mod(g, e, q);
        let t = pow_mod(w, d as u64, q);
        if t == q - 1 {
            proof {
                assert(w == root_candidate(g as int, d as nat, q as int));
                assert(is_sqrt_root(root_candidate(g as int, d as nat, q as int), d as nat, q as int));
                assert((q - 1) % (2 * d) == 0);
                assert(!(forall|g: int|
                    2 <= g < q ==> !is_sqrt_root(#[trigger] root_candidate(g, d as nat, q as int), d as nat, q as int)));
            }
            return Some(w);
        }
        g = g + 1;
    }
    None
}

} // verus!
