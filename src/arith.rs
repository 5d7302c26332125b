//! Modular integer arithmetic and the number-theory helpers that the
//! polynomial layers are built on.
use vstd::arithmetic::div_mod::*;
use vstd::arithmetic::mul::*;
use vstd::arithmetic::power::*;
use vstd::arithmetic::power2::*;
use vstd::prelude::*;

verus! {

/// Canonical representative of `x` modulo `q`.
pub open spec fn modq(x: int, q: int) -> int {
    x % q
}

/// Signed absolute value of a residue: `min(x, q - x)`.
pub open spec fn norm_spec(x: int, q: int) -> int {
    if x <= q - x {
        x
    } else {
        q - x
    }
}

/// `x` with its lowest `k` bits written in reverse order.
pub open spec fn rev_bits(x: nat, k: nat) -> nat
    decreases k,
{
    if k == 0 {
        0
    } else {
        (x % 2) * pow2((k - 1) as nat) + rev_bits(x / 2, (k - 1) as nat)
    }
}

/// `2^k == d`.
pub open spec fn is_log2(d: nat, k: nat) -> bool {
    pow2(k) == d
}

pub fn add_mod(a: u64, b: u64, q: u64) -> (r: u64)
    requires
        a < q,
        b < q,
    ensures
        r < q,
        r as int == modq(a + b, q as int),
{
    let s = a as u128 + b as u128;
    let r = if s >= q as u128 {
        (s - q as u128) as u64
    } else {
        s as u64
    };
    proof {
        if s >= q {
            lemma_fundamental_div_mod_converse(a + b, q as int, 1, r as int);
        } else {
            lemma_small_mod((a + b) as nat, q as nat);
        }
    }
    r
}

pub fn sub_mod(a: u64, b: u64, q: u64) -> (r: u64)
    requires
        a < q,
        b < q,
    ensures
        r < q,
        r as int == modq(a - b, q as int),
{
    let r = if a >= b {
        a - b
    } else {
        q - (b - a)
    };
    proof {
        if a >= b {
            lemma_small_mod((a - b) as nat, q as nat);
        } else {
            lemma_fundamental_div_mod_converse(a - b, q as int, -1, r as int);
        }
    }
    r
}

pub fn neg_mod(a: u64, q: u64) -> (r: u64)
    requires
        a < q,
    ensures
        r < q,
        r as int == modq(-a, q as int),
{
    sub_mod(0, a, q)
}

pub fn mul_mod(a: u64, b: u64, q: u64) -> (r: u64)
    requires
        q > 0,
    ensures
        r < q,
        r as int == modq(a * b, q as int),
{
    proof {
        lemma_mul_upper_bound(a as int, u64::MAX as int, b as int, u64::MAX as int);
    }
    let p = a as u128 * b as u128;
    (p % q as u128) as u64
}

/// `a^e mod q` by square and multiply.
pub fn pow_mod(a: u64, e: u64, q: u64) -> (r: u64)
    requires
        q > 0,
    ensures
        r < q,
        r as int == modq(pow(a as int, e as nat), q as int),
{
    let mut result: u64 = 1 % q;
    let mut base: u64 = a % q;
    let mut exp: u64 = e;
    proof {
        lemma_mod_twice(a as int, q as int);
        lemma_mod_mul_equivalent_pow(a as int, base as int, e as nat, q as int);
        lemma_mul_mod_noop_general(1, pow(base as int, e as nat), q as int);
    }
    while exp > 0
        invariant
            q > 0,
            result < q,
            base < q,
            modq(pow(a as int, e as nat), q as int) == modq(result * pow(base as int, exp as nat), q as int),
        decreases exp,
    {
        let old_result = result;
        let old_base = base;
        let old_exp = exp;
        if exp % 2 == 1 {
            result = mul_mod(result, base, q);
        }
        base = mul_mod(base, base, q);
        exp = exp / 2;
        proof {
            let b = old_base as int;
            let half = exp as nat;
            // b^(2h + bit) == (b^2)^h * b^bit
            lemma_pow_multiplies(b, 2, half);
            lemma_square_is_pow2(b);
            lemma_pow_adds(b, 2 * half, (old_exp % 2) as nat);
            lemma_pow1(b);
            lemma_pow0(b);
            assert(old_exp as nat == 2 * half + (old_exp % 2) as nat);
            lemma_small_mod(base as nat, q as nat);
            lemma_mod_mul_equivalent_pow(b * b, base as int, half, q as int);
            let pb = pow(b * b, half);
            let pbase = pow(base as int, half);
            if old_exp % 2 == 1 {
                assert(pow(b, old_exp as nat) == pb * b) by {
                    assert(pow(b, 2 * half) == pb);
                };
                let r0 = old_result as int;
                assert(r0 * (pb * b) == (r0 * b) * pb) by (nonlinear_arith);
                // (r*b) * (b^2)^h  ==  ((r*b) mod q) * ((b^2 mod q)^h)  (mod q)
                lemma_mul_mod_noop_general(r0 * b, pb, q as int);
                lemma_mul_mod_noop_general(result as int, pb, q as int);
                lemma_mul_mod_noop_general(result as int, pbase, q as int);
                assert(modq(pow(a as int, e as nat), q as int) == modq(r0 * (pb * b), q as int));
            } else {
                assert(pow(b, old_exp as nat) == pb) by {
                    assert(pow(b, 2 * half) == pb);
                };
                lemma_mul_mod_noop_general(old_result as int, pb, q as int);
                lemma_mul_mod_noop_general(old_result as int, pbase, q as int);
            }
        }
    }
    proof {
        lemma_pow0(base as int);
        lemma_small_mod(result as nat, q as nat);
    }
    result
}

/// Shoup's constant for multiplying by `b`: `floor(b 2^32 / q)`.
pub fn get_ratio32(b: u64, q: u64) -> (r: u64)
    requires
        0 < q,
        b < q,
        q < 0x4000_0000,
    ensures
        r == (b * 0x1_0000_0000) / (q as int),
        r < 0x1_0000_0000,
{
    let shifted = b << 32;
    proof {
        assert(shifted == b * 0x1_0000_0000) by (bit_vector)
            requires shifted == b << 32, b < 0x4000_0000;
        let x = (b * 0x1_0000_0000) as int;
        let rr = x / (q as int);
        lemma_fundamental_div_mod(x, q as int);
        lemma_mod_pos_bound(x, q as int);
        assert(rr < 0x1_0000_0000) by (nonlinear_arith)
            requires x == q * rr + x % (q as int), 0 <= x % (q as int), x == b * 0x1_0000_0000, b < q, q > 0;
    }
    shifted / q
}

/// Shoup's modular multiplication: with `ratio = floor(b 2^32 / q)`, the
/// product `a b` reduced to a representative in `[0, 2q)`, from one
/// multiplication by `ratio` and a shift in place of a division.
pub fn mod_mul32(a: u64, b: u64, ratio: u64, q: u64) -> (r: u64)
    requires
        0 < q < 0x4000_0000,
        b < q,
        a < 4 * q,
        ratio == (b * 0x1_0000_0000) / (q as int),
    ensures
        r < 2 * q,
        r as int % (q as int) == (a * b) % (q as int),
{
    let ghost big: int = 0x1_0000_0000;
    proof {
        lemma_fundamental_div_mod((b * big) as int, q as int);
        lemma_mod_pos_bound((b * big) as int, q as int);
        assert(ratio * q <= b * big) by (nonlinear_arith)
            requires (b * big) == q * ratio + (b * big) % (q as int), 0 <= (b * big) % (q as int);
        assert(ratio <= b * big / 1) by (nonlinear_arith)
            requires ratio * q <= b * big, q >= 1, ratio >= 0;
        assert(a * ratio < 0x1_0000_0000_0000_0000) by (nonlinear_arith)
            requires a < 4 * q, q < 0x4000_0000, ratio * q <= b * big, b < q, big == 0x1_0000_0000, ratio >= 0;
        assert(a * b < 0x4000_0000_0000_0000) by (nonlinear_arith)
            requires a < 4 * q, b < q, q < 0x4000_0000;
    }
    let prod = a * ratio;
    let quotient = prod >> 32;
    let ghost qt = quotient as int;
    proof {
        assert(quotient == prod / 0x1_0000_0000) by (bit_vector)
            requires quotient == prod >> 32;
        lemma_fundamental_div_mod((a * ratio) as int, big);
        lemma_mod_pos_bound((a * ratio) as int, big);
        // q quotient <= a b < q (quotient + 2)
        assert(q * qt <= a * b && a * b < q * (qt + 2)) by (nonlinear_arith)
            requires
                (a * ratio) == big * qt + (a * ratio) % big,
                0 <= (a * ratio) % big < big,
                (b * big) == q * ratio + (b * big) % (q as int),
                0 <= (b * big) % (q as int) < q,
                a < big,
                a >= 0,
                q > 0,
                big == 0x1_0000_0000;
    }
    let r = a * b - q * quotient;
    proof {
        assert(q * (qt + 2) == q * qt + 2 * q) by (nonlinear_arith);
        assert(r < 2 * q);
        assert(a * b == q * qt + r);
        lemma_mod_multiples_vanish(qt, r as int, q as int);
    }
    r
}

/// `x ≡ y (mod q)` implies `x^e ≡ y^e (mod q)`.
pub proof fn lemma_mod_mul_equivalent_pow(x: int, y: int, e: nat, q: int)
    requires
        q > 0,
        x % q == y % q,
    ensures
        pow(x, e) % q == pow(y, e) % q,
{
    lemma_pow_mod_noop(x, e, q);
    lemma_pow_mod_noop(y, e, q);
}

} // verus!
