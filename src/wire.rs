//! The response wire format: coefficients of a fixed bit width, written
//! back to back as one little-endian bit stream and cut into bytes.
use crate::gadget::{digit, lemma_digit_sum};
use crate::ntt::pow2_of;
use vstd::arithmetic::div_mod::*;
use vstd::arithmetic::mul::*;
use vstd::arithmetic::power::*;
use vstd::arithmetic::power2::*;
use vstd::prelude::*;

verus! {

/// Bit `t` of the stream holding `coeffs` at `bits` bits each, lowest bit first.
pub open spec fn coeff_stream_bit(coeffs: Seq<u64>, bits: nat, t: int) -> int {
    if 0 <= t < coeffs.len() * bits {
        (coeffs[t / bits as int] as int / pow2((t % bits as int) as nat) as int) % 2
    } else {
        0
    }
}

/// Bit `t` of the stream held by `bytes`, lowest bit first.
pub open spec fn byte_stream_bit(bytes: Seq<u8>, t: int) -> int {
    if 0 <= t < bytes.len() * 8 {
        (bytes[t / 8] as int / pow2((t % 8) as nat) as int) % 2
    } else {
        0
    }
}

/// `sum_{u < m} bit(base + u) 2^u` for the bits of the coefficient stream.
pub open spec fn coeff_bits_value(coeffs: Seq<u64>, bits: nat, base: int, m: nat) -> int
    decreases m,
{
    if m == 0 {
        0
    } else {
        coeff_bits_value(coeffs, bits, base, (m - 1) as nat) + coeff_stream_bit(coeffs, bits, base + m - 1) * pow2(
            (m - 1) as nat,
        )
    }
}

/// `sum_{u < m} bit(base + u) 2^u` for the bits of the byte stream.
pub open spec fn byte_bits_value(bytes: Seq<u8>, base: int, m: nat) -> int
    decreases m,
{
    if m == 0 {
        0
    } else {
        byte_bits_value(bytes, base, (m - 1) as nat) + byte_stream_bit(bytes, base + m - 1) * pow2((m - 1) as nat)
    }
}

/// The number of bytes that `n` coefficients of `bits` bits take: `ceil(n bits / 8)`.
pub open spec fn packed_len(n: nat, bits: nat) -> nat {
    ((n * bits + 7) / 8) as nat
}

proof fn lemma_stream_bit_is_bit(coeffs: Seq<u64>, bits: nat, t: int)
    requires
        bits >= 1,
    ensures
        0 <= coeff_stream_bit(coeffs, bits, t) <= 1,
{
    if 0 <= t < coeffs.len() * bits {
        lemma_pow2_pos((t % bits as int) as nat);
        lemma_div_pos_is_pos(coeffs[t / bits as int] as int, pow2((t % bits as int) as nat) as int);
        lemma_mod_pos_bound(coeffs[t / bits as int] as int / pow2((t % bits as int) as nat) as int, 2);
    }
}

proof fn lemma_coeff_bits_bound(coeffs: Seq<u64>, bits: nat, base: int, m: nat)
    requires
        bits >= 1,
    ensures
        0 <= coeff_bits_value(coeffs, bits, base, m) < pow2(m),
    decreases m,
{
    if m == 0 {
        lemma2_to64();
    } else {
        lemma_coeff_bits_bound(coeffs, bits, base, (m - 1) as nat);
        lemma_stream_bit_is_bit(coeffs, bits, base + m - 1);
        lemma_pow2_unfold(m);
        lemma_pow2_pos((m - 1) as nat);
        let b = coeff_stream_bit(coeffs, bits, base + m - 1);
        assert(b * pow2((m - 1) as nat) <= pow2((m - 1) as nat)) by (nonlinear_arith)
            requires 0 <= b <= 1, pow2((m - 1) as nat) > 0;
        assert(b * pow2((m - 1) as nat) >= 0) by (nonlinear_arith)
            requires 0 <= b <= 1, pow2((m - 1) as nat) > 0;
    }
}

/// Digit `v` of a sum of bits is that bit.
proof fn lemma_bit_of_bits_value(coeffs: Seq<u64>, bits: nat, base: int, m: nat, v: nat)
    requires
        bits >= 1,
        v < m,
    ensures
        (coeff_bits_value(coeffs, bits, base, m) / pow2(v) as int) % 2 == coeff_stream_bit(coeffs, bits, base + v),
    decreases m,
{
    let m1 = (m - 1) as nat;
    let x = coeff_bits_value(coeffs, bits, base, m1);
    let b = coeff_stream_bit(coeffs, bits, base + m1);
    lemma_coeff_bits_bound(coeffs, bits, base, m1);
    lemma_stream_bit_is_bit(coeffs, bits, base + m1);
    lemma_pow2_pos(v);
    if v == m1 {
        // (x + b 2^v) / 2^v == b since x < 2^v
        lemma_div_multiples_vanish_fancy(b, x, pow2(v) as int);
        lemma_mul_is_commutative(b, pow2(v) as int);
        lemma_small_mod(b as nat, 2);
    } else {
        lemma_bit_of_bits_value(coeffs, bits, base, m1, v);
        // b 2^(m-1) == (2 b 2^(m-2-v)) 2^v
        let k = (m1 - v) as nat;
        lemma_pow2_adds(v, k);
        lemma_pow2_unfold(k);
        let pk1 = pow2((k - 1) as nat) as int;
        let pv = pow2(v) as int;
        assert(b * pow2(m1) == pv * (2 * b * pk1)) by (nonlinear_arith)
            requires pow2(m1) == pv * pow2(k), pow2(k) == 2 * pk1, m1 == v + k;
        lemma_hoist_over_denominator(x, 2 * b * pk1, pv as nat);
        lemma_mul_is_commutative(2 * b * pk1, pv);
        assert(2 * b * pk1 == 2 * (b * pk1)) by (nonlinear_arith);
        lemma_mod_multiples_vanish(b * pk1, x / pv, 2);
    }
}

/// Packs coefficients of `bits` bits each into bytes: bit `u` of byte `k`
/// is bit `8k + u` of the stream of coefficients, lowest bits first.
pub fn pack_bits(coeffs: &Vec<u64>, bits: usize) -> (r: Vec<u8>)
    requires
        1 <= bits <= 63,
        coeffs@.len() * bits + 7 <= usize::MAX,
    ensures
        r@.len() == packed_len(coeffs@.len() as nat, bits as nat),
        forall|k: int| 0 <= k < r@.len() ==> #[trigger] r@[k] as int == coeff_bits_value(coeffs@, bits as nat, 8 * k, 8),
{
    let total = coeffs.len() * bits;
    let nbytes = (total + 7) / 8;
    let mut out: Vec<u8> = Vec::new();
    let mut k: usize = 0;
    while k < nbytes
        invariant
            1 <= bits <= 63,
            total == coeffs@.len() * bits,
            nbytes == packed_len(coeffs@.len() as nat, bits as nat),
            k <= nbytes,
            out@.len() == k,
            forall|kk: int| 0 <= kk < k ==> #[trigger] out@[kk] as int == coeff_bits_value(coeffs@, bits as nat, 8 * kk, 8),
        decreases nbytes - k,
    {
        let mut byte: u64 = 0;
        let mut u: usize = 0;
        proof {
            lemma2_to64();
        }
        while u < 8
            invariant
                1 <= bits <= 63,
                total == coeffs@.len() * bits,
                k < nbytes,
                nbytes == packed_len(coeffs@.len() as nat, bits as nat),
                u <= 8,
                byte as int == coeff_bits_value(coeffs@, bits as nat, 8 * k, u as nat),
                byte < pow2(u as nat),
            decreases 8 - u,
        {
            proof {
                assert(8 * k + 8 <= total + 7 + 1) by (nonlinear_arith)
                    requires k < nbytes, nbytes == (total + 7) / 8;
            }
            let t = 8 * k + u;
            proof {
                lemma_fundamental_div_mod(t as int, bits as int);
                lemma_mod_pos_bound(t as int, bits as int);
                lemma_pow2_pos((t % bits) as nat);
                if t < total {
                    if t / bits >= coeffs@.len() {
                        lemma_mul_inequality(coeffs@.len() as int, (t / bits) as int, bits as int);
                        lemma_mul_is_commutative(coeffs@.len() as int, bits as int);
                        lemma_mul_is_commutative((t / bits) as int, bits as int);
                    }
                }
            }
            let bit: u64 = if t < total {
                let c = coeffs[t / bits];
                let p = pow2_of(t % bits);
                (c / p) % 2
            } else {
                0
            };
            proof {
                assert(bit as int == coeff_stream_bit(coeffs@, bits as nat, t as int));
                lemma_stream_bit_is_bit(coeffs@, bits as nat, t as int);
                lemma_pow2_unfold((u + 1) as nat);
                lemma2_to64();
                if u < 8 {
                    lemma_pow2_strictly_increases((u + 1) as nat, 9);
                }
            }
            let p = pow2_of(u);
            proof {
                assert(byte + bit * p < 2 * p) by (nonlinear_arith)
                    requires byte < p, 0 <= bit <= 1;
            }
            byte = byte + bit * p;
            u = u + 1;
        }
        proof {
            lemma2_to64();
        }
        out.push(byte as u8);
        k = k + 1;
    }
    out
}

/// Reads `n` coefficients of `bits` bits each back from packed bytes.
pub fn unpack_bits(bytes: &Vec<u8>, bits: usize, n: usize) -> (r: Vec<u64>)
    requires
        1 <= bits <= 63,
        n * bits <= usize::MAX,
        bytes@.len() * 8 <= usize::MAX,
    ensures
        r@.len() == n,
        forall|i: int| 0 <= i < n ==> #[trigger] r@[i] as int == byte_bits_value(bytes@, i * bits, bits as nat),
{
    let nbits = bytes.len() * 8;
    let mut out: Vec<u64> = Vec::new();
    let mut i: usize = 0;
    while i < n
        invariant
            1 <= bits <= 63,
            n * bits <= usize::MAX,
            nbits == bytes@.len() * 8,
            i <= n,
            out@.len() == i,
            forall|ii: int| 0 <= ii < i ==> #[trigger] out@[ii] as int == byte_bits_value(bytes@, ii * bits, bits as nat),
        decreases n - i,
    {
        proof {
            lemma_mul_inequality(i as int + 1, n as int, bits as int);
            assert((i + 1) * bits == i * bits + bits) by (nonlinear_arith);
        }
        let mut c: u64 = 0;
        let mut v: usize = 0;
        proof {
            lemma2_to64();
        }
        while v < bits
            invariant
                1 <= bits <= 63,
                i < n,
                (i + 1) * bits <= usize::MAX,
                (i + 1) * bits == i * bits + bits,
                nbits == bytes@.len() * 8,
                v <= bits,
                c as int == byte_bits_value(bytes@, i * bits, v as nat),
                c < pow2(v as nat),
            decreases bits - v,
        {
            let t = i * bits + v;
            proof {
                lemma_fundamental_div_mod(t as int, 8);
                lemma_mod_pos_bound(t as int, 8);
                lemma_pow2_pos((t % 8) as nat);
            }
            let bit: u64 = if t < nbits {
                let p = pow2_of(t % 8);
                ((bytes[t / 8] as u64) / p) % 2
            } else {
                0
            };
            proof {
                assert(bit as int == byte_stream_bit(bytes@, t as int));
                lemma_div_pos_is_pos(bytes@[(t / 8) as int] as int, pow2((t % 8) as nat) as int);
                lemma_mod_pos_bound(bytes@[(t / 8) as int] as int / pow2((t % 8) as nat) as int, 2);
                lemma_pow2_unfold((v + 1) as nat);
                lemma2_to64();
                lemma_pow2_strictly_increases((v + 1) as nat, 64);
            }
            let p = pow2_of(v);
            proof {
                assert(c + bit * p < 2 * p) by (nonlinear_arith)
                    requires c < p, 0 <= bit <= 1;
            }
            c = c + bit * p;
            v = v + 1;
        }
        out.push(c);
        i = i + 1;
    }
    out
}

proof fn lemma_bits_agree(p: Seq<u8>, c: Seq<u64>, bits: nat, base: int, m: nat)
    requires
        forall|t: int| base <= t < base + m ==> #[trigger] byte_stream_bit(p, t) == coeff_stream_bit(c, bits, t),
    ensures
        byte_bits_value(p, base, m) == coeff_bits_value(c, bits, base, m),
    decreases m,
{
    if m > 0 {
        lemma_bits_agree(p, c, bits, base, (m - 1) as nat);
        assert(byte_stream_bit(p, base + m - 1) == coeff_stream_bit(c, bits, base + m - 1));
    }
}

proof fn lemma_coeff_bits_digits(c: Seq<u64>, bits: nat, i: int, m: nat)
    requires
        bits >= 1,
        0 <= i < c.len(),
        m <= bits,
    ensures
        coeff_bits_value(c, bits, i * bits, m) == crate::gadget::digit_sum(c[i] as int, 2, m),
    decreases m,
{
    if m > 0 {
        let v = (m - 1) as nat;
        lemma_coeff_bits_digits(c, bits, i, v);
        let t = i * bits + v;
        lemma_fundamental_div_mod_converse(t, bits as int, i, v as int);
        crate::matrix::lemma_index_bound(i, v as int, c.len() as int, bits as int);
        lemma_pow2(v);
        assert(coeff_stream_bit(c, bits, t) == digit(c[i] as int, 2, v));
    }
}

/// Unpacking packed coefficients gives them back: reading coefficient `i`
/// of `bits` bits from the bytes that `pack_bits` wrote for `c` yields `c[i]`.
pub proof fn lemma_wire_round_trip(c: Seq<u64>, bits: nat, p: Seq<u8>, i: int)
    requires
        bits >= 1,
        forall|k: int| 0 <= k < c.len() ==> #[trigger] c[k] < pow2(bits),
        p.len() == packed_len(c.len(), bits),
        forall|k: int| 0 <= k < p.len() ==> #[trigger] p[k] as int == coeff_bits_value(c, bits, 8 * k, 8),
        0 <= i < c.len(),
    ensures
        byte_bits_value(p, i * bits, bits) == c[i],
{
    let n = c.len();
    lemma_fundamental_div_mod((n * bits + 7) as int, 8);
    lemma_mod_pos_bound((n * bits + 7) as int, 8);
    assert forall|t: int| i * bits <= t < i * bits + bits implies #[trigger] byte_stream_bit(p, t) == coeff_stream_bit(c, bits, t) by {
        assert(i * bits + bits <= n * bits) by (nonlinear_arith)
            requires i < n, bits >= 1;
        assert(t < p.len() * 8);
        lemma_fundamental_div_mod(t, 8);
        lemma_mod_pos_bound(t, 8);
        let k = t / 8;
        let u = (t % 8) as nat;
        lemma_bit_of_bits_value(c, bits, 8 * k, 8, u);
    };
    lemma_bits_agree(p, c, bits, i * bits, bits);
    lemma_coeff_bits_digits(c, bits, i, bits);
    lemma_digit_sum(c[i] as int, 2, bits);
    lemma_pow2(bits);
    lemma_small_mod(c[i] as nat, pow(2, bits) as nat);
}

} // verus!
