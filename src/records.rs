//! Records as polynomials: the byte encoding, and the interleaving of
//! `pack_ratio` small records into one large polynomial in bit-reversed
//! order, with its inverse.
use crate::arith::rev_bits;
use crate::number_theory::{ilog2, is_pow2, lemma_rev_bits_bound, reverse_bits};
use vstd::arithmetic::div_mod::*;
use vstd::arithmetic::mul::*;
use vstd::arithmetic::power2::*;
use vstd::prelude::*;

verus! {

/// Reversing the low `m` bits is reversing the low `m - 1` bits, shifted
/// up by one, with the top bit moved to the bottom.
proof fn lemma_rev_bits_top(x: nat, m: nat)
    requires
        m >= 1,
        x < pow2(m),
    ensures
        rev_bits(x, m) == 2 * rev_bits(x % pow2((m - 1) as nat), (m - 1) as nat) + x / pow2((m - 1) as nat),
    decreases m,
{
    lemma_pow2_pos((m - 1) as nat);
    if m == 1 {
        lemma2_to64();
        assert(rev_bits(x % 1, 0) == 0);
        assert(rev_bits(x / 2, 0) == 0);
        lemma_small_mod(x, 2);
    } else {
        let m1 = (m - 1) as nat;
        let m2 = (m - 2) as nat;
        let c = pow2(m2);
        lemma_pow2_unfold(m);
        lemma_pow2_unfold(m1);
        lemma_pow2_pos(m2);
        // x / 2 < 2^(m-1)
        lemma_fundamental_div_mod(x as int, 2);
        lemma_rev_bits_top(x / 2, m1);
        // (x mod 2c) mod 2 == x mod 2 and (x mod 2c) / 2 == (x / 2) mod c
        lemma_mod_mod(x as int, 2, c as int);
        lemma_mod_breakdown(x as int, 2, c as int);
        lemma_mod_pos_bound(x as int, 2);
        lemma_mod_pos_bound((x / 2) as int, c as int);
        lemma_fundamental_div_mod_converse((x % (2 * c)) as int, 2, ((x / 2) % c) as int, (x % 2) as int);
        lemma_div_denominator(x as int, 2, c as int);
        let xm = x % pow2(m1);
        assert(xm % 2 == x % 2);
        assert(xm / 2 == (x / 2) % c);
        assert(rev_bits(xm, m1) == (xm % 2) * c + rev_bits(xm / 2, m2));
        assert(2 * ((x % 2) * c) == (x % 2) * pow2(m1)) by (nonlinear_arith)
            requires pow2(m1) == 2 * c;
    }
}

/// Bit reversal of the low `m` bits is an involution on `[0, 2^m)`.
pub proof fn lemma_rev_bits_involution(x: nat, m: nat)
    requires
        x < pow2(m),
    ensures
        rev_bits(rev_bits(x, m), m) == x,
    decreases m,
{
    if m == 0 {
        lemma2_to64();
    } else {
        let m1 = (m - 1) as nat;
        let p = pow2(m1);
        lemma_pow2_unfold(m);
        lemma_pow2_pos(m1);
        lemma_fundamental_div_mod(x as int, 2);
        lemma_mod_pos_bound(x as int, 2);
        let r = rev_bits(x / 2, m1);
        lemma_rev_bits_bound(x / 2, m1);
        lemma_rev_bits_bound(x, m);
        let y = rev_bits(x, m);
        assert(y == (x % 2) * p + r);
        lemma_rev_bits_top(y, m);
        // y mod 2^(m-1) == r and y / 2^(m-1) == x mod 2
        lemma_fundamental_div_mod_converse(y as int, p as int, (x % 2) as int, r as int);
        lemma_rev_bits_involution(x / 2, m1);
    }
}

/// The interleaving of `records` (`pack_ratio` records of `d_record`
/// coefficients): coefficient `j` of record `k` sits at `j pack_ratio + rev(k)`.
pub open spec fn packed_spec(records: Seq<Seq<u64>>, pack_ratio: nat, d_record: nat) -> Seq<u64> {
    Seq::new(
        d_record * pack_ratio,
        |t: int| records[rev_bits((t % pack_ratio as int) as nat, ilog2(pack_ratio)) as int][t / pack_ratio as int],
    )
}

/// Interleaves `pack_ratio` records into one polynomial: coefficient `j` of
/// record `k` goes to coefficient `j pack_ratio + rev(k)`.
pub fn pack_records(records: &Vec<Vec<u64>>, pack_ratio: usize, d_record: usize) -> (r: Vec<u64>)
    requires
        pack_ratio >= 1,
        is_pow2(pack_ratio as nat),
        records@.len() == pack_ratio,
        forall|k: int| 0 <= k < pack_ratio ==> (#[trigger] records@[k])@.len() == d_record,
        d_record * pack_ratio <= usize::MAX,
    ensures
        r@ == packed_spec(records@.map_values(|v: Vec<u64>| v@), pack_ratio as nat, d_record as nat),
{
    let n = d_record * pack_ratio;
    let ghost rv = records@.map_values(|v: Vec<u64>| v@);
    let mut out: Vec<u64> = Vec::new();
    let mut t: usize = 0;
    while t < n
        invariant
            pack_ratio >= 1,
            is_pow2(pack_ratio as nat),
            records@.len() == pack_ratio,
            forall|k: int| 0 <= k < pack_ratio ==> (#[trigger] records@[k])@.len() == d_record,
            n == d_record * pack_ratio,
            rv == records@.map_values(|v: Vec<u64>| v@),
            t <= n,
            out@.len() == t,
            forall|u: int| 0 <= u < t ==> #[trigger] out@[u] == packed_spec(rv, pack_ratio as nat, d_record as nat)[u],
        decreases n - t,
    {
        let k = reverse_bits(pack_ratio, t % pack_ratio);
        let j = t / pack_ratio;
        proof {
            lemma_fundamental_div_mod(t as int, pack_ratio as int);
            lemma_mod_pos_bound(t as int, pack_ratio as int);
            if j >= d_record {
                lemma_mul_inequality(d_record as int, j as int, pack_ratio as int);
                lemma_mul_is_commutative(j as int, pack_ratio as int);
            }
        }
        out.push(records[k][j]);
        t = t + 1;
    }
    proof {
        assert(out@ =~= packed_spec(rv, pack_ratio as nat, d_record as nat));
    }
    out
}

/// Reads record `k` back out of a packed polynomial: its coefficient `j` is
/// coefficient `j pack_ratio + rev(k)`.
pub fn unpack_record(packed: &Vec<u64>, k: usize, pack_ratio: usize, d_record: usize) -> (r: Vec<u64>)
    requires
        pack_ratio >= 1,
        is_pow2(pack_ratio as nat),
        k < pack_ratio,
        packed@.len() == d_record * pack_ratio,
    ensures
        r@.len() == d_record,
        forall|j: int| 0 <= j < d_record ==> #[trigger] r@[j] == packed@[j * pack_ratio + rev_bits(
            k as nat,
            ilog2(pack_ratio as nat),
        )],
{
    let rk = reverse_bits(pack_ratio, k);
    let n = packed.len();
    let mut out: Vec<u64> = Vec::new();
    let mut j: usize = 0;
    while j < d_record
        invariant
            n == packed@.len(),
            pack_ratio >= 1,
            rk < pack_ratio,
            rk == rev_bits(k as nat, ilog2(pack_ratio as nat)),
            packed@.len() == d_record * pack_ratio,
            j <= d_record,
            out@.len() == j,
            forall|u: int| 0 <= u < j ==> #[trigger] out@[u] == packed@[u * pack_ratio + rk],
        decreases d_record - j,
    {
        proof {
            crate::matrix::lemma_index_bound(j as int, rk as int, d_record as int, pack_ratio as int);
        }
        out.push(packed[j * pack_ratio + rk]);
        j = j + 1;
    }
    out
}

/// Unpacking record `k` of a packed polynomial gives record `k` back.
pub proof fn lemma_pack_round_trip(records: Seq<Seq<u64>>, pack_ratio: nat, d_record: nat, k: int, j: int)
    requires
        pack_ratio >= 1,
        is_pow2(pack_ratio),
        records.len() == pack_ratio,
        0 <= k < pack_ratio,
        0 <= j < d_record,
    ensures
        packed_spec(records, pack_ratio, d_record)[j * pack_ratio + rev_bits(k as nat, ilog2(pack_ratio))] == records[k][j],
{
    let m = ilog2(pack_ratio);
    let rk = rev_bits(k as nat, m);
    lemma_rev_bits_bound(k as nat, m);
    let t = j * pack_ratio + rk;
    crate::matrix::lemma_index_bound(j, rk as int, d_record as int, pack_ratio as int);
    lemma_fundamental_div_mod_converse(t, pack_ratio as int, j, rk as int);
    lemma_rev_bits_involution(k as nat, m);
}

/// A record's bytes as coefficients in `Z_256`: byte `i` is coefficient `i`.
pub fn encode_record(bytes: &Vec<u8>) -> (r: Vec<u64>)
    ensures
        r@.len() == bytes@.len(),
        forall|i: int| 0 <= i < bytes@.len() ==> #[trigger] r@[i] == bytes@[i] as u64,
{
    let mut out: Vec<u64> = Vec::new();
    let mut i: usize = 0;
    while i < bytes.len()
        invariant
            i <= bytes@.len(),
            out@.len() == i,
            forall|u: int| 0 <= u < i ==> #[trigger] out@[u] == bytes@[u] as u64,
        decreases bytes@.len() - i,
    {
        out.push(bytes[i] as u64);
        i = i + 1;
    }
    out
}

/// The bytes of a record whose coefficients all lie in `[0, 256)`; `None`
/// when one does not.
pub fn decode_record(coeffs: &Vec<u64>) -> (r: Option<Vec<u8>>)
    ensures
        r is Some <==> forall|i: int| 0 <= i < coeffs@.len() ==> #[trigger] coeffs@[i] < 256,
        r matches Some(b) ==> b@.len() == coeffs@.len() && forall|i: int| 0 <= i < coeffs@.len() ==> #[trigger] b@[i]
            as u64 == coeffs@[i],
{
    let mut out: Vec<u8> = Vec::new();
    let mut i: usize = 0;
    while i < coeffs.len()
        invariant
            i <= coeffs@.len(),
            out@.len() == i,
            forall|u: int| 0 <= u < i ==> #[trigger] coeffs@[u] < 256,
            forall|u: int| 0 <= u < i ==> #[trigger] out@[u] as u64 == coeffs@[u],
        decreases coeffs@.len() - i,
    {
        if coeffs[i] >= 256 {
            proof {
                assert(!(coeffs@[i as int] < 256));
            }
            return None;
        }
        out.push(coeffs[i] as u8);
        i = i + 1;
    }
    Some(out)
}

} // verus!
