//! Ring elements of `Z_(Q1 Q2)[X]/(X^D + 1)` held as their two CRT
//! channels in evaluation form, where products are entry-wise.
use crate::arith::mul_mod;
use crate::crt::{crt_compose_poly, crt_constants, lemma_crt_unique, lemma_cyclo_mul_reduce, reduce_poly};
use crate::cyclo::{cyclo_mul, Z_N_CycloRaw};
use crate::ntt::{ntt_backward_spec, ntt_forward_spec, ntt_neg_backward, ntt_neg_forward, reduced, Aligned64, NttTable};
use crate::ntt_laws::{lemma_ntt_multiplicative, pointwise_mul};
use crate::gsw::ntt_params_ok;
use crate::number_theory::{has_inverse, mod_inverse};
use vstd::arithmetic::div_mod::*;
use vstd::arithmetic::mul::*;
use vstd::prelude::*;

verus! {

/// The transform tables of the two primes and their CRT constants.
pub struct CrtNttContext<const D: usize, const Q1: u64, const Q2: u64> {
    pub t1: NttTable,
    pub t2: NttTable,
    pub q1_inv: u64,
    pub q2_inv: u64,
}

/// The residues of `a` modulo `m`.
pub open spec fn residues(a: Seq<u64>, m: u64) -> Seq<u64> {
    Seq::new(a.len(), |i: int| (a[i] % m) as u64)
}

impl<const D: usize, const Q1: u64, const Q2: u64> CrtNttContext<D, Q1, Q2> {
    pub open spec fn wf(&self) -> bool {
        &&& self.t1.wf()
        &&& self.t2.wf()
        &&& self.t1.d == D
        &&& self.t2.d == D
        &&& self.t1.q == Q1
        &&& self.t2.q == Q2
        &&& crt_constants(Q1 as int, Q2 as int, self.q1_inv as int, self.q2_inv as int)
    }

    /// The context for roots `w1` modulo `Q1` and `w2` modulo `Q2`; `None`
    /// when either table cannot be built, the primes are not coprime, or
    /// `Q1 Q2` overflows.
    pub fn new(w1: u64, w2: u64) -> (r: Option<Self>)
        ensures
            r is Some <==> (Q1 >= 2 && Q2 >= 2 && Q1 * Q2 <= u64::MAX && ntt_params_ok(D as nat, Q1 as int, w1 as int)
                && ntt_params_ok(D as nat, Q2 as int, w2 as int) && has_inverse(Q1 as int, Q2 as int) && has_inverse(
                Q2 as int,
                Q1 as int,
            )),
            r matches Some(c) ==> c.wf() && c.t1.w == w1 && c.t2.w == w2,
    {
        if Q1 < 2 || Q2 < 2 || Q1.checked_mul(Q2).is_none() {
            return None;
        }
        let t1 = match NttTable::new(D, Q1, w1) {
            Some(t) => t,
            None => {
                return None;
            },
        };
        let t2 = match NttTable::new(D, Q2, w2) {
            Some(t) => t,
            None => {
                return None;
            },
        };
        proof {
            crate::ntt::lemma_inverse_of_residue(Q1 as int, Q2 as int);
            crate::ntt::lemma_inverse_of_residue(Q2 as int, Q1 as int);
        }
        let q1_inv = match mod_inverse(Q1 % Q2, Q2) {
            Some(x) => x,
            None => {
                return None;
            },
        };
        let q2_inv = match mod_inverse(Q2 % Q1, Q1) {
            Some(x) => x,
            None => {
                return None;
            },
        };
        proof {
            lemma_mul_mod_noop_general(Q1 as int, q1_inv as int, Q2 as int);
            lemma_mul_mod_noop_general(Q2 as int, q2_inv as int, Q1 as int);
            lemma_small_mod(1nat, Q1 as nat);
            lemma_small_mod(1nat, Q2 as nat);
        }
        Some(CrtNttContext { t1, t2, q1_inv, q2_inv })
    }
}

/// An element of `Z_(Q1 Q2)[X]/(X^D + 1)`: the transforms of its residues
/// modulo `Q1` and modulo `Q2`.
#[allow(non_camel_case_types)]
pub struct IntModCycloCRTEval<const D: usize, const Q1: u64, const Q2: u64> {
    pub ch1: Vec<u64>,
    pub ch2: Vec<u64>,
}

impl<const D: usize, const Q1: u64, const Q2: u64> IntModCycloCRTEval<D, Q1, Q2> {
    pub open spec fn wf(&self) -> bool {
        &&& self.ch1@.len() == D
        &&& self.ch2@.len() == D
        &&& reduced(self.ch1@, Q1 as int)
        &&& reduced(self.ch2@, Q2 as int)
    }

    /// Evaluation form of `a`: both residues transformed.
    pub fn from_poly<const Q: u64>(a: &Z_N_CycloRaw<D, Q>, ctx: &CrtNttContext<D, Q1, Q2>) -> (r: Self)
        requires
            a.wf(),
            ctx.wf(),
            Q == Q1 * Q2,
        ensures
            r.wf(),
            r.ch1@ == ntt_forward_spec(residues(a@, Q1), ctx.t1.w as int, Q1 as int),
            r.ch2@ == ntt_forward_spec(residues(a@, Q2), ctx.t2.w as int, Q2 as int),
    {
        let a1: Z_N_CycloRaw<D, Q1> = reduce_poly(a);
        let a2: Z_N_CycloRaw<D, Q2> = reduce_poly(a);
        proof {
            assert(a1@ =~= residues(a@, Q1));
            assert(a2@ =~= residues(a@, Q2));
        }
        let mut x = Aligned64(a1.coeff);
        let mut y = Aligned64(a2.coeff);
        ntt_neg_forward(&mut x, &ctx.t1);
        ntt_neg_forward(&mut y, &ctx.t2);
        IntModCycloCRTEval { ch1: x.0, ch2: y.0 }
    }

    /// Back to coefficient form: both channels interpolated and recombined.
    pub fn to_poly<const Q: u64>(&self, ctx: &CrtNttContext<D, Q1, Q2>) -> (r: Z_N_CycloRaw<D, Q>)
        requires
            self.wf(),
            ctx.wf(),
            Q == Q1 * Q2,
        ensures
            r.wf(),
            forall|i: int| 0 <= i < D ==> #[trigger] r@[i] % Q1 == ntt_backward_spec(self.ch1@, ctx.t1.w_inv as int,
                ctx.t1.inv_d as int, Q1 as int)[i] && r@[i] % Q2 == ntt_backward_spec(self.ch2@, ctx.t2.w_inv as int,
                ctx.t2.inv_d as int, Q2 as int)[i],
    {
        let mut x = Aligned64(self.ch1.clone());
        let mut y = Aligned64(self.ch2.clone());
        proof {
            assert(x.0@ =~= self.ch1@);
            assert(y.0@ =~= self.ch2@);
        }
        ntt_neg_backward(&mut x, &ctx.t1);
        ntt_neg_backward(&mut y, &ctx.t2);
        let a1 = Z_N_CycloRaw::<D, Q1> { coeff: x.0 };
        let a2 = Z_N_CycloRaw::<D, Q2> { coeff: y.0 };
        crt_compose_poly(&a1, &a2, ctx.q1_inv, ctx.q2_inv)
    }

    /// The product: entry-wise in both channels.
    pub fn mul(&self, rhs: &Self) -> (r: Self)
        requires
            self.wf(),
            rhs.wf(),
            Q1 >= 2,
            Q2 >= 2,
        ensures
            r.wf(),
            r.ch1@ == pointwise_mul(self.ch1@, rhs.ch1@, Q1 as int),
            r.ch2@ == pointwise_mul(self.ch2@, rhs.ch2@, Q2 as int),
    {
        let mut c1: Vec<u64> = Vec::new();
        let mut c2: Vec<u64> = Vec::new();
        let mut k: usize = 0;
        while k < D
            invariant
                self.wf(),
                rhs.wf(),
                Q1 >= 2,
                Q2 >= 2,
                k <= D,
                c1@.len() == k,
                c2@.len() == k,
                forall|t: int| 0 <= t < k ==> #[trigger] c1@[t] == pointwise_mul(self.ch1@, rhs.ch1@, Q1 as int)[t],
                forall|t: int| 0 <= t < k ==> #[trigger] c2@[t] == pointwise_mul(self.ch2@, rhs.ch2@, Q2 as int)[t],
                reduced(c1@, Q1 as int),
                reduced(c2@, Q2 as int),
            decreases D - k,
        {
            c1.push(mul_mod(self.ch1[k], rhs.ch1[k], Q1));
            c2.push(mul_mod(self.ch2[k], rhs.ch2[k], Q2));
            k = k + 1;
        }
        proof {
            assert(c1@ =~= pointwise_mul(self.ch1@, rhs.ch1@, Q1 as int));
            assert(c2@ =~= pointwise_mul(self.ch2@, rhs.ch2@, Q2 as int));
        }
        IntModCycloCRTEval { ch1: c1, ch2: c2 }
    }
}

impl<const D: usize, const Q: u64> Z_N_CycloRaw<D, Q> {
    /// The product in `Z_Q[X]/(X^D + 1)` for `Q = Q1 Q2`, computed in CRT
    /// evaluation form: both factors transformed per prime, multiplied entry
    /// by entry, transformed back and recombined.
    pub fn mul_crt<const Q1: u64, const Q2: u64>(&self, rhs: &Self, ctx: &CrtNttContext<D, Q1, Q2>) -> (r: Self)
        requires
            self.wf(),
            rhs.wf(),
            ctx.wf(),
            Q == Q1 * Q2,
        ensures
            r.wf(),
            r@ == cyclo_mul(self@, rhs@, D as int, Q as int),
    {
        let x = IntModCycloCRTEval::<D, Q1, Q2>::from_poly(self, ctx);
        let y = IntModCycloCRTEval::<D, Q1, Q2>::from_poly(rhs, ctx);
        let z = x.mul(&y);
        let r: Z_N_CycloRaw<D, Q> = z.to_poly(ctx);
        proof {
            let c = cyclo_mul(self@, rhs@, D as int, Q as int);
            let a1 = residues(self@, Q1);
            let b1 = residues(rhs@, Q1);
            let a2 = residues(self@, Q2);
            let b2 = residues(rhs@, Q2);
            assert forall|k: int| 0 <= k < D implies #[trigger] a1[k] < Q1 && a2[k] < Q2 && b1[k] < Q1 && b2[k] < Q2 by {
                lemma_mod_bound(self@[k] as int, Q1 as int);
                lemma_mod_bound(self@[k] as int, Q2 as int);
                lemma_mod_bound(rhs@[k] as int, Q1 as int);
                lemma_mod_bound(rhs@[k] as int, Q2 as int);
            };
            lemma_ntt_multiplicative(ctx.t1, a1, b1);
            lemma_ntt_multiplicative(ctx.t2, a2, b2);
            assert(Q as int % Q1 as int == 0) by {
                lemma_mod_multiples_basic(Q2 as int, Q1 as int);
                lemma_mul_is_commutative(Q1 as int, Q2 as int);
            };
            assert(Q as int % Q2 as int == 0) by {
                lemma_mod_multiples_basic(Q1 as int, Q2 as int);
            };
            assert forall|k: int| 0 <= k < D implies #[trigger] r@[k] == c[k] by {
                lemma_cyclo_mul_reduce(self@, rhs@, D as int, Q as int, Q1 as int, k);
                lemma_cyclo_mul_reduce(self@, rhs@, D as int, Q as int, Q2 as int, k);
                assert(Seq::new(D as nat, |i: int| (self@[i] % (Q1 as u64)) as u64) =~= a1);
                assert(Seq::new(D as nat, |i: int| (rhs@[i] % (Q1 as u64)) as u64) =~= b1);
                assert(Seq::new(D as nat, |i: int| (self@[i] % (Q2 as u64)) as u64) =~= a2);
                assert(Seq::new(D as nat, |i: int| (rhs@[i] % (Q2 as u64)) as u64) =~= b2);
                lemma_mod_bound(crate::cyclo::conv_sum(self@, rhs@, D as int, k, D as nat), Q as int);
                lemma_crt_unique(r@[k] as int, c[k] as int, Q1 as int, Q2 as int, ctx.q1_inv as int);
            };
            assert(r@ =~= c);
        }
        r
    }
}

} // verus!
