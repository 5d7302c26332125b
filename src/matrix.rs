//! Dense matrices over `Z_Q[X]/(X^D + 1)`, stored row-major.
use crate::cyclo::{cyclo_add, cyclo_mul, cyclo_neg, cyclo_scalar, cyclo_scale, cyclo_sub, is_binary, Z_N_CycloRaw};
use vstd::arithmetic::mul::*;
use vstd::prelude::*;

verus! {

/// `sum_{c < n} a_(i,c) b_(c,j)` as a ring element; `a` has `a_cols` columns
/// and `b` has `b_cols` columns, both row-major.
pub open spec fn dot_sum(
    a: Seq<Seq<u64>>,
    a_cols: int,
    b: Seq<Seq<u64>>,
    b_cols: int,
    i: int,
    j: int,
    n: nat,
    d: int,
    q: int,
) -> Seq<u64>
    decreases n,
{
    if n == 0 {
        cyclo_scalar(0, d as nat)
    } else {
        let c = n - 1;
        cyclo_add(
            dot_sum(a, a_cols, b, b_cols, i, j, (n - 1) as nat, d, q),
            cyclo_mul(a[i * a_cols + c], b[c * b_cols + j], d, q),
            q,
        )
    }
}

/// Entry-wise sum of two flattened matrices.
pub open spec fn mat_add_spec(a: Seq<Seq<u64>>, b: Seq<Seq<u64>>, q: int) -> Seq<Seq<u64>> {
    Seq::new(a.len(), |k: int| cyclo_add(a[k], b[k], q))
}

/// Entry-wise difference of two flattened matrices.
pub open spec fn mat_sub_spec(a: Seq<Seq<u64>>, b: Seq<Seq<u64>>, q: int) -> Seq<Seq<u64>> {
    Seq::new(a.len(), |k: int| cyclo_sub(a[k], b[k], q))
}

/// Entry-wise negation of a flattened matrix.
pub open spec fn mat_neg_spec(a: Seq<Seq<u64>>, q: int) -> Seq<Seq<u64>> {
    Seq::new(a.len(), |k: int| cyclo_neg(a[k], q))
}

/// Every coefficient of every entry multiplied by `c`.
pub open spec fn mat_scale_spec(a: Seq<Seq<u64>>, c: int, q: int) -> Seq<Seq<u64>> {
    Seq::new(a.len(), |k: int| cyclo_scale(a[k], c, q))
}

/// The flattened product of a `rows x inner` and an `inner x cols` matrix.
pub open spec fn mat_mul_spec(a: Seq<Seq<u64>>, b: Seq<Seq<u64>>, rows: int, inner: int, cols: int, d: int, q: int) -> Seq<
    Seq<u64>,
> {
    Seq::new((rows * cols) as nat, |t: int| dot_sum(a, inner, b, cols, t / cols, t % cols, inner as nat, d, q))
}

pub proof fn lemma_index_bound(i: int, j: int, rows: int, cols: int)
    requires
        0 <= i < rows,
        0 <= j < cols,
    ensures
        0 <= i * cols + j < rows * cols,
{
    lemma_mul_inequality(i + 1, rows, cols);
    lemma_mul_nonnegative(i, cols);
    assert((i + 1) * cols == i * cols + cols) by (nonlinear_arith);
}

/// An `rows x cols` matrix of ring elements.
#[derive(Debug, Clone)]
pub struct Matrix<const D: usize, const Q: u64> {
    pub rows: usize,
    pub cols: usize,
    pub data: Vec<Z_N_CycloRaw<D, Q>>,
}

impl<const D: usize, const Q: u64> View for Matrix<D, Q> {
    type V = Seq<Seq<u64>>;

    open spec fn view(&self) -> Seq<Seq<u64>> {
        Seq::new(self.data@.len(), |k: int| self.data@[k]@)
    }
}

impl<const D: usize, const Q: u64> Matrix<D, Q> {
    pub open spec fn wf(&self) -> bool {
        &&& Q >= 2
        &&& D >= 1
        &&& self.data@.len() == self.rows * self.cols
        &&& forall|k: int| 0 <= k < self.data@.len() ==> (#[trigger] self.data@[k]).wf()
    }

    /// Entry `(i, j)` of the product `self * rhs`.
    pub open spec fn product_entry(&self, rhs: &Self, i: int, j: int) -> Seq<u64> {
        dot_sum(self@, self.cols as int, rhs@, rhs.cols as int, i, j, self.cols as nat, D as int, Q as int)
    }

    /// The entry in row `i`, column `j`.
    pub open spec fn entry(&self, i: int, j: int) -> Seq<u64> {
        self.data@[i * self.cols + j]@
    }

    /// The all-zero `rows x cols` matrix.
    pub fn zero(rows: usize, cols: usize) -> (r: Self)
        requires
            Q >= 2,
            D >= 1,
            rows * cols <= usize::MAX,
        ensures
            r.wf(),
            r.rows == rows,
            r.cols == cols,
            forall|i: int, j: int| 0 <= i < rows && 0 <= j < cols ==> #[trigger] r.entry(i, j) == cyclo_scalar(0, D as nat),
    {
        let n = rows * cols;
        let mut data: Vec<Z_N_CycloRaw<D, Q>> = Vec::new();
        let mut k: usize = 0;
        while k < n
            invariant
                Q >= 2,
                D >= 1,
                k <= n,
                data@.len() == k,
                forall|t: int| 0 <= t < k ==> (#[trigger] data@[t]).wf() && data@[t]@ == cyclo_scalar(0, D as nat),
            decreases n - k,
        {
            data.push(Z_N_CycloRaw::zero());
            k = k + 1;
        }
        let r = Matrix { rows, cols, data };
        proof {
            assert forall|i: int, j: int| 0 <= i < rows && 0 <= j < cols implies #[trigger] r.entry(i, j) == cyclo_scalar(0, D as nat) by {
                lemma_index_bound(i, j, rows as int, cols as int);
            };
        }
        r
    }

    /// A `rows x cols` matrix of entries with coefficients drawn
    /// uniformly from `[0, Q)`.
    pub fn rand_uniform(rows: usize, cols: usize) -> (r: Self)
        requires
            Q >= 2,
            D >= 1,
            rows * cols <= usize::MAX,
        ensures
            r.wf(),
            r.rows == rows,
            r.cols == cols,
    {
        let n = rows * cols;
        let mut data: Vec<Z_N_CycloRaw<D, Q>> = Vec::new();
        let mut k: usize = 0;
        while k < n
            invariant
                Q >= 2,
                D >= 1,
                k <= n,
                data@.len() == k,
                forall|t: int| 0 <= t < k ==> (#[trigger] data@[t]).wf(),
            decreases n - k,
        {
            data.push(Z_N_CycloRaw::rand_uniform());
            k = k + 1;
        }
        Matrix { rows, cols, data }
    }

    /// A `rows x cols` matrix of entries with coefficients drawn
    /// uniformly from `{0, 1}`.
    pub fn rand_zero_one(rows: usize, cols: usize) -> (r: Self)
        requires
            Q >= 2,
            D >= 1,
            rows * cols <= usize::MAX,
        ensures
            r.wf(),
            r.rows == rows,
            r.cols == cols,
            forall|k: int| 0 <= k < r@.len() ==> is_binary(#[trigger] r@[k]),
    {
        let n = rows * cols;
        let mut data: Vec<Z_N_CycloRaw<D, Q>> = Vec::new();
        let mut k: usize = 0;
        while k < n
            invariant
                Q >= 2,
                D >= 1,
                k <= n,
                data@.len() == k,
                forall|t: int| 0 <= t < k ==> (#[trigger] data@[t]).wf() && is_binary(data@[t]@),
            decreases n - k,
        {
            data.push(Z_N_CycloRaw::rand_zero_one());
            k = k + 1;
        }
        Matrix { rows, cols, data }
    }

    /// The entry in row `i`, column `j`.
    pub fn get(&self, i: usize, j: usize) -> (r: &Z_N_CycloRaw<D, Q>)
        requires
            self.wf(),
            i < self.rows,
            j < self.cols,
        ensures
            r.wf(),
            r@ == self.entry(i as int, j as int),
    {
        let n = self.data.len();
        proof {
            lemma_index_bound(i as int, j as int, self.rows as int, self.cols as int);
        }
        &self.data[i * self.cols + j]
    }

    /// Replaces the entry in row `i`, column `j` by `v`.
    pub fn set(&mut self, i: usize, j: usize, v: Z_N_CycloRaw<D, Q>)
        requires
            old(self).wf(),
            i < old(self).rows,
            j < old(self).cols,
            v.wf(),
        ensures
            final(self).wf(),
            final(self).rows == old(self).rows,
            final(self).cols == old(self).cols,
            final(self).entry(i as int, j as int) == v@,
            forall|a: int, b: int|
                0 <= a < old(self).rows && 0 <= b < old(self).cols && (a != i || b != j) ==> #[trigger] final(self).entry(a, b)
                    == old(self).entry(a, b),
    {
        let n = self.data.len();
        proof {
            lemma_index_bound(i as int, j as int, self.rows as int, self.cols as int);
        }
        let k = i * self.cols + j;
        self.data.set(k, v);
        proof {
            assert forall|a: int, b: int|
                0 <= a < old(self).rows && 0 <= b < old(self).cols && (a != i || b != j) implies #[trigger] self.entry(a, b)
                    == old(self).entry(a, b) by {
                lemma_index_bound(a, b, self.rows as int, self.cols as int);
                if a * self.cols + b == k {
                    if a < i {
                        lemma_mul_inequality(a + 1, i as int, self.cols as int);
                        assert((a + 1) * self.cols == a * self.cols + self.cols) by (nonlinear_arith);
                    } else if a > i {
                        lemma_mul_inequality(i + 1, a, self.cols as int);
                        assert((i + 1) * self.cols == i * self.cols + self.cols) by (nonlinear_arith);
                    }
                }
            };
        }
    }

    /// Entry-wise sum.
    pub fn add(&self, rhs: &Self) -> (r: Self)
        requires
            self.wf(),
            rhs.wf(),
            rhs.rows == self.rows,
            rhs.cols == self.cols,
        ensures
            r.wf(),
            r.rows == self.rows,
            r.cols == self.cols,
            forall|i: int, j: int| 0 <= i < self.rows && 0 <= j < self.cols ==> #[trigger] r.entry(i, j) == cyclo_add(
                self.entry(i, j), rhs.entry(i, j), Q as int),
            r@ == mat_add_spec(self@, rhs@, Q as int),
    {
        let n = self.data.len();
        let mut data: Vec<Z_N_CycloRaw<D, Q>> = Vec::new();
        let mut k: usize = 0;
        while k < n
            invariant
                self.wf(),
                rhs.wf(),
                rhs.rows == self.rows,
                rhs.cols == self.cols,
                n == self.data@.len(),
                k <= n,
                data@.len() == k,
                forall|t: int| 0 <= t < k ==> (#[trigger] data@[t]).wf() && data@[t]@ == cyclo_add(self.data@[t]@, rhs.data@[t]@, Q as int),
            decreases n - k,
        {
            data.push(self.data[k].add(&rhs.data[k]));
            k = k + 1;
        }
        let r = Matrix { rows: self.rows, cols: self.cols, data };
        proof {
            assert forall|i: int, j: int| 0 <= i < self.rows && 0 <= j < self.cols implies #[trigger] r.entry(i, j) == cyclo_add(
                self.entry(i, j), rhs.entry(i, j), Q as int) by {
                lemma_index_bound(i, j, self.rows as int, self.cols as int);
            };
            assert(r@ =~= mat_add_spec(self@, rhs@, Q as int));
        }
        r
    }

    /// Entry-wise difference.
    pub fn sub(&self, rhs: &Self) -> (r: Self)
        requires
            self.wf(),
            rhs.wf(),
            rhs.rows == self.rows,
            rhs.cols == self.cols,
        ensures
            r.wf(),
            r.rows == self.rows,
            r.cols == self.cols,
            forall|i: int, j: int| 0 <= i < self.rows && 0 <= j < self.cols ==> #[trigger] r.entry(i, j) == cyclo_sub(
                self.entry(i, j), rhs.entry(i, j), Q as int),
            r@ == mat_sub_spec(self@, rhs@, Q as int),
    {
        let n = self.data.len();
        let mut data: Vec<Z_N_CycloRaw<D, Q>> = Vec::new();
        let mut k: usize = 0;
        while k < n
            invariant
                self.wf(),
                rhs.wf(),
                rhs.rows == self.rows,
                rhs.cols == self.cols,
                n == self.data@.len(),
                k <= n,
                data@.len() == k,
                forall|t: int| 0 <= t < k ==> (#[trigger] data@[t]).wf() && data@[t]@ == cyclo_sub(self.data@[t]@, rhs.data@[t]@, Q as int),
            decreases n - k,
        {
            data.push(self.data[k].sub(&rhs.data[k]));
            k = k + 1;
        }
        let r = Matrix { rows: self.rows, cols: self.cols, data };
        proof {
            assert forall|i: int, j: int| 0 <= i < self.rows && 0 <= j < self.cols implies #[trigger] r.entry(i, j) == cyclo_sub(
                self.entry(i, j), rhs.entry(i, j), Q as int) by {
                lemma_index_bound(i, j, self.rows as int, self.cols as int);
            };
            assert(r@ =~= mat_sub_spec(self@, rhs@, Q as int));
        }
        r
    }

    /// Entry-wise negation.
    pub fn neg(&self) -> (r: Self)
        requires
            self.wf(),
        ensures
            r.wf(),
            r.rows == self.rows,
            r.cols == self.cols,
            forall|i: int, j: int| 0 <= i < self.rows && 0 <= j < self.cols ==> #[trigger] r.entry(i, j) == cyclo_neg(
                self.entry(i, j), Q as int),
            r@ == mat_neg_spec(self@, Q as int),
    {
        let n = self.data.len();
        let mut data: Vec<Z_N_CycloRaw<D, Q>> = Vec::new();
        let mut k: usize = 0;
        while k < n
            invariant
                self.wf(),
                n == self.data@.len(),
                k <= n,
                data@.len() == k,
                forall|t: int| 0 <= t < k ==> (#[trigger] data@[t]).wf() && data@[t]@ == cyclo_neg(self.data@[t]@, Q as int),
            decreases n - k,
        {
            data.push(self.data[k].neg());
            k = k + 1;
        }
        let r = Matrix { rows: self.rows, cols: self.cols, data };
        proof {
            assert forall|i: int, j: int| 0 <= i < self.rows && 0 <= j < self.cols implies #[trigger] r.entry(i, j) == cyclo_neg(
                self.entry(i, j), Q as int) by {
                lemma_index_bound(i, j, self.rows as int, self.cols as int);
            };
            assert(r@ =~= mat_neg_spec(self@, Q as int));
        }
        r
    }

    /// Every coefficient of every entry multiplied by `c`.
    pub fn scale(&self, c: u64) -> (r: Self)
        requires
            self.wf(),
        ensures
            r.wf(),
            r.rows == self.rows,
            r.cols == self.cols,
            r@ == mat_scale_spec(self@, c as int, Q as int),
    {
        let n = self.data.len();
        let mut data: Vec<Z_N_CycloRaw<D, Q>> = Vec::new();
        let mut k: usize = 0;
        while k < n
            invariant
                self.wf(),
                n == self.data@.len(),
                k <= n,
                data@.len() == k,
                forall|t: int| 0 <= t < k ==> (#[trigger] data@[t]).wf() && data@[t]@ == cyclo_scale(self.data@[t]@, c as int, Q as int),
            decreases n - k,
        {
            data.push(self.data[k].scale(c));
            k = k + 1;
        }
        let r = Matrix { rows: self.rows, cols: self.cols, data };
        proof {
            assert(r@ =~= mat_scale_spec(self@, c as int, Q as int));
        }
        r
    }

    /// Matrix product: entry `(i, j)` is `sum_c self_(i,c) rhs_(c,j)`.
    pub fn mul(&self, rhs: &Self) -> (r: Self)
        requires
            self.wf(),
            rhs.wf(),
            self.cols == rhs.rows,
            self.rows * rhs.cols <= usize::MAX,
            D <= usize::MAX / 2,
        ensures
            r.wf(),
            r.rows == self.rows,
            r.cols == rhs.cols,
            forall|i: int, j: int| 0 <= i < self.rows && 0 <= j < rhs.cols ==> #[trigger] r.entry(i, j) == dot_sum(
                self@, self.cols as int, rhs@, rhs.cols as int, i, j, self.cols as nat, D as int, Q as int),
            r@ == mat_mul_spec(self@, rhs@, self.rows as int, self.cols as int, rhs.cols as int, D as int, Q as int),
    {
        let mut data: Vec<Z_N_CycloRaw<D, Q>> = Vec::new();
        let mut i: usize = 0;
        while i < self.rows
            invariant
                self.wf(),
                rhs.wf(),
                self.cols == rhs.rows,
                self.rows * rhs.cols <= usize::MAX,
                D <= usize::MAX / 2,
                i <= self.rows,
                data@.len() == i * rhs.cols,
                forall|t: int| 0 <= t < data@.len() ==> (#[trigger] data@[t]).wf() && data@[t]@ == self.product_entry(rhs, t / rhs.cols as int, t % rhs.cols as int),
            decreases self.rows - i,
        {
            let mut j: usize = 0;
            proof {
                lemma_mul_inequality(i + 1, self.rows as int, rhs.cols as int);
                assert((i + 1) * rhs.cols == i * rhs.cols + rhs.cols) by (nonlinear_arith);
            }
            while j < rhs.cols
                invariant
                    self.wf(),
                    rhs.wf(),
                    self.cols == rhs.rows,
                    D <= usize::MAX / 2,
                    i < self.rows,
                    j <= rhs.cols,
                    (i + 1) * rhs.cols <= usize::MAX,
                    (i + 1) * rhs.cols == i * rhs.cols + rhs.cols,
                    data@.len() == i * rhs.cols + j,
                    forall|t: int| 0 <= t < data@.len() ==> (#[trigger] data@[t]).wf() && data@[t]@ == self.product_entry(rhs, t / rhs.cols as int, t % rhs.cols as int),
                decreases rhs.cols - j,
            {
                let e = self.dot(rhs, i, j);
                proof {
                    let t = data@.len() as int;
                    vstd::arithmetic::div_mod::lemma_fundamental_div_mod_converse(t, rhs.cols as int, i as int, j as int);
                }
                data.push(e);
                j = j + 1;
            }
            i = i + 1;
        }
        let r = Matrix { rows: self.rows, cols: rhs.cols, data };
        proof {
            assert forall|i: int, j: int| 0 <= i < self.rows && 0 <= j < rhs.cols implies #[trigger] r.entry(i, j) == self.product_entry(rhs, i, j) by {
                lemma_index_bound(i, j, self.rows as int, rhs.cols as int);
                vstd::arithmetic::div_mod::lemma_fundamental_div_mod_converse(i * rhs.cols + j, rhs.cols as int, i, j);
            };
            assert(r@ =~= mat_mul_spec(self@, rhs@, self.rows as int, self.cols as int, rhs.cols as int, D as int, Q as int));
        }
        r
    }

    /// `sum_c self_(i,c) rhs_(c,j)`.
    fn dot(&self, rhs: &Self, i: usize, j: usize) -> (r: Z_N_CycloRaw<D, Q>)
        requires
            self.wf(),
            rhs.wf(),
            self.cols == rhs.rows,
            i < self.rows,
            j < rhs.cols,
            D <= usize::MAX / 2,
        ensures
            r.wf(),
            r@ == dot_sum(self@, self.cols as int, rhs@, rhs.cols as int, i as int, j as int, self.cols as nat, D as int, Q as int),
    {
        let mut acc = Z_N_CycloRaw::<D, Q>::zero();
        let mut c: usize = 0;
        while c < self.cols
            invariant
                self.wf(),
                rhs.wf(),
                self.cols == rhs.rows,
                i < self.rows,
                j < rhs.cols,
                D <= usize::MAX / 2,
                c <= self.cols,
                acc.wf(),
                acc@ == dot_sum(self@, self.cols as int, rhs@, rhs.cols as int, i as int, j as int, c as nat, D as int, Q as int),
            decreases self.cols - c,
        {
            let x = self.get(i, c);
            let y = rhs.get(c, j);
            acc.add_eq_mul(x, y);
            proof {
                lemma_index_bound(i as int, c as int, self.rows as int, self.cols as int);
                lemma_index_bound(c as int, j as int, rhs.rows as int, rhs.cols as int);
            }
            c = c + 1;
        }
        acc
    }
}

} // verus!
