use respire::cyclo::Z_N_CycloRaw;
use respire::matrix::Matrix;
use respire::ntt::NttTable;
use respire::number_theory::find_sqrt_primitive_root;

const D: usize = 4; // Z_q[X] / (X^4 + 1)
const P: u64 = (1_u64 << 32) - 5;

type R = Z_N_CycloRaw<D, P>;

fn poly(v: Vec<u64>) -> R {
    R::from_vec(&v)
}

#[test]
fn test_from_into() {
    let p = poly(vec![42, 6, 1, 0, 5]);
    let q = poly(vec![37, 6, 1, 0]);
    let r = poly(vec![41, 6, 1, 0, 5, 0, 0, 0, 1]);
    assert_eq!(p.coeff, q.coeff);
    assert_eq!(p.coeff, r.coeff);
    assert_eq!(q.coeff, r.coeff);

    let s = poly(vec![9483, 1, 1, 1, 323, P - 12139, 10491, 1, 1]);
    let t = poly(vec![9161, 12140, P - 10490, 0, 0]);
    assert_eq!(s.coeff, t.coeff);
}

#[test]
fn test_ops() {
    let p = poly(vec![0, 0, 0, 1]);
    let q = poly(vec![0, 0, 2, 0]);
    let sum = poly(vec![0, 0, 2, 1]);
    let diff = poly(vec![0, 0, P - 2, 1]);
    let prod = poly(vec![0, P - 2, 0, 0]);
    let square = poly(vec![0, 0, P - 1, 0]);
    let neg = poly(vec![0, 0, 0, P - 1]);
    assert_eq!(p.add(&q).coeff, sum.coeff);
    assert_eq!(p.sub(&q).coeff, diff.coeff);
    assert_eq!(p.mul(&q).coeff, prod.coeff);
    assert_eq!(p.mul(&p).coeff, square.coeff);
    assert_eq!(p.neg().coeff, neg.coeff);
}

#[test]
fn test_matrix() {
    let mut m: Matrix<D, P> = Matrix::zero(2, 2);
    m.set(0, 0, poly(vec![0, 0, 0, 1]));
    m.set(0, 1, poly(vec![0, 0, 1, 0]));
    m.set(1, 0, poly(vec![0, 1, 0, 0]));
    m.set(1, 1, poly(vec![1, 0, 0, 0]));
    // M =
    // [ x^3 x^2 ]
    // [ x   1   ]
    let m_square = m.mul(&m);
    assert_eq!(m_square.get(0, 0).coeff, poly(vec![0, 0, P - 1, 1]).coeff); // x^3 + x^6
    assert_eq!(m_square.get(0, 1).coeff, poly(vec![0, P - 1, 1, 0]).coeff); // x^2 + x^5
    assert_eq!(m_square.get(1, 0).coeff, poly(vec![P - 1, 1, 0, 0]).coeff); // x + x^4
    assert_eq!(m_square.get(1, 1).coeff, poly(vec![1, 0, 0, 1]).coeff); // 1 + x^3

    let m_double = m.add(&m);
    assert_eq!(m_double.get(0, 0).coeff, poly(vec![0, 0, 0, 2]).coeff);
    assert_eq!(m_double.get(0, 1).coeff, poly(vec![0, 0, 2, 0]).coeff);
    assert_eq!(m_double.get(1, 0).coeff, poly(vec![0, 2, 0, 0]).coeff);
    assert_eq!(m_double.get(1, 1).coeff, poly(vec![2, 0, 0, 0]).coeff);

    let m_neg = m.neg();
    assert_eq!(m_neg.get(0, 0).coeff, poly(vec![0, 0, 0, P - 1]).coeff);
    assert_eq!(m_neg.get(0, 1).coeff, poly(vec![0, 0, P - 1, 0]).coeff);
    assert_eq!(m_neg.get(1, 0).coeff, poly(vec![0, P - 1, 0, 0]).coeff);
    assert_eq!(m_neg.get(1, 1).coeff, poly(vec![P - 1, 0, 0, 0]).coeff);
}

#[test]
fn one_is_the_identity() {
    let one = R::one();
    assert_eq!(one.coeff, vec![1, 0, 0, 0]);
    let p = poly(vec![5, 0, 7, P - 3]);
    assert_eq!(p.mul(&one).coeff, p.coeff);
    assert_eq!(R::zero().coeff, vec![0, 0, 0, 0]);
}

#[test]
fn scalar_reads_back_only_constants() {
    assert_eq!(R::from_u64(P + 9).try_to_scalar(), Some(9));
    assert_eq!(poly(vec![1, 2]).try_to_scalar(), None);
}

#[test]
fn add_eq_mul_accumulates() {
    let mut acc = poly(vec![1, 1, 1, 1]);
    acc.add_eq_mul(&poly(vec![0, 1]), &poly(vec![0, 0, 0, 1]));
    // 1 + x + x^2 + x^3 + x^4 = x + x^2 + x^3
    assert_eq!(acc.coeff, vec![0, 1, 1, 1]);
}

#[test]
fn norm_is_largest_signed_coefficient() {
    assert_eq!(poly(vec![3, P - 5, 2, 0]).norm(), 5);
    assert_eq!(poly(vec![0, 0, 0, 0]).norm(), 0);
    assert_eq!(poly(vec![1, 2, 3]).scale(2).coeff, vec![2, 4, 6, 0]);
}

#[test]
fn samplers_stay_in_range() {
    let u = R::rand_uniform();
    assert!(u.coeff.iter().all(|&c| c < P));
    let b = R::rand_zero_one();
    assert!(b.coeff.iter().all(|&c| c <= 1));
    let e = R::rand_noise(3);
    assert!(e.norm() <= 3);
}

#[test]
fn transform_product_matches_schoolbook() {
    const Q: u64 = 268369921;
    let w = find_sqrt_primitive_root(4, Q).unwrap();
    let table = NttTable::new(4, Q, w).unwrap();
    let a = Z_N_CycloRaw::<4, Q>::from_vec(&vec![1, 2, 3, 4]);
    let b = Z_N_CycloRaw::<4, Q>::from_vec(&vec![5, 6, 7, 8]);
    let via_ntt = a.mul_ntt(&b, &table);
    assert_eq!(via_ntt.coeff, a.mul(&b).coeff);
    // (1 + 2x + 3x^2 + 4x^3)(5 + 6x + 7x^2 + 8x^3) mod x^4 + 1
    assert_eq!(via_ntt.coeff, vec![Q - 56, Q - 36, 2, 60]);
}

#[test]
fn automorphism_substitutes_powers() {
    // x -> x^3: x becomes x^3, and x^3 becomes x^9 = x (since x^8 = 1)
    let x = poly(vec![0, 1, 0, 0]);
    let x3 = x.automorphism(3);
    assert_eq!(x3.coeff, vec![0, 0, 0, 1]);
    assert_eq!(x3.automorphism(3).coeff, x.coeff);
    // x^2 -> x^6 = -x^2
    assert_eq!(poly(vec![0, 0, 1, 0]).automorphism(3).coeff, vec![0, 0, P - 1, 0]);
    // the substitution is a ring map: (p q)(x^5) = p(x^5) q(x^5)
    let p = poly(vec![1, 2, 3, 4]);
    let q = poly(vec![5, 0, P - 7, 1]);
    assert_eq!(p.mul(&q).automorphism(5).coeff, p.automorphism(5).mul(&q.automorphism(5)).coeff);
}

#[test]
fn modulus_switch_rounds() {
    use_mod_switch();
}

fn use_mod_switch() {
    let a = Z_N_CycloRaw::<4, 1000>::from_vec(&vec![0, 499, 500, 999]);
    let b: Z_N_CycloRaw<4, 10> = respire::crt::mod_switch(&a);
    // round(x * 10 / 1000) mod 10
    assert_eq!(b.coeff, vec![0, 5, 5, 0]);
}
