use respire::cyclo::Z_N_CycloRaw;
use respire::gadget::{build_gadget, gadget_inverse};
use respire::matrix::Matrix;
use respire::number_theory::ceil_log;

const N: usize = 2;
const M: usize = 8;
const Q: u64 = 11;
const G_BASE: u64 = 2;

type Zq = Z_N_CycloRaw<1, Q>;

#[test]
fn gadget_is_correct() {
    let g_len = ceil_log(G_BASE, Q);
    assert_eq!(g_len, 4);
    let g = build_gadget::<1, Q>(N, M, G_BASE, g_len);

    let mut expected_g: Matrix<1, Q> = Matrix::zero(N, M);
    expected_g.set(0, 0, Zq::from_u64(1));
    expected_g.set(0, 1, Zq::from_u64(2));
    expected_g.set(0, 2, Zq::from_u64(4));
    expected_g.set(0, 3, Zq::from_u64(8));

    expected_g.set(1, 4, Zq::from_u64(1));
    expected_g.set(1, 5, Zq::from_u64(2));
    expected_g.set(1, 6, Zq::from_u64(4));
    expected_g.set(1, 7, Zq::from_u64(8));

    for i in 0..N {
        for j in 0..M {
            assert_eq!(g.get(i, j).coeff, expected_g.get(i, j).coeff, "gadget constructed incorrectly");
        }
    }
}

#[test]
fn gadget_inverse_is_correct() {
    let g_len = ceil_log(G_BASE, Q);
    let mut r: Matrix<1, Q> = Matrix::zero(N, M);
    for i in 0..N {
        for j in 0..M {
            r.set(i, j, Zq::from_u64((i * M + j) as u64));
        }
    }

    let g = build_gadget::<1, Q>(N, M, G_BASE, g_len);
    let r_inv = gadget_inverse(&r, G_BASE, g_len);
    let r_hopefully = g.mul(&r_inv);
    for i in 0..N {
        for j in 0..M {
            assert_eq!(r.get(i, j).coeff, r_hopefully.get(i, j).coeff, "gadget inverse was not correct");
        }
    }
}

#[test]
fn gadget_inverse_digits_are_small() {
    type Rq = Z_N_CycloRaw<4, 1000>;
    let base = 10;
    let g_len = ceil_log(base, 1000);
    assert_eq!(g_len, 3);
    let mut x: Matrix<4, 1000> = Matrix::zero(2, 3);
    for i in 0..2 {
        for j in 0..3 {
            x.set(i, j, Rq::from_vec(&vec![(i * 100 + j * 37 + 999) as u64 % 1000, 123, 0, 987]));
        }
    }
    let x_inv = gadget_inverse(&x, base, g_len);
    assert_eq!((x_inv.rows, x_inv.cols), (6, 3));
    // row 1 of x, entry 0 holds 99 = -1 + 0*10 + 1*100, 123 = 3 + 2*10 + 1*100
    // and 987 ≡ -13 = -3 - 1*10 + 0*100, each digit in [-5, 5)
    assert_eq!(x_inv.get(3, 0).coeff, vec![999, 3, 0, 997]);
    assert_eq!(x_inv.get(4, 0).coeff, vec![0, 2, 0, 999]);
    assert_eq!(x_inv.get(5, 0).coeff, vec![1, 1, 0, 0]);
    for a in 0..6 {
        for j in 0..3 {
            assert!(x_inv.get(a, j).coeff.iter().all(|&c| 2 * c < base || 2 * (1000 - c) <= base));
        }
    }
    let g = build_gadget::<4, 1000>(2, 6, base, g_len);
    let back = g.mul(&x_inv);
    for i in 0..2 {
        for j in 0..3 {
            assert_eq!(back.get(i, j).coeff, x.get(i, j).coeff);
        }
    }
}
