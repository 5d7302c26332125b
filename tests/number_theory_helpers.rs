use respire::arith::{add_mod, get_ratio32, mod_mul32, mul_mod, neg_mod, pow_mod, sub_mod};
use respire::crt::{crt_compose, crt_compose_poly, reduce_poly, round_down, scale_up};
use respire::crt_eval::{CrtNttContext, IntModCycloCRTEval};
use respire::cyclo::Z_N_CycloRaw;
use respire::number_theory::{ceil_log, floor_log, log2_of, mod_inverse, reverse_bits};

const Q1: u64 = 268369921;
const Q2: u64 = 249561089;

#[test]
fn modular_operations() {
    assert_eq!(add_mod(10, 5, 11), 4);
    assert_eq!(sub_mod(3, 5, 11), 9);
    assert_eq!(neg_mod(0, 11), 0);
    assert_eq!(neg_mod(4, 11), 7);
    assert_eq!(mul_mod(Q1 - 1, Q1 - 1, Q1), 1);
    assert_eq!(pow_mod(3, 5, 1000), 243);
    assert_eq!(pow_mod(7, 0, 13), 1);
    assert_eq!(pow_mod(2, 10, 1), 0);
}

#[test]
fn logarithms() {
    assert_eq!(ceil_log(2, 11), 4);
    assert_eq!(ceil_log(2, 8), 3);
    assert_eq!(ceil_log(2, Q1 * Q2), 56);
    assert_eq!(ceil_log(10, 1), 0);
    assert_eq!(floor_log(2, 8), 3);
    assert_eq!(floor_log(2, 11), 3);
    assert_eq!(floor_log(3, 2), 0);
    assert_eq!(log2_of(2048), 11);
}

#[test]
fn bit_reversal() {
    assert_eq!(reverse_bits(4, 1), 2);
    assert_eq!(reverse_bits(4, 3), 3);
    assert_eq!(reverse_bits(8, 1), 4);
    assert_eq!(reverse_bits(8, 6), 3);
    assert_eq!(reverse_bits(1, 0), 0);
}

#[test]
fn inverses() {
    assert_eq!(mod_inverse(3, 11), Some(4));
    assert_eq!(mod_inverse(4, 8), None);
    assert_eq!(mod_inverse(0, 7), None);
    assert_eq!(mod_inverse(5, 1), Some(0));
    let inv = mod_inverse(Q1 % Q2, Q2).unwrap();
    assert_eq!(((Q1 as u128 * inv as u128) % Q2 as u128) as u64, 1);
}

#[test]
fn crt_round_trip_values() {
    let q1_inv = mod_inverse(Q1 % Q2, Q2).unwrap();
    let q2_inv = mod_inverse(Q2 % Q1, Q1).unwrap();
    for a in [0u64, 1, 12345678901234, Q1 * Q2 - 1, Q1, Q2 * 7 + 3] {
        assert_eq!(crt_compose(a % Q1, a % Q2, Q1, Q2, q1_inv, q2_inv), a);
    }
    assert_eq!(crt_compose(2, 3, 5, 7, 3, 3), 17);
}

#[test]
fn scaling_round_trip() {
    let q = Q1 * Q2;
    for mu in [0u64, 1, 17, 30] {
        let x = scale_up(mu, 31, q);
        assert_eq!(x, mu * (q / 31));
        assert_eq!(round_down(x, 31, q), mu);
        assert_eq!(round_down(x + 1000, 31, q), mu);
    }
    assert_eq!(round_down(q - 1, 31, q), 0);
    assert_eq!(round_down(5, 4, 16), 1);
}

#[test]
fn polynomial_crt_round_trip() {
    const Q: u64 = Q1 * Q2;
    let q1_inv = mod_inverse(Q1 % Q2, Q2).unwrap();
    let q2_inv = mod_inverse(Q2 % Q1, Q1).unwrap();
    let a = Z_N_CycloRaw::<4, Q>::from_vec(&vec![0, 1, Q - 1, 123456789012345]);
    let a1: Z_N_CycloRaw<4, Q1> = reduce_poly(&a);
    let a2: Z_N_CycloRaw<4, Q2> = reduce_poly(&a);
    assert_eq!(a1.coeff, vec![0, 1, (Q - 1) % Q1, 123456789012345 % Q1]);
    let back: Z_N_CycloRaw<4, Q> = crt_compose_poly(&a1, &a2, q1_inv, q2_inv);
    assert_eq!(back.coeff, a.coeff);
}

#[test]
fn shoup_multiplication() {
    let q = 268369921u64;
    for (a, b) in [(0u64, 5u64), (q - 1, q - 1), (4 * q - 1, 12345), (777, 0)] {
        let ratio = get_ratio32(b, q);
        assert_eq!(ratio, ((b as u128) << 32) as u64 / q);
        let r = mod_mul32(a, b, ratio, q);
        assert!(r < 2 * q);
        assert_eq!(r % q, ((a as u128 * b as u128) % q as u128) as u64);
    }
}

#[test]
fn crt_evaluation_product() {
    const Q: u64 = Q1 * Q2;
    let ctx = CrtNttContext::<4, Q1, Q2>::new(185593570, 188090060).unwrap();
    let a = Z_N_CycloRaw::<4, Q>::from_vec(&vec![1, Q - 2, 3, 123456789012]);
    let b = Z_N_CycloRaw::<4, Q>::from_vec(&vec![Q - 1, 5, 0, 77]);
    let via_crt = a.mul_crt(&b, &ctx);
    assert_eq!(via_crt.coeff, a.mul(&b).coeff);
    let e = IntModCycloCRTEval::from_poly(&a, &ctx);
    let back: Z_N_CycloRaw<4, Q> = e.to_poly(&ctx);
    assert_eq!(back.coeff, a.coeff);
    assert!(CrtNttContext::<4, Q1, Q2>::new(1, 188090060).is_none());
}
