use respire::ntt::{evaluation_points_bit_reversed, has_avx2, ntt_neg_backward, ntt_neg_forward, Aligned64, NttTable};
use respire::number_theory::{find_sqrt_primitive_root, reverse_bits};

const P: u64 = 268369921;

fn mul_mod(a: u64, b: u64, q: u64) -> u64 {
    ((a as u128 * b as u128) % q as u128) as u64
}

fn pow_mod(a: u64, e: u64, q: u64) -> u64 {
    let mut r = 1 % q;
    for _ in 0..e {
        r = mul_mod(r, a, q);
    }
    r
}

fn eval(coeffs: &[u64], x: u64, q: u64) -> u64 {
    let mut acc = 0u64;
    for c in coeffs.iter().rev() {
        acc = (mul_mod(acc, x, q) + c % q) % q;
    }
    acc
}

fn table(d: usize) -> (NttTable, u64) {
    let w = find_sqrt_primitive_root(d, P).unwrap();
    (NttTable::new(d, P, w).unwrap(), w)
}

fn forward_size(d: usize) {
    let (t, w) = table(d);
    let coeffs: Vec<u64> = (0..d as u64).map(|i| i + 1).collect();
    let mut values = Aligned64(coeffs.clone());
    ntt_neg_forward(&mut values, &t);
    let mut expected = vec![0u64; d];
    for i in 0..d {
        expected[reverse_bits(d, i)] = eval(&coeffs, pow_mod(w, 2 * (i as u64) + 1, P), P);
    }
    assert_eq!(values.0, expected);
}

#[test]
fn test_ntt_neg_forward() {
    let (t, w) = table(4);
    let mut values = Aligned64(vec![1u64, 2, 3, 4]);
    let coeffs = [1u64, 2, 3, 4];
    ntt_neg_forward(&mut values, &t);
    let expected = vec![
        eval(&coeffs, w, P),
        eval(&coeffs, pow_mod(w, 5, P), P), // swapped, since order is bit reversed
        eval(&coeffs, pow_mod(w, 3, P), P),
        eval(&coeffs, pow_mod(w, 7, P), P),
    ];
    assert_eq!(values.0, expected);
}

#[test]
fn test_ntt_neg_inverses() {
    let (t, _) = table(4);
    let mut values = Aligned64(vec![1u64, 2, 3, 4]);
    let expected = values.0.clone();
    ntt_neg_forward(&mut values, &t);
    ntt_neg_backward(&mut values, &t);
    assert_eq!(values.0, expected);
}

#[test]
fn test_ntt_neg_mul() {
    let (t, _) = table(4);
    let mut values1 = Aligned64(vec![1u64, 2, 3, 4]);
    let mut values2 = Aligned64(vec![5u64, 6, 7, 8]);
    ntt_neg_forward(&mut values1, &t);
    ntt_neg_forward(&mut values2, &t);
    let mut result_points = Aligned64((0..4).map(|i| mul_mod(values1.0[i], values2.0[i], P)).collect::<Vec<u64>>());
    ntt_neg_backward(&mut result_points, &t);

    let a = [1u64, 2, 3, 4];
    let b = [5u64, 6, 7, 8];
    let mut product = vec![0u64; 8];
    for i in 0..4 {
        for j in 0..4 {
            product[i + j] = (product[i + j] + mul_mod(a[i], b[j], P)) % P;
        }
    }
    // x^4 = -1
    let expected: Vec<u64> = (0..4).map(|i| (product[i] + P - product[i + 4]) % P).collect();
    assert_eq!(expected, result_points.0);
}

#[test]
fn test_ntt_forward_8() {
    forward_size(8);
}

#[test]
fn test_ntt_forward_16() {
    forward_size(16);
}

#[test]
fn test_ntt_forward_32() {
    forward_size(32);
}

#[test]
fn test_ntt_forward_64() {
    forward_size(64);
}

#[test]
fn test_ntt_forward_128() {
    forward_size(128);
}

#[test]
fn ntt_round_trip_production_size() {
    let (t, _) = table(2048);
    let coeffs: Vec<u64> = (0..2048u64).map(|i| (i * 7919 + 11) % P).collect();
    let mut values = Aligned64(coeffs.clone());
    ntt_neg_forward(&mut values, &t);
    assert_ne!(values.0, coeffs);
    ntt_neg_backward(&mut values, &t);
    assert_eq!(values.0, coeffs);
}

#[test]
fn ntt_table_rejects_bad_roots() {
    // 1 is no primitive root, and 3 is no power of two
    assert!(NttTable::new(4, P, 1).is_none());
    let w = find_sqrt_primitive_root(4, P).unwrap();
    assert!(NttTable::new(3, P, w).is_none());
    assert!(NttTable::new(4, P, w).is_some());
}

#[test]
fn found_root_has_order_2d() {
    for d in [4usize, 8, 2048] {
        let w = find_sqrt_primitive_root(d, P).unwrap();
        assert_eq!(pow_mod(w, d as u64, P), P - 1);
    }
    // 2 * 4096 does not divide 12 - 1
    assert_eq!(find_sqrt_primitive_root(4096, 12), None);
}

#[test]
fn transforms_are_scalar() {
    assert!(!has_avx2());
}

#[test]
fn point_table_holds_odd_powers() {
    let w = find_sqrt_primitive_root(8, P).unwrap();
    let t = evaluation_points_bit_reversed(8, P, w);
    for i in 0..8 {
        assert_eq!(t[i], pow_mod(w, 2 * reverse_bits(8, i) as u64 + 1, P));
    }
    assert_eq!(t[1], pow_mod(w, 9, P));
}
