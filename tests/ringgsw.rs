use respire::gsw::{ring_gsw_ntt_crt_test_params, Params, RingGSWNTTCRT};

const D: usize = 4;
const Q: u64 = 268369921 * 249561089;
const P: u64 = 31;

type Gsw = RingGSWNTTCRT<D, Q>;

fn scheme() -> Gsw {
    Gsw::from_params(&ring_gsw_ntt_crt_test_params()).unwrap()
}

#[test]
fn ringgsw_ntt_crt_keygen_is_correct() {
    let params = ring_gsw_ntt_crt_test_params();
    let threshold = 4f64 * (params.NOISE_WIDTH_MILLIONTHS as f64 / 1_000_000_f64);
    let gsw = scheme();
    let (a, s_t) = gsw.keygen();
    let e = s_t.s_T.mul(&a.A);

    for i in 0..params.M {
        assert!((e.get(0, i).norm() as f64) < threshold, "e^T = s_T * A was too big");
    }
}

#[test]
fn ringgsw_ntt_crt_encryption_is_correct() {
    let gsw = scheme();
    let (a, s_t) = gsw.keygen();
    for i in 0_u64..10_u64 {
        let mu = i % P;
        let ct = gsw.encrypt(&a, mu);
        let pt = gsw.decrypt(&s_t, &ct);
        assert_eq!(pt, mu, "decryption failed");
    }
}

#[test]
fn ringgsw_ntt_crt_homomorphism_is_correct() {
    let gsw = scheme();
    let (a, s_t) = gsw.keygen();
    for i in 0_u64..10_u64 {
        for j in 0_u64..10_u64 {
            let mu1 = i % P;
            let mu2 = j % P;
            let ct1 = gsw.encrypt(&a, mu1);
            let ct2 = gsw.encrypt(&a, mu2);

            let pt_add_ct = gsw.decrypt(&s_t, &gsw.add_hom(&ct1, &ct2));
            let pt_mul_ct = gsw.decrypt(&s_t, &gsw.mul_hom(&ct1, &ct2));
            let pt_mul_scalar = gsw.decrypt(&s_t, &gsw.mul_scalar(&ct1, mu2));

            assert_eq!(pt_add_ct, (mu1 + mu2) % P, "ciphertext addition failed");
            assert_eq!(pt_mul_ct, (mu1 * mu2) % P, "ciphertext multiplication failed");
            assert_eq!(pt_mul_scalar, (mu1 * mu2) % P, "multiplication by scalar failed");
        }
    }
}

#[test]
fn ringgsw_ntt_crt_homomorphism_mul_multiple_correct() {
    let gsw = scheme();
    let (a, s_t) = gsw.keygen();
    let mu1 = 5_u64;
    let mu2 = 12_u64;
    let mu3 = 6_u64;
    let mu4 = 18_u64;

    let ct1 = gsw.encrypt(&a, mu1);
    let ct2 = gsw.encrypt(&a, mu2);
    let ct3 = gsw.encrypt(&a, mu3);
    let ct4 = gsw.encrypt(&a, mu4);

    let ct12 = gsw.mul_hom(&ct1, &ct2);
    let ct34 = gsw.mul_hom(&ct3, &ct4);
    let ct1234 = gsw.mul_hom(&ct12, &ct34);

    let pt12 = gsw.decrypt(&s_t, &ct12);
    let pt34 = gsw.decrypt(&s_t, &ct34);
    let pt1234 = gsw.decrypt(&s_t, &ct1234);

    assert_eq!(pt12, (mu1 * mu2) % P);
    assert_eq!(pt34, (mu3 * mu4) % P);
    assert_eq!(pt1234, (((mu1 * mu2) % P * mu3) % P * mu4) % P);
    // 5 * 12 * 6 * 18 = 6480 = 209 * 31 + 1
    assert_eq!(pt1234, 1);
}

#[test]
fn boundary_plaintexts_decrypt() {
    let gsw = scheme();
    let (a, s_t) = gsw.keygen();
    for mu in [0, P - 1] {
        let ct = gsw.encrypt(&a, mu);
        assert_eq!(gsw.decrypt(&s_t, &ct), mu);
        let ct_sk = gsw.encrypt_sk(&s_t, mu);
        assert_eq!(gsw.decrypt(&s_t, &ct_sk), mu);
    }
}

#[test]
fn scalar_addition_decrypts() {
    let gsw = scheme();
    let (a, s_t) = gsw.keygen();
    let ct = gsw.encrypt(&a, 20);
    assert_eq!(gsw.decrypt(&s_t, &gsw.add_scalar(&ct, 15)), 4);
}

#[test]
fn secret_key_ends_in_minus_one() {
    let gsw = scheme();
    let (_, s_t) = gsw.keygen();
    assert_eq!(s_t.s_T.get(0, 1).coeff, vec![Q - 1, 0, 0, 0]);
    assert_eq!((gsw.n, gsw.m, gsw.g_len), (2, 112, 56));
}

#[test]
fn inconsistent_params_are_rejected() {
    let good = ring_gsw_ntt_crt_test_params();
    assert!(RingGSWNTTCRT::<8, Q>::from_params(&good).is_none());
    assert!(RingGSWNTTCRT::<D, 97>::from_params(&good).is_none());
    let bad_m = Params { M: 110, ..good };
    assert!(Gsw::from_params(&bad_m).is_none());
    let bad_root = Params { W1: 1, ..good };
    assert!(Gsw::from_params(&bad_root).is_none());
    // with p = 2^40 the fresh noise estimate exceeds Q / (2p)
    let too_noisy = Params { P: 1 << 40, ..good };
    assert!(Gsw::from_params(&too_noisy).is_none());
}
