use gsw_scheme::gsw::{
    decrypt_bit, encrypt_bit, encrypt_bit_with_randomness, find_decryption_index, GswKeyPair,
    GswParameters,
};

#[test]
fn decryption_coefficient_is_a_power_of_two_in_window() {
    for (q, index, coefficient) in [(1024u64, 9usize, 512u64), (1000, 8, 256), (2, 0, 1), (3, 0, 1), (7, 1, 2)] {
        let p = GswParameters::new(1, q, 0, 1);
        let sk = GswKeyPair::generate_secret_key(&p, &[1]);
        assert_eq!(find_decryption_index(&p, &sk), Some(index));
        assert_eq!(sk.vector()[index], coefficient);
    }
}

#[test]
fn no_decryption_coefficient_for_modulus_one() {
    let p = GswParameters::new(1, 1, 0, 1);
    let sk = GswKeyPair::generate_secret_key(&p, &[1]);
    assert_eq!(find_decryption_index(&p, &sk), None);
}

#[test]
fn public_key_times_secret_is_the_error() {
    // A = [B*t + e | B] and s = (1, -t): <A_r, s> = e_r (mod q).
    let q = 101u64;
    let p = GswParameters::new(3, q, 5, 4);
    let b = vec![vec![1, 2, 3], vec![100, 0, 50], vec![7, 7, 7], vec![0, 0, 1]];
    let t = vec![10, 0, 99];
    let e = vec![-5, 5, 0, -1];
    let pk = GswKeyPair::public_key_from_samples(&p, &b, &t, &e);
    let s: Vec<i128> = std::iter::once(1)
        .chain(t.iter().map(|&x| if x == 0 { 0 } else { (q - x) as i128 }))
        .collect();
    for (row, &er) in pk.matrix().iter().zip(e.iter()) {
        let inner: i128 = row.iter().zip(s.iter()).map(|(&a, &x)| a as i128 * x).sum();
        assert_eq!(inner.rem_euclid(q as i128), (er as i128).rem_euclid(q as i128));
    }
}

#[test]
fn ciphertexts_are_binary() {
    let p = GswParameters::new(2, 1000, 1, 6);
    let kp = GswKeyPair::generate_key_pair(&p);
    for bit in [0u8, 1u8] {
        let ct = encrypt_bit(&p, &kp.public_key, bit);
        assert!(ct.matrix().iter().all(|row| row.iter().all(|&x| x <= 1)));
    }
}

#[test]
fn bounded_noise_always_decrypts() {
    // 2 * m * B = 2 * 8 * 2 = 32 <= q / 4 for q = 256 and for q = 200
    for q in [256u64, 200] {
        let p = GswParameters::new(3, q, 2, 8);
        for _ in 0..5 {
            let kp = GswKeyPair::generate_key_pair(&p);
            for bit in [0u8, 1u8, 1u8, 0u8] {
                let ct = encrypt_bit(&p, &kp.public_key, bit);
                assert_eq!(decrypt_bit(&p, ct, &kp.secret_key), bit);
            }
        }
    }
}

#[test]
fn any_modulus_decrypts_both_bits() {
    // q = 999 is not a power of two: 2 * m * B = 20 <= q / 4 = 249.
    let p = GswParameters::new(2, 999, 1, 10);
    for _ in 0..5 {
        let kp = GswKeyPair::generate_key_pair(&p);
        for bit in [0u8, 1u8] {
            let ct = encrypt_bit(&p, &kp.public_key, bit);
            assert_eq!(decrypt_bit(&p, ct, &kp.secret_key), bit);
        }
    }
}

#[test]
fn noiseless_encryption_decrypts_with_any_randomness() {
    // e = 0: the noise is 0 for every R, whatever the modulus.
    for q in [64u64, 7, 45] {
        let t = q / 2;
        let p = GswParameters::new(1, q, 0, 3);
        let sk = GswKeyPair::generate_secret_key(&p, &[t]);
        let samples = [vec![3 % q], vec![40 % q], vec![q - 1]];
        let pk = GswKeyPair::public_key_from_samples(&p, &samples, &[t], &[0, 0, 0]);
        let big_n = p.ciphertext_dimension();
        for pattern in 0..8u64 {
            let r: Vec<Vec<u64>> = (0..big_n)
                .map(|i| (0..3).map(|k| (pattern >> k) & 1 ^ (i as u64 & 1)).collect())
                .collect();
            for bit in [0u8, 1u8] {
                let ct = encrypt_bit_with_randomness(&p, &pk, bit, r.clone());
                assert_eq!(decrypt_bit(&p, ct, &sk), bit);
            }
        }
    }
}
