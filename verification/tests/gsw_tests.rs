use gsw_scheme::gsw::{
    decrypt_bit, encrypt_bit, encrypt_bit_with_randomness, GswKeyPair, GswParameters,
};
use rand_chacha::rand_core::SeedableRng;
use rand_chacha::ChaCha20Rng;

fn small_parameters() -> GswParameters {
    // n = 1, q = 16 (l = 5, N = 10), B = 1, m = 2
    GswParameters::new(1, 16, 1, 2)
}

fn small_randomness() -> Vec<Vec<u64>> {
    (0..10).map(|i| (0..2).map(|k| ((i * 7 + k * 3) % 2) as u64).collect()).collect()
}

#[test]
fn parameters_derive_lengths() {
    let p = GswParameters::new(4, 1024, 1, 64);
    assert_eq!(p.decomposition_length(), 11);
    assert_eq!(p.ciphertext_dimension(), 55);
    assert_eq!(p.lwe_dimension, 4);
    assert_eq!(p.ciphertext_modulus, 1024);
    assert_eq!(p.error_bound, 1);
    assert_eq!(p.public_key_samples, 64);
}

#[test]
fn parameters_edge_moduli() {
    let p = GswParameters::new(2, 1, 0, 3);
    assert_eq!(p.decomposition_length(), 1);
    assert_eq!(p.ciphertext_dimension(), 3);
    let p = GswParameters::new(3, 0, 0, 1);
    assert_eq!(p.decomposition_length(), 0);
    assert_eq!(p.ciphertext_dimension(), 0);
    let p = GswParameters::new(1, 1023, 0, 1);
    assert_eq!(p.decomposition_length(), 10);
    let p = GswParameters::new(1, 1 << 63, 0, 1);
    assert_eq!(p.decomposition_length(), 64);
    let p = GswParameters::new(1, u64::MAX, 0, 1);
    assert_eq!(p.decomposition_length(), 64);
    assert_eq!(p.ciphertext_dimension(), 128);
}

#[test]
fn secret_key_is_powers_of_two_of_negated_vector() {
    // q = 5 (l = 3): s = (1, 5 - 2) = (1, 3), v = (1, 2, 4, 3, 6 % 5, 12 % 5)
    let p = GswParameters::new(1, 5, 1, 1);
    let sk = GswKeyPair::generate_secret_key(&p, &[2]);
    assert_eq!(sk.vector(), &vec![1, 2, 4, 3, 1, 2]);
    let sk = GswKeyPair::generate_secret_key(&p, &[0]);
    assert_eq!(sk.vector(), &vec![1, 2, 4, 0, 0, 0]);
}

#[test]
fn public_key_from_samples_is_body_then_samples() {
    let p = GswParameters::new(2, 7, 20, 2);
    let pk = GswKeyPair::public_key_from_samples(
        &p,
        &[vec![1, 2], vec![3, 4]],
        &[5, 6],
        &[-20, 3],
    );
    assert_eq!(pk.matrix(), &vec![vec![4, 1, 2], vec![0, 3, 4]]);
}

#[test]
fn encryption_with_given_randomness_is_exact() {
    let p = small_parameters();
    let pk = GswKeyPair::public_key_from_samples(&p, &[vec![5], vec![9]], &[3], &[1, -1]);
    assert_eq!(pk.matrix(), &vec![vec![0, 5], vec![10, 9]]);
    let ct = encrypt_bit_with_randomness(&p, &pk, 1, small_randomness());
    let expected: Vec<Vec<u64>> = vec![
        vec![1, 1, 0, 1, 0, 1, 0, 0, 1, 0],
        vec![0, 1, 0, 0, 0, 1, 0, 1, 0, 0],
        vec![0, 1, 1, 1, 0, 1, 0, 0, 1, 0],
        vec![0, 0, 0, 1, 0, 1, 0, 1, 0, 0],
        vec![0, 1, 0, 1, 0, 1, 0, 0, 1, 0],
        vec![0, 0, 0, 0, 0, 0, 1, 1, 0, 0],
        vec![0, 1, 0, 1, 0, 1, 1, 0, 1, 0],
        vec![0, 0, 0, 0, 0, 1, 0, 0, 1, 0],
        vec![0, 1, 0, 1, 0, 1, 0, 0, 0, 0],
        vec![0, 0, 0, 0, 0, 1, 0, 1, 0, 0],
    ];
    assert_eq!(ct.matrix(), &expected);
    assert_eq!(ct.modulus(), 16);
}

#[test]
fn encryption_of_zero_with_given_randomness_is_exact() {
    let p = small_parameters();
    let pk = GswKeyPair::public_key_from_samples(&p, &[vec![5], vec![9]], &[3], &[1, -1]);
    let ct = encrypt_bit_with_randomness(&p, &pk, 0, small_randomness());
    let even = vec![0, 1, 0, 1, 0, 1, 0, 0, 1, 0];
    let odd = vec![0, 0, 0, 0, 0, 1, 0, 1, 0, 0];
    let expected: Vec<Vec<u64>> =
        (0..10).map(|i| if i % 2 == 0 { even.clone() } else { odd.clone() }).collect();
    assert_eq!(ct.matrix(), &expected);
}

#[test]
fn decryption_recovers_small_example() {
    let p = small_parameters();
    let sk = GswKeyPair::generate_secret_key(&p, &[3]);
    assert_eq!(sk.vector(), &vec![1, 2, 4, 8, 0, 13, 10, 4, 8, 0]);
    let pk = GswKeyPair::public_key_from_samples(&p, &[vec![5], vec![9]], &[3], &[1, -1]);
    for bit in [0u8, 1u8] {
        let ct = encrypt_bit_with_randomness(&p, &pk, bit, small_randomness());
        assert_eq!(decrypt_bit(&p, ct, &sk), bit);
    }
}

#[test]
fn key_generation_shapes() {
    let p = GswParameters::new(4, 1024, 1, 64);
    let kp = GswKeyPair::generate_key_pair(&p);
    assert_eq!(kp.secret_key.vector().len(), 55);
    assert_eq!(kp.secret_key.vector()[0], 1);
    let a = kp.public_key.matrix();
    assert_eq!(a.len(), 64);
    assert!(a.iter().all(|row| row.len() == 5 && row.iter().all(|&x| x < 1024)));
}

#[test]
fn generated_public_key_matches_secret() {
    let p = GswParameters::new(3, 97, 2, 10);
    let mut rng = ChaCha20Rng::seed_from_u64(3);
    let t = vec![5, 0, 96];
    let pk = GswKeyPair::generate_public_key(&mut rng, &p, &t);
    // <A_r, (1, -t)> is the error of row r, in [-2, 2] modulo 97.
    for row in pk.matrix() {
        let mut acc: i64 = row[0] as i64;
        for j in 0..3 {
            acc -= row[j + 1] as i64 * t[j] as i64;
        }
        let e = acc.rem_euclid(97);
        assert!(e <= 2 || e >= 95, "row error {}", e);
    }
}

#[test]
fn encrypt_then_decrypt_round_trip() {
    let p = GswParameters::new(4, 1024, 1, 64);
    for _ in 0..3 {
        let kp = GswKeyPair::generate_key_pair(&p);
        for bit in [0u8, 1u8] {
            let ct = encrypt_bit(&p, &kp.public_key, bit);
            assert_eq!(ct.matrix().len(), 55);
            assert!(ct.matrix().iter().all(|r| r.len() == 55 && r.iter().all(|&x| x <= 1)));
            assert_eq!(decrypt_bit(&p, ct, &kp.secret_key), bit);
        }
    }
}

#[test]
fn encrypt_then_decrypt_other_modulus() {
    // q = 1000 is not a power of two: l = 10, N = 30
    let p = GswParameters::new(2, 1000, 1, 8);
    for _ in 0..3 {
        let kp = GswKeyPair::generate_key_pair(&p);
        for bit in [0u8, 1u8] {
            let ct = encrypt_bit(&p, &kp.public_key, bit);
            assert_eq!(decrypt_bit(&p, ct, &kp.secret_key), bit);
        }
    }
}

#[test]
fn flatten_reduces_recomposition_mod_q() {
    // q = 7 (l = 3, N = 6), t = (1), samples [[6]], e = (0): A = [[6, 6]].
    // With R all ones, the decryption row recomposes to 8, which Flatten takes to
    // 8 mod 7 = 1, so the bit 1 decrypts to 1.
    let p = GswParameters::new(1, 7, 0, 1);
    let pk = GswKeyPair::public_key_from_samples(&p, &[vec![6]], &[1], &[0]);
    assert_eq!(pk.matrix(), &vec![vec![6, 6]]);
    let sk = GswKeyPair::generate_secret_key(&p, &[1]);
    assert_eq!(sk.vector(), &vec![1, 2, 4, 6, 5, 3]);
    let ones: Vec<Vec<u64>> = vec![vec![1]; 6];
    let ct = encrypt_bit_with_randomness(&p, &pk, 1, ones.clone());
    let expected: Vec<Vec<u64>> = vec![
        vec![0, 0, 0, 0, 1, 1],
        vec![1, 0, 0, 0, 1, 1],
        vec![1, 1, 0, 0, 1, 1],
        vec![0, 1, 1, 0, 0, 0],
        vec![0, 1, 1, 1, 0, 0],
        vec![0, 1, 1, 1, 1, 0],
    ];
    assert_eq!(ct.matrix(), &expected);
    assert_eq!(decrypt_bit(&p, ct, &sk), 1);
    let ct = encrypt_bit_with_randomness(&p, &pk, 0, ones);
    assert!(ct.matrix().iter().all(|row| row == &vec![0, 1, 1, 0, 1, 1]));
    assert_eq!(decrypt_bit(&p, ct, &sk), 0);
}

#[test]
fn decryption_recovers_non_power_of_two_modulus() {
    // q = 1000 (l = 10, N = 30), m = 3, B = 1
    let p = GswParameters::new(2, 1000, 1, 3);
    let t = vec![17, 999];
    let pk = GswKeyPair::public_key_from_samples(
        &p,
        &[vec![3, 500], vec![999, 0], vec![123, 456]],
        &t,
        &[1, 0, -1],
    );
    assert_eq!(pk.matrix(), &vec![vec![552, 3, 500], vec![983, 999, 0], vec![634, 123, 456]]);
    let sk = GswKeyPair::generate_secret_key(&p, &t);
    let r: Vec<Vec<u64>> = (0..30).map(|i| (0..3).map(|k| ((i + k) % 2) as u64).collect()).collect();
    for bit in [0u8, 1u8] {
        let ct = encrypt_bit_with_randomness(&p, &pk, bit, r.clone());
        assert_eq!(decrypt_bit(&p, ct, &sk), bit);
    }
}
