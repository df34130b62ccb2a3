use gsw_scheme::util::{
    augment_matrices, body, matrix_vector_multiplication_mod_q, reduce_mod_q,
    sample_error_eigenvector, sample_uniform_distribution_random_element_mod_q,
    schoolbook_lwe_matrix_multiplication_mod_q,
};
use rand_chacha::rand_core::SeedableRng;
use rand_chacha::ChaCha20Rng;

#[test]
fn reduce_mod_q_reduces() {
    assert_eq!(reduce_mod_q(17, &5), 2);
    assert_eq!(reduce_mod_q(4, &5), 4);
    assert_eq!(reduce_mod_q(10, &10), 0);
    assert_eq!(reduce_mod_q(u128::MAX, &u128::MAX), 0);
}

#[test]
fn matrix_vector_product_mod_q() {
    let a = vec![vec![1, 2, 3], vec![4, 5, 6]];
    let b = vec![7, 8, 9];
    assert_eq!(matrix_vector_multiplication_mod_q(&a, &b, 10), vec![0, 2]);
    assert_eq!(matrix_vector_multiplication_mod_q(&a, &b, 1000), vec![50, 122]);
}

#[test]
fn matrix_vector_product_truncates_to_64_bits() {
    // (2 * (2^64 - 1)) % 2^70 = 2^65 - 2, kept to its low 64 bits.
    let a = vec![vec![u64::MAX]];
    let b = vec![2];
    assert_eq!(matrix_vector_multiplication_mod_q(&a, &b, 1u128 << 70), vec![u64::MAX - 1]);
}

#[test]
fn schoolbook_product_mod_q() {
    let a = vec![vec![1, 2], vec![3, 4]];
    let b = vec![vec![5, 6], vec![7, 8]];
    assert_eq!(
        schoolbook_lwe_matrix_multiplication_mod_q(a.clone(), b.clone(), 7),
        vec![vec![5, 1], vec![1, 1]]
    );
    assert_eq!(
        schoolbook_lwe_matrix_multiplication_mod_q(a, b, 100),
        vec![vec![19, 22], vec![43, 50]]
    );
}

#[test]
fn schoolbook_product_non_square() {
    // (1 x 3) * (3 x 2)
    let a = vec![vec![1, 0, 1]];
    let b = vec![vec![2, 3], vec![5, 7], vec![11, 13]];
    assert_eq!(schoolbook_lwe_matrix_multiplication_mod_q(a, b, 9), vec![vec![4, 7]]);
}

#[test]
fn body_adds_error_and_reduces_euclidean() {
    let b = vec![vec![1, 2], vec![3, 4]];
    let t = vec![5, 6];
    // 17 - 20 = -3 -> 4 (mod 7); 39 + 3 = 42 -> 0 (mod 7)
    assert_eq!(body(&b, &t, &[-20, 3], 7), vec![4, 0]);
    assert_eq!(body(&b, &t, &[0, 0], 1000), vec![17, 39]);
}

#[test]
fn body_is_exact_beyond_signed_range() {
    // (2^64 - 1)^2 exceeds i128::MAX; b = B*t + e (mod q) all the same.
    let m = u64::MAX;
    assert_eq!(body(&[vec![m]], &[m], &[-1], 1000), vec![224]);
    assert_eq!(body(&[vec![m]], &[m], &[5], 997), vec![377]);
    // the most negative error
    assert_eq!(body(&[vec![3]], &[4], &[i64::MIN], 1000), vec![204]);
}

#[test]
fn augment_prepends_column() {
    let b = vec![vec![1, 2], vec![3, 4]];
    assert_eq!(augment_matrices(&[9, 8], &b), vec![vec![9, 1, 2], vec![8, 3, 4]]);
    let empty: Vec<Vec<u64>> = vec![vec![], vec![]];
    assert_eq!(augment_matrices(&[5, 6], &empty), vec![vec![5], vec![6]]);
}

#[test]
fn uniform_samples_stay_below_q() {
    let mut rng = ChaCha20Rng::seed_from_u64(7);
    for _ in 0..200 {
        assert!(sample_uniform_distribution_random_element_mod_q(&mut rng, &7) < 7);
    }
    for _ in 0..20 {
        assert_eq!(sample_uniform_distribution_random_element_mod_q(&mut rng, &1), 0);
    }
}

#[test]
fn error_vector_is_bounded() {
    let mut rng = ChaCha20Rng::seed_from_u64(11);
    let e = sample_error_eigenvector(&mut rng, 3, 50);
    assert_eq!(e.len(), 50);
    assert!(e.iter().all(|&x| -3 <= x && x <= 3));
    assert!(e.iter().any(|&x| x < 0));
    assert!(e.iter().any(|&x| x > 0));
}

#[test]
fn error_vector_with_non_positive_bound_is_zero() {
    let mut rng = ChaCha20Rng::seed_from_u64(13);
    assert_eq!(sample_error_eigenvector(&mut rng, 0, 5), vec![0; 5]);
    assert_eq!(sample_error_eigenvector(&mut rng, -4, 3), vec![0; 3]);
    assert!(sample_error_eigenvector(&mut rng, 2, 0).is_empty());
}
