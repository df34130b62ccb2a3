//! LWE keys and ciphertexts.
use vstd::prelude::*;

verus! {

/// An LWE secret key.
pub struct LweSecretKey;

/// Structure of a LWE sample / ciphertext.
/// An LWE sample `c = (a, b)` where:
/// `a <- Chi^m` is sampled from a random distribution of size `n`,
/// `b = As + e (mod q)` where `A` is a randomly sampled matrix.
pub struct LweCiphertext {
    pub mask: Vec<usize>,
    pub body: u64,
}

} // verus!
