//! Learning-with-errors samples.
pub mod lwe;
