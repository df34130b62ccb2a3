//! Levelled GSW (Gentry–Sahai–Waters) homomorphic encryption of single bits,
//! with the LWE vector and matrix arithmetic it is built on.
pub mod arith;
pub mod util;
pub mod gsw;
pub mod correctness;
pub mod primitives;
