# gsw_scheme

A levelled GSW (Gentry–Sahai–Waters) homomorphic encryption scheme for single-bit
messages over `Z_q`, written in Verus.

- `src/util.rs`: modular matrix and vector arithmetic (`A*b`, `A*B`, `B*t + e`,
  `[a | B]`) and the samplers for `Z_q` elements and bounded errors.
- `src/gsw.rs`: parameters (`l = floor(log2 q) + 1`, `N = (n + 1) * l`), `BitDecomp`,
  `BitDecomp^{-1}`, `Flatten` over `Z_q` (each recomposed coefficient reduced mod `q`
  before it is decomposed again), `Powersof2`, key generation, encryption and decryption.
  Every function that draws randomness hands the drawn values to a function that takes
  them as arguments, so the arithmetic is specified exactly.
- `src/correctness.rs`: the properties of the scheme, proved: `BitDecomp^{-1}` undoes
  `BitDecomp`, `<BitDecomp(a), Powersof2(b)> = <a, b> (mod q)`, `Flatten` keeps inner
  products with `Powersof2` vectors and applying it twice is applying it once,
  ciphertexts are binary, `A * (1, -t) = e (mod q)`, and for every `q >= 2` with
  `2 * m * B <= q / 4` (and `q + q/2 <= 2^64`, so that a recomposed coefficient fits
  64 bits) decryption recovers the encrypted bit.
- `src/arith.rs`: finite sums and the facts about them used by the proofs.
- `src/primitives/lwe/`: LWE key and ciphertext types.
- `app/`: the command-line demonstration and the LWE parameter types that carry
  floating-point values.
