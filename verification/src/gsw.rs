//! The levelled GSW scheme over `Z_q` for one-bit messages: parameters, key
//! generation, encryption with `Flatten`, and decryption.
use crate::arith::{dot, lemma_dot_monotone, lemma_sum_bounded, sum};
use crate::util::{
    augment_matrices, body, body_entry, bounded_error_vector, column, reduce_mod_q, rows,
    sample_error_eigenvector, sample_uniform_distribution_random_element_mod_q,
    schoolbook_lwe_matrix_multiplication_mod_q,
};
use rand_chacha::rand_core::SeedableRng;
use rand_chacha::ChaCha20Rng;
use vstd::arithmetic::div_mod::*;
use vstd::arithmetic::logarithm::{lemma_log_nonnegative, log};
use vstd::arithmetic::mul::*;
use vstd::arithmetic::power2::*;
use vstd::bits::*;
use vstd::prelude::*;

verus! {

/// `l = floor(log2(q)) + 1` for `q >= 1`: the number of binary digits of `q`
/// (and 0 for `q == 0`).
pub open spec fn decomposition_length_for(q: nat) -> nat {
    if q == 0 {
        0
    } else {
        (log(2, q as int) + 1) as nat
    }
}

/// GSW encryption scheme parameters.
#[derive(Clone)]
pub struct GswParameters {
    /// LWE lattice dimension `n`, the base secret vector has length `n + 1`.
    pub lwe_dimension: usize,
    /// Ciphertext coefficient modulus `q`, arithmetic is performed over `Z_q`.
    pub ciphertext_modulus: u64,
    /// Error bound `B`, each sampled error coefficient lies in `[-B, B]`.
    pub error_bound: i64,
    /// Number of public-key LWE samples `m`, matrix `A` has `m` rows.
    pub public_key_samples: usize,
    /// Bit-decomposition length `l = floor(log2(q)) + 1`.
    decomposition_length: usize,
    /// Ciphertext dimension `N = (n + 1) * l`.
    ciphertext_dimension: usize,
}

/// Two fields of `GswParameters` are private, so outside this module the type is
/// abstract to the verifier, and no public contract may name its fields. Contracts
/// speak of the public fields through `n_spec`, `q_spec`, `b_spec` and `m_spec`, which
/// read exactly those fields; `GswParameters::new` states their values.
impl GswParameters {
    /// The LWE dimension `n`: the field `lwe_dimension`.
    pub closed spec fn n_spec(&self) -> nat {
        self.lwe_dimension as nat
    }

    /// The ciphertext modulus `q`: the field `ciphertext_modulus`.
    pub closed spec fn q_spec(&self) -> nat {
        self.ciphertext_modulus as nat
    }

    /// The error bound `B`: the field `error_bound`.
    pub closed spec fn b_spec(&self) -> i64 {
        self.error_bound
    }

    /// The number `m` of public-key samples: the field `public_key_samples`.
    pub closed spec fn m_spec(&self) -> nat {
        self.public_key_samples as nat
    }

    /// The bit-decomposition length `l` held by these parameters.
    pub closed spec fn l_spec(&self) -> nat {
        self.decomposition_length as nat
    }

    /// The ciphertext dimension `N` held by these parameters.
    pub closed spec fn big_n_spec(&self) -> nat {
        self.ciphertext_dimension as nat
    }

    /// The derived lengths agree with the public fields:
    /// `l = floor(log2(q)) + 1` and `N = (n + 1) * l`.
    pub open spec fn wf(&self) -> bool {
        &&& self.l_spec() == decomposition_length_for(self.q_spec())
        &&& self.big_n_spec() == (self.n_spec() + 1) * self.l_spec()
    }

    /// The bit-decomposition length `l`.
    pub fn decomposition_length(&self) -> (l: usize)
        ensures
            l == self.l_spec(),
    {
        self.decomposition_length
    }

    /// The ciphertext dimension `N`.
    pub fn ciphertext_dimension(&self) -> (big_n: usize)
        ensures
            big_n == self.big_n_spec(),
    {
        self.ciphertext_dimension
    }

    /// Each field fits its machine type.
    pub proof fn lemma_field_ranges(&self)
        ensures
            self.n_spec() <= usize::MAX,
            self.q_spec() <= u64::MAX,
            i64::MIN <= self.b_spec() <= i64::MAX,
            self.m_spec() <= usize::MAX,
            self.l_spec() <= usize::MAX,
            self.big_n_spec() <= usize::MAX,
    {
    }

    /// Parameters for dimension `n`, modulus `q`, error bound `B` and `m` public-key
    /// samples, with `l` and `N` derived from them.
    pub fn new(
        lwe_dimension: usize,
        ciphertext_modulus: u64,
        error_bound: i64,
        public_key_samples: usize,
    ) -> (params: Self)
        requires
            lwe_dimension < usize::MAX,
            (lwe_dimension + 1) * decomposition_length_for(ciphertext_modulus as nat)
                <= usize::MAX,
        ensures
            params.n_spec() == lwe_dimension,
            params.q_spec() == ciphertext_modulus,
            params.b_spec() == error_bound,
            params.m_spec() == public_key_samples,
            params.wf(),
    {
        let mut params = GswParameters {
            lwe_dimension,
            ciphertext_modulus,
            error_bound,
            public_key_samples,
            decomposition_length: 0,
            ciphertext_dimension: 0,
        };
        params.compute_params();
        params
    }

    fn compute_params(&mut self)
        requires
            old(self).lwe_dimension < usize::MAX,
            (old(self).lwe_dimension + 1) * decomposition_length_for(
                old(self).ciphertext_modulus as nat,
            ) <= usize::MAX,
        ensures
            final(self).n_spec() == old(self).n_spec(),
            final(self).q_spec() == old(self).q_spec(),
            final(self).b_spec() == old(self).b_spec(),
            final(self).m_spec() == old(self).m_spec(),
            final(self).wf(),
    {
        let decomposition_length = decomposition_length_of(self.ciphertext_modulus);
        proof {
            lemma_mul_nonnegative(
                (self.lwe_dimension + 1) as int,
                decomposition_length as int,
            );
        }
        let ciphertext_dimension = (self.lwe_dimension + 1) * decomposition_length;
        self.decomposition_length = decomposition_length;
        self.ciphertext_dimension = ciphertext_dimension;
    }

    /// A fresh copy of the public fields with `l` and `N` derived again.
    fn from(&self) -> (params: Self)
        requires
            self.lwe_dimension < usize::MAX,
            (self.lwe_dimension + 1) * decomposition_length_for(self.ciphertext_modulus as nat)
                <= usize::MAX,
        ensures
            params.n_spec() == self.n_spec(),
            params.q_spec() == self.q_spec(),
            params.b_spec() == self.b_spec(),
            params.m_spec() == self.m_spec(),
            params.wf(),
    {
        let mut params = GswParameters {
            lwe_dimension: self.lwe_dimension,
            ciphertext_modulus: self.ciphertext_modulus,
            error_bound: self.error_bound,
            public_key_samples: self.public_key_samples,
            decomposition_length: 0,
            ciphertext_dimension: 0,
        };
        params.compute_params();
        params
    }
}

/// `floor(log2(q)) + 1` digits of `q` (one more than the number of halvings of
/// `q` before it drops below 2).
proof fn lemma_decomposition_length_step(x: nat)
    requires
        x >= 1,
    ensures
        decomposition_length_for(x) == 1 + decomposition_length_for(x / 2),
{
    reveal(log);
    if x >= 2 {
        lemma_log_nonnegative(2, x as int / 2);
        assert(log(2, x as int) == 1 + log(2, x as int / 2));
        assert(x / 2 >= 1);
    } else {
        assert(log(2, 1) == 0);
    }
}

/// A number below `2^k` has at most `k` binary digits.
pub proof fn lemma_decomposition_length_bound(x: nat, k: nat)
    requires
        x < pow2(k),
    ensures
        decomposition_length_for(x) <= k,
    decreases k,
{
    if x >= 1 {
        lemma_decomposition_length_step(x);
        if k == 0 {
            assert(pow2(0) == 1) by {
                lemma2_to64();
            }
        } else {
            lemma_pow2_unfold(k);
            lemma_decomposition_length_bound(x / 2, (k - 1) as nat);
        }
    }
}

/// `2^(l-1) <= q < 2^l` for `q >= 1` and `l = floor(log2(q)) + 1`.
pub proof fn lemma_decomposition_length_range(x: nat)
    requires
        x >= 1,
    ensures
        decomposition_length_for(x) >= 1,
        pow2((decomposition_length_for(x) - 1) as nat) <= x < pow2(decomposition_length_for(x)),
    decreases x,
{
    lemma_decomposition_length_step(x);
    if x == 1 {
        assert(decomposition_length_for(0) == 0);
        lemma2_to64();
    } else {
        lemma_decomposition_length_range(x / 2);
        let l = decomposition_length_for(x);
        lemma_pow2_unfold(l);
        lemma_pow2_unfold((l - 1) as nat);
        if l - 1 == 0 {
            lemma2_to64();
        }
    }
}

/// Compute `l = floor(log2(q)) + 1` by counting halvings.
fn decomposition_length_of(q: u64) -> (l: usize)
    ensures
        l == decomposition_length_for(q as nat),
        l <= 64,
{
    let mut x = q;
    let mut l: usize = 0;
    proof {
        lemma2_to64_rest();
        lemma_decomposition_length_bound(q as nat, 64);
    }
    while x > 0
        invariant
            decomposition_length_for(q as nat) == l + decomposition_length_for(x as nat),
            decomposition_length_for(q as nat) <= 64,
        decreases x,
    {
        proof {
            lemma_decomposition_length_step(x as nat);
        }
        x = x / 2;
        l = l + 1;
    }
    l
}

/// Bit `j` of `x` (0 or 1), least significant first.
pub open spec fn bit_at(x: nat, j: nat) -> nat {
    (x / pow2(j)) % 2
}

/// `BitDecomp` of a vector: `l` bits of each entry, least significant first, so
/// entry `c` is bit `c % l` of `row[c / l]`.
pub open spec fn bit_decomp_row(row: Seq<u64>, l: nat) -> Seq<u64> {
    Seq::new(row.len() * l, |c: int| bit_at(row[c / l as int] as nat, (c % l as int) as nat) as u64)
}

/// `BitDecomp` of a matrix: the bit decompositions of its rows, one after the other.
pub open spec fn bit_decomp(m: Seq<Seq<u64>>, l: nat) -> Seq<u64>
    decreases m.len(),
{
    if m.len() == 0 {
        Seq::empty()
    } else {
        bit_decomp(m.drop_last(), l) + bit_decomp_row(m.last(), l)
    }
}

/// The terms `j |-> row[start + j] * 2^j` of a recomposition.
pub open spec fn recompose_terms(row: Seq<u64>, start: int) -> spec_fn(int) -> int {
    |j: int| row[start + j] as int * pow2(j as nat) as int
}

/// `sum_{j < l} row[start + j] * 2^j`.
pub open spec fn recompose(row: Seq<u64>, start: int, l: nat) -> int {
    sum(l as int, recompose_terms(row, start))
}

/// `BitDecomp^{-1}` of a vector: entry `i` recomposes the `l` coefficients from
/// index `i * l` as `sum_j row[i*l + j] * 2^j`, kept to 64 bits.
pub open spec fn inverse_bit_decomp(row: Seq<u64>, l: nat) -> Seq<u64> {
    Seq::new(row.len() / l, |i: int| recompose(row, i * l, l) as u64)
}

/// Each coefficient of `y` reduced modulo `q`.
pub open spec fn reduce_row(y: Seq<u64>, q: nat) -> Seq<u64> {
    Seq::new(y.len(), |k: int| (y[k] as nat % q) as u64)
}

/// `Flatten(A) = BitDecomp(BitDecomp^{-1}(A))` over `Z_q`, row by row: each
/// recomposed coefficient is taken modulo `q` before it is decomposed again.
pub open spec fn flatten_spec(m: Seq<Seq<u64>>, l: nat, q: nat) -> Seq<Seq<u64>> {
    Seq::new(m.len(), |i: int| bit_decomp_row(reduce_row(inverse_bit_decomp(m[i], l), q), l))
}

/// Entry `j` of `Powersof2(a)` for one coefficient: `a` itself for `j == 0`, then
/// `a * 2^j mod q`.
pub open spec fn power_entry(a: u64, j: nat, q: nat) -> u64 {
    if j == 0 {
        a
    } else {
        ((a as nat * pow2(j)) % q) as u64
    }
}

/// `Powersof2(a) = (a_1, 2a_1, ..., 2^{l-1}a_1, ..., a_k, ..., 2^{l-1}a_k)`, reduced mod `q`
/// (see [`power_entry`]).
pub open spec fn powers_of_two(a: Seq<u64>, l: nat, q: nat) -> Seq<u64> {
    Seq::new(a.len() * l, |c: int| power_entry(a[c / l as int], (c % l as int) as nat, q))
}

/// The `N x N` identity matrix.
pub open spec fn identity(n: nat) -> Seq<Seq<u64>> {
    Seq::new(n, |i: int| Seq::new(n, |c: int| if i == c { 1u64 } else { 0u64 }))
}

/// `(i*l + j) / l == i` and `(i*l + j) % l == j` for `j < l`.
pub proof fn lemma_index_split(i: int, j: int, l: int)
    requires
        0 <= i,
        0 <= j < l,
    ensures
        (i * l + j) / l == i,
        (i * l + j) % l == j,
{
    lemma_fundamental_div_mod_converse(i * l + j, l, i, j);
}

/// `(x >> j) & 1` is bit `j` of `x`.
proof fn lemma_shift_bit(x: u64, j: u64)
    requires
        j < 64,
    ensures
        (x >> j) & 1 == bit_at(x as nat, j as nat),
{
    lemma_u64_shr_is_div(x, j);
    let y = x >> j;
    assert(y & 1 == y % 2) by (bit_vector);
}

/// Generate the identity square matrix of size `N x N`.
fn identity_matrix(parameters: &GswParameters) -> (out: Vec<Vec<u64>>)
    requires
        parameters.big_n_spec() > 0,
    ensures
        rows(out@) == identity(parameters.big_n_spec()),
{
    let ciphertext_dimension = parameters.ciphertext_dimension;
    let mut output_vec: Vec<Vec<u64>> = Vec::new();
    for i in 0..ciphertext_dimension
        invariant
            ciphertext_dimension == parameters.big_n_spec(),
            output_vec@.len() == i,
            forall|r: int|
                0 <= r < i ==> (#[trigger] output_vec@[r])@ == identity(
                    ciphertext_dimension as nat,
                )[r],
    {
        let mut row: Vec<u64> = Vec::new();
        for c in 0..ciphertext_dimension
            invariant
                0 <= i < ciphertext_dimension,
                row@.len() == c,
                forall|k: int| 0 <= k < c ==> #[trigger] row@[k] == if i == k { 1u64 } else { 0u64 },
        {
            if c == i {
                row.push(1);
            } else {
                row.push(0);
            }
        }
        assert(row@ =~= identity(ciphertext_dimension as nat)[i as int]);
        output_vec.push(row);
    }
    assert(rows(output_vec@) =~= identity(ciphertext_dimension as nat));
    output_vec
}

/// `BitDecomp(a)`: every coefficient of every row broken into `l` bits, least
/// significant first, rows one after the other.
fn bit_decomposition(parameters: &GswParameters, input_eigenvector: &[Vec<u64>]) -> (out: Vec<u64>)
    requires
        parameters.l_spec() <= 64,
    ensures
        out@ == bit_decomp(rows(input_eigenvector@), parameters.l_spec()),
{
    let l = parameters.decomposition_length;
    let ghost m = rows(input_eigenvector@);
    let mut output_vec: Vec<u64> = Vec::new();
    for r in 0..input_eigenvector.len()
        invariant
            l == parameters.l_spec(),
            l <= 64,
            m == rows(input_eigenvector@),
            output_vec@ == bit_decomp(m.take(r as int), l as nat),
    {
        let row = &input_eigenvector[r];
        let ghost base = output_vec@;
        proof {
            lemma_mul_basics(l as int);
        }
        for i in 0..row.len()
            invariant
                l <= 64,
                output_vec@.len() == base.len() + i * l,
                output_vec@.subrange(0, base.len() as int) == base,
                forall|c: int|
                    0 <= c < i * l ==> #[trigger] output_vec@[base.len() + c] == bit_at(
                        row@[c / l as int] as nat,
                        (c % l as int) as nat,
                    ) as u64,
        {
            let ai = row[i];
            for j in 0..l
                invariant
                    0 <= i < row@.len(),
                    ai == row@[i as int],
                    l <= 64,
                    output_vec@.len() == base.len() + i * l + j,
                    output_vec@.subrange(0, base.len() as int) == base,
                    forall|c: int|
                        0 <= c < i * l + j ==> #[trigger] output_vec@[base.len() + c] == bit_at(
                            row@[c / l as int] as nat,
                            (c % l as int) as nat,
                        ) as u64,
            {
                proof {
                    lemma_shift_bit(ai, j as u64);
                    lemma_index_split(i as int, j as int, l as int);
                }
                output_vec.push((ai >> j) & 1);
                assert(output_vec@.subrange(0, base.len() as int) =~= base);
            }
            assert((i + 1) * l == i * l + l) by (nonlinear_arith);
        }
        proof {
            let bd = bit_decomp_row(row@, l as nat);
            assert(output_vec@ =~= base + bd) by {
                assert forall|k: int| 0 <= k < output_vec@.len() implies output_vec@[k] == (base
                    + bd)[k] by {
                    if k < base.len() {
                        assert(output_vec@[k] == output_vec@.subrange(0, base.len() as int)[k]);
                    } else {
                        assert(output_vec@[base.len() + (k - base.len())] == output_vec@[k]);
                    }
                }
            }
            assert(m.take(r + 1).drop_last() =~= m.take(r as int));
            assert(m.take(r + 1).last() == row@);
        }
    }
    assert(m.take(input_eigenvector@.len() as int) =~= m);
    output_vec
}

/// `c << j == c * 2^j` for a 64-bit value held in a `u128` and `j < 64`.
proof fn lemma_u128_shl_small(c: u128, j: usize)
    requires
        c < 0x1_0000_0000_0000_0000,
        j < 64,
    ensures
        c << j == c * pow2(j as nat),
{
    lemma_u64_pow2_no_overflow(j as nat);
    assert(1u64 * pow2(j as nat) == pow2(j as nat));
    lemma_u64_shl_is_mul(1u64, j as u64);
    assert((1u128 << j) == ((1u64 << (j as u64)) as u128)) by (bit_vector)
        requires
            j < 64,
    ;
    assert(c << j == c * (1u128 << j)) by (bit_vector)
        requires
            c < 0x1_0000_0000_0000_0000,
            j < 64,
    ;
}

/// `i * l + j < len` for `i < len / l` and `j < l`.
proof fn lemma_block_index(i: int, j: int, l: int, len: int)
    requires
        0 <= i < len / l,
        0 <= j < l,
        0 <= len,
    ensures
        0 <= i * l + j < len,
        i * l + j < (i + 1) * l <= len,
{
    lemma_fundamental_div_mod(len, l);
    lemma_mul_inequality(i + 1, len / l, l);
    lemma_mul_is_commutative(l, len / l);
    lemma_mul_is_distributive_add_other_way(l, i, 1);
    lemma_mul_nonnegative(i, l);
    lemma_mod_bound(len, l);
}

/// `BitDecomp^{-1}(a)`: recompose each block of `l` coefficients as
/// `sum_j a[i*l + j] * 2^j`, kept to 64 bits.
fn inverse_bit_decomposition(parameters: &GswParameters, input_eigenvector: &[u64]) -> (out: Vec<u64>)
    requires
        0 < parameters.l_spec() <= 64,
        forall|i: int|
            0 <= i < (input_eigenvector@.len() as int) / (parameters.l_spec() as int) ==> #[trigger] recompose(
                input_eigenvector@,
                i * parameters.l_spec(),
                parameters.l_spec(),
            ) <= u128::MAX,
    ensures
        out@ == inverse_bit_decomp(input_eigenvector@, parameters.l_spec()),
{
    let len = input_eigenvector.len();
    let k = len / parameters.decomposition_length;
    let bit_level = parameters.decomposition_length;
    let ghost row = input_eigenvector@;
    let mut output_vec: Vec<u64> = Vec::with_capacity(k);
    for i in 0..k
        invariant
            k == (row.len() as int) / (bit_level as int),
            0 < bit_level <= 64,
            bit_level == parameters.l_spec(),
            row == input_eigenvector@,
            len == row.len(),
            forall|i: int|
                0 <= i < (row.len() as int) / (bit_level as int) ==> #[trigger] recompose(
                    row,
                    i * bit_level,
                    bit_level as nat,
                ) <= u128::MAX,
            output_vec@.len() == i,
            forall|r: int|
                0 <= r < i ==> #[trigger] output_vec@[r] == inverse_bit_decomp(
                    row,
                    bit_level as nat,
                )[r],
    {
        let mut value: u128 = 0;
        let ghost terms = recompose_terms(row, i * bit_level);
        proof {
            assert(recompose(row, i * bit_level, bit_level as nat) <= u128::MAX);
            assert forall|j: int| 0 <= j < bit_level implies #[trigger] terms(j) >= 0 by {
                lemma_mul_nonnegative(row[i * bit_level + j] as int, pow2(j as nat) as int);
            }
        }
        for j in 0..bit_level
            invariant
                0 <= i < k,
                k == (row.len() as int) / (bit_level as int),
                0 < bit_level <= 64,
                row == input_eigenvector@,
                len == row.len(),
                terms == recompose_terms(row, i * bit_level),
                forall|j: int| 0 <= j < bit_level ==> #[trigger] terms(j) >= 0,
                sum(bit_level as int, terms) <= u128::MAX,
                value == sum(j as int, terms),
        {
            proof {
                lemma_block_index(i as int, j as int, bit_level as int, row.len() as int);
                assert(i * bit_level + j < input_eigenvector@.len());
                crate::arith::lemma_sum_monotone(j + 1, bit_level as int, terms);
                lemma_u128_shl_small(input_eigenvector[i * bit_level + j] as u128, j);
            }
            let coeff_value = input_eigenvector[i * bit_level + j] as u128;
            value = value + (coeff_value << j);
        }
        assert(value == recompose(row, i * bit_level, bit_level as nat));
        output_vec.push(value as u64);
    }
    assert(output_vec@ =~= inverse_bit_decomp(row, bit_level as nat));
    output_vec
}

/// Each coefficient of `y` reduced modulo `q`, as `reduce_mod_q` gives it.
fn reduce_row_mod_q(y: &Vec<u64>, q: u64) -> (out: Vec<u64>)
    requires
        q > 0,
    ensures
        out@ == reduce_row(y@, q as nat),
{
    let mut out: Vec<u64> = Vec::with_capacity(y.len());
    for k in 0..y.len()
        invariant
            q > 0,
            out@.len() == k,
            forall|j: int| 0 <= j < k ==> #[trigger] out@[j] == (y@[j] as nat % q as nat) as u64,
    {
        let r = reduce_mod_q(y[k] as u128, &(q as u128));
        out.push(r as u64);
    }
    assert(out@ =~= reduce_row(y@, q as nat));
    out
}

/// `Flatten(A) = BitDecomp(BitDecomp^{-1}(A))` over `Z_q`, applied to each row of an
/// `N`-column matrix: each recomposed coefficient is reduced modulo `q` before it is
/// decomposed again.
fn flatten(parameters: &GswParameters, input_matrix: &[Vec<u64>]) -> (out: Vec<Vec<u64>>)
    requires
        0 < parameters.l_spec() <= 64,
        parameters.q_spec() > 0,
        forall|i: int|
            0 <= i < input_matrix@.len() ==> (#[trigger] input_matrix@[i])@.len()
                == parameters.big_n_spec(),
        forall|i: int, k: int|
            0 <= i < input_matrix@.len() && 0 <= k < (parameters.big_n_spec() as int) / (
            parameters.l_spec() as int) ==> #[trigger] recompose(
                input_matrix@[i]@,
                k * parameters.l_spec(),
                parameters.l_spec(),
            ) <= u128::MAX,
    ensures
        rows(out@) == flatten_spec(rows(input_matrix@), parameters.l_spec(), parameters.q_spec()),
{
    let mut output_vec: Vec<Vec<u64>> = Vec::new();
    for i in 0..input_matrix.len()
        invariant
            0 < parameters.l_spec() <= 64,
            parameters.q_spec() > 0,
            forall|i: int|
                0 <= i < input_matrix@.len() ==> (#[trigger] input_matrix@[i])@.len()
                    == parameters.big_n_spec(),
            forall|i: int, k: int|
                0 <= i < input_matrix@.len() && 0 <= k < (parameters.big_n_spec() as int) / (
                parameters.l_spec() as int) ==> #[trigger] recompose(
                    input_matrix@[i]@,
                    k * parameters.l_spec(),
                    parameters.l_spec(),
                ) <= u128::MAX,
            output_vec@.len() == i,
            forall|r: int|
                0 <= r < i ==> (#[trigger] output_vec@[r])@ == flatten_spec(
                    rows(input_matrix@),
                    parameters.l_spec(),
                    parameters.q_spec(),
                )[r],
    {
        let row = &input_matrix[i];
        let inverse_bit_decomp_row_result = inverse_bit_decomposition(parameters, row);
        let reduced_row = reduce_row_mod_q(&inverse_bit_decomp_row_result, parameters.ciphertext_modulus);
        let ghost inv = reduced_row@;
        let single = [reduced_row];
        let bits = bit_decomposition(parameters, &single);
        proof {
            let s = rows(single@);
            assert(s.drop_last() =~= Seq::<Seq<u64>>::empty());
            assert(s.last() == inv);
            assert(bit_decomp(s.drop_last(), parameters.l_spec()) == Seq::<u64>::empty());
            assert(bits@ =~= bit_decomp_row(inv, parameters.l_spec()));
            assert(rows(input_matrix@)[i as int] == row@);
        }
        output_vec.push(bits);
    }
    assert(rows(output_vec@) =~= flatten_spec(
        rows(input_matrix@),
        parameters.l_spec(),
        parameters.q_spec(),
    ));
    output_vec
}

/// One doubling step of `Powersof2`: `power_entry(a, j + 1) == 2 * power_entry(a, j) mod q`.
proof fn lemma_power_entry_step(a: u64, j: nat, q: nat)
    requires
        0 < q < 0x1_0000_0000_0000_0000,
    ensures
        power_entry(a, j + 1, q) == ((power_entry(a, j, q) as nat * 2) % q) as u64,
{
    lemma_pow2_unfold(j + 1);
    lemma_mul_is_associative(a as int, pow2(j) as int, 2);
    lemma_mul_is_commutative(2, pow2(j) as int);
    if j == 0 {
        lemma2_to64();
    } else {
        lemma_mul_mod_noop_left((a as nat * pow2(j)) as int, 2, q as int);
    }
}

/// `Powersof2(a)`: each coefficient followed by its doublings mod `q`, `l` entries per coefficient.
fn powers_of_two_decomposition(parameters: &GswParameters, input_eigenvector: &[u64]) -> (out: Vec<u64>)
    requires
        parameters.l_spec() > 0 ==> parameters.q_spec() > 0,
        input_eigenvector@.len() * parameters.l_spec() <= usize::MAX,
    ensures
        out@ == powers_of_two(input_eigenvector@, parameters.l_spec(), parameters.q_spec()),
{
    let decomposition_length = parameters.decomposition_length;
    let k = input_eigenvector.len();
    let ciphertext_modulus = parameters.ciphertext_modulus;
    let ghost l = decomposition_length as nat;
    let ghost q = ciphertext_modulus as nat;
    let ghost a = input_eigenvector@;
    let mut output_vec: Vec<u64> = Vec::with_capacity(k * decomposition_length);
    proof {
        lemma_mul_basics(l as int);
    }
    for i in 0..k
        invariant
            k == a.len(),
            a == input_eigenvector@,
            l == decomposition_length,
            q == ciphertext_modulus,
            l > 0 ==> q > 0,
            output_vec@.len() == i * l,
            forall|c: int|
                0 <= c < i * l ==> #[trigger] output_vec@[c] == power_entry(
                    a[c / l as int],
                    (c % l as int) as nat,
                    q,
                ),
    {
        let mut current = input_eigenvector[i];
        for j in 0..decomposition_length
            invariant
                0 <= i < k,
                k == a.len(),
                l == decomposition_length,
                q == ciphertext_modulus,
                l > 0 ==> q > 0,
                current == power_entry(a[i as int], j as nat, q),
                output_vec@.len() == i * l + j,
                forall|c: int|
                    0 <= c < i * l + j ==> #[trigger] output_vec@[c] == power_entry(
                        a[c / l as int],
                        (c % l as int) as nat,
                        q,
                    ),
        {
            proof {
                lemma_index_split(i as int, j as int, l as int);
                lemma_power_entry_step(a[i as int], j as nat, q);
                assert(q < 0x1_0000_0000_0000_0000);
            }
            output_vec.push(current);
            current = crate::util::reduce_mod_q(
                (current as u128) * 2u128,
                &(ciphertext_modulus as u128),
            ) as u64;
        }
        assert((i + 1) * l == i * l + l) by (nonlinear_arith);
    }
    assert(output_vec@ =~= powers_of_two(a, l, q));
    output_vec
}

/// The base secret `s = (1, -t_1, ..., -t_n)` over `Z_q`, with `-x` written `q - x`
/// (and `0` for `x == 0`).
pub open spec fn secret_base(t: Seq<u64>, q: u64) -> Seq<u64> {
    seq![1u64] + Seq::new(t.len(), |i: int| if t[i] == 0 { 0u64 } else { (q - t[i]) as u64 })
}

/// The secret key vector `v = Powersof2(s)` for the private vector `t`.
pub open spec fn secret_key_vector(params: GswParameters, t: Seq<u64>) -> Seq<u64> {
    powers_of_two(
        secret_base(t, params.q_spec() as u64),
        params.l_spec(),
        params.q_spec(),
    )
}

/// An `N x N` ciphertext with coefficients over `Z_q`.
pub struct GswCiphertext {
    ciphertext: Vec<Vec<u64>>,
    ciphertext_modulus: u128,
}

impl View for GswCiphertext {
    type V = Seq<Seq<u64>>;

    closed spec fn view(&self) -> Seq<Seq<u64>> {
        rows(self.ciphertext@)
    }
}

impl GswCiphertext {
    /// The modulus recorded with the ciphertext.
    pub closed spec fn modulus_spec(&self) -> u128 {
        self.ciphertext_modulus
    }

    /// The ciphertext matrix `C`.
    pub fn matrix(&self) -> (c: &Vec<Vec<u64>>)
        ensures
            rows(c@) == self@,
    {
        &self.ciphertext
    }

    /// The modulus recorded with the ciphertext.
    pub fn modulus(&self) -> (q: u128)
        ensures
            q == self.modulus_spec(),
    {
        self.ciphertext_modulus
    }
}

/// The public key `A = [b | B]`.
pub struct GswPublicKey {
    matrix_a: Vec<Vec<u64>>,
}

impl View for GswPublicKey {
    type V = Seq<Seq<u64>>;

    closed spec fn view(&self) -> Seq<Seq<u64>> {
        rows(self.matrix_a@)
    }
}

/// The secret key `v = Powersof2(s)`.
pub struct GswSecretKey {
    powers_of_two_secret_vector: Vec<u64>,
}

impl GswSecretKey {
    /// The secret vector `v`.
    pub fn vector(&self) -> (v: &Vec<u64>)
        ensures
            v@ == self@,
    {
        &self.powers_of_two_secret_vector
    }
}

impl GswPublicKey {
    /// The public matrix `A`.
    pub fn matrix(&self) -> (a: &Vec<Vec<u64>>)
        ensures
            rows(a@) == self@,
    {
        &self.matrix_a
    }
}

impl View for GswSecretKey {
    type V = Seq<u64>;

    closed spec fn view(&self) -> Seq<u64> {
        self.powers_of_two_secret_vector@
    }
}

/// A public key with its secret key.
pub struct GswKeyPair {
    pub public_key: GswPublicKey,
    pub secret_key: GswSecretKey,
}

impl GswKeyPair {
    /// The secret key for the private vector `t` of length `n`: `v = Powersof2(1, -t)`.
    pub fn generate_secret_key(parameters: &GswParameters, private_random_eigenvector: &[u64]) -> (sk: GswSecretKey)
        requires
            private_random_eigenvector@.len() > 0,
            private_random_eigenvector@.len() == parameters.n_spec(),
            private_random_eigenvector@.len() < usize::MAX,
            forall|i: int|
                0 <= i < private_random_eigenvector@.len() ==> #[trigger] private_random_eigenvector@[i]
                    <= parameters.q_spec(),
            parameters.l_spec() > 0 ==> parameters.q_spec() > 0,
            (parameters.n_spec() + 1) * parameters.l_spec() <= usize::MAX,
        ensures
            sk@ == secret_key_vector(*parameters, private_random_eigenvector@),
    {
        let t = private_random_eigenvector;
        let q = parameters.ciphertext_modulus;
        let mut base_vector_v: Vec<u64> = Vec::new();
        base_vector_v.push(1);
        for i in 0..t.len()
            invariant
                q == parameters.q_spec(),
                forall|i: int| 0 <= i < t@.len() ==> #[trigger] t@[i] <= q,
                base_vector_v@ == secret_base(t@.take(i as int), q),
        {
            let t_i = t[i];
            let neg = if t_i == 0 {
                0
            } else {
                q - t_i
            };
            base_vector_v.push(neg);
            assert(base_vector_v@ =~= secret_base(t@.take(i + 1), q));
        }
        assert(t@.take(t@.len() as int) =~= t@);
        let sk_powers_of_two = powers_of_two_decomposition(parameters, &base_vector_v);
        GswSecretKey { powers_of_two_secret_vector: sk_powers_of_two }
    }
}

/// The public key `A = [b | B]` with `b = B*t + e (mod q)` computed as `body` does.
pub open spec fn public_key_matrix(
    params: GswParameters,
    matrix_b: Seq<Seq<u64>>,
    t: Seq<u64>,
    e: Seq<i64>,
) -> Seq<Seq<u64>> {
    Seq::new(
        matrix_b.len(),
        |i: int| seq![body_entry(matrix_b[i], t, e[i], params.q_spec() as u128)] + matrix_b[i],
    )
}

/// `sum_j (q - 1) * t_j`: the largest inner product of `t` with a row of entries in `Z_q`.
pub open spec fn max_body_sum(t: Seq<u64>, q: nat) -> int {
    sum(t.len() as int, |j: int| (q - 1) * t[j] as int)
}

/// `B` is an `m x n` matrix over `Z_q`.
pub open spec fn is_sample_matrix(matrix_b: Seq<Seq<u64>>, m: nat, n: nat, q: nat) -> bool {
    &&& matrix_b.len() == m
    &&& forall|i: int| 0 <= i < m ==> (#[trigger] matrix_b[i]).len() == n
    &&& forall|i: int, j: int| 0 <= i < m && 0 <= j < n ==> #[trigger] matrix_b[i][j] < q
}

/// `t` is a private vector of `n` entries of `Z_q`.
pub open spec fn is_private_vector(t: Seq<u64>, n: nat, q: nat) -> bool {
    &&& t.len() == n
    &&& forall|i: int| 0 <= i < n ==> #[trigger] t[i] < q
}

/// A ChaCha20 generator seeded from rand's thread-local generator
/// (rand_core's `SeedableRng::from_rng` on `rand::rng()`). Its seed comes from the
/// operating system, so nothing is stated of it.
#[verifier::external_body]
fn new_seeded_rng() -> ChaCha20Rng {
    ChaCha20Rng::from_rng(&mut rand::rng())
}

/// Sample a private vector `t <- Z_q^n`.
fn generate_private_eigenvector(rng: &mut ChaCha20Rng, parameters: &GswParameters) -> (t: Vec<u64>)
    requires
        parameters.n_spec() > 0 ==> parameters.q_spec() > 0,
    ensures
        is_private_vector(t@, parameters.n_spec(), parameters.q_spec()),
{
    let mut private_random_eigenvector_t: Vec<u64> = Vec::new();
    for i in 0..parameters.lwe_dimension
        invariant
            parameters.n_spec() > 0 ==> parameters.q_spec() > 0,
            private_random_eigenvector_t@.len() == i,
            forall|k: int|
                0 <= k < i ==> #[trigger] private_random_eigenvector_t@[k] < parameters.q_spec(),
    {
        let coeff = sample_uniform_distribution_random_element_mod_q(
            rng,
            &parameters.ciphertext_modulus,
        );
        private_random_eigenvector_t.push(coeff);
    }
    private_random_eigenvector_t
}

impl GswKeyPair {
    /// The public key `A = [b | B]`, `b = B*t + e (mod q)`, for given samples `B`
    /// (`m x n` over `Z_q`), private vector `t` and error `e`.
    pub fn public_key_from_samples(
        parameters: &GswParameters,
        matrix_b: &[Vec<u64>],
        private_random_eigenvector: &[u64],
        error_eigenvector: &[i64],
    ) -> (pk: GswPublicKey)
        requires
            matrix_b@.len() > 0,
            matrix_b@[0]@.len() == private_random_eigenvector@.len(),
            forall|i: int|
                0 <= i < matrix_b@.len() ==> #[trigger] matrix_b@[i]@.len()
                    >= private_random_eigenvector@.len(),
            error_eigenvector@.len() >= matrix_b@.len(),
            parameters.q_spec() > 0,
            forall|i: int|
                0 <= i < matrix_b@.len() ==> dot(
                    #[trigger] matrix_b@[i]@,
                    private_random_eigenvector@,
                    private_random_eigenvector@.len() as int,
                ) <= u128::MAX,
        ensures
            pk@ == public_key_matrix(
                *parameters,
                rows(matrix_b@),
                private_random_eigenvector@,
                error_eigenvector@,
            ),
    {
        let body_eigenvector = body(
            matrix_b,
            private_random_eigenvector,
            error_eigenvector,
            parameters.ciphertext_modulus as u128,
        );
        let public_augmented_matrix = augment_matrices(&body_eigenvector, matrix_b);
        let pk = GswPublicKey { matrix_a: public_augmented_matrix };
        assert(pk@ =~= public_key_matrix(
            *parameters,
            rows(matrix_b@),
            private_random_eigenvector@,
            error_eigenvector@,
        ));
        pk
    }

    /// A public key for the private vector `t`: `B` sampled uniformly from `Z_q^{m x n}`,
    /// `e` from the `B`-bounded error distribution, and `A = [B*t + e | B]`.
    pub fn generate_public_key(
        rng: &mut ChaCha20Rng,
        parameters: &GswParameters,
        private_random_eigenvector: &[u64],
    ) -> (pk: GswPublicKey)
        requires
            parameters.m_spec() > 0,
            parameters.q_spec() > 0,
            private_random_eigenvector@.len() == parameters.n_spec(),
            max_body_sum(private_random_eigenvector@, parameters.q_spec()) <= u128::MAX,
        ensures
            exists|matrix_b: Seq<Seq<u64>>, e: Seq<i64>|
                {
                    &&& is_sample_matrix(
                        matrix_b,
                        parameters.m_spec(),
                        parameters.n_spec(),
                        parameters.q_spec(),
                    )
                    &&& bounded_error_vector(e, parameters.b_spec(), parameters.m_spec())
                    &&& pk@ == public_key_matrix(
                        *parameters,
                        matrix_b,
                        private_random_eigenvector@,
                        e,
                    )
                },
    {
        let lwe_dimension = parameters.lwe_dimension;
        let public_key_samples = parameters.public_key_samples;
        let t = private_random_eigenvector;
        let ghost q = parameters.q_spec();
        let mut matrix_b: Vec<Vec<u64>> = Vec::new();
        for i in 0..public_key_samples
            invariant
                q == parameters.q_spec(),
                q > 0,
                lwe_dimension == parameters.n_spec(),
                matrix_b@.len() == i,
                forall|r: int| 0 <= r < i ==> (#[trigger] matrix_b@[r])@.len() == lwe_dimension,
                forall|r: int, j: int|
                    0 <= r < i && 0 <= j < lwe_dimension ==> #[trigger] matrix_b@[r]@[j] < q,
        {
            let mut row: Vec<u64> = Vec::new();
            for j in 0..lwe_dimension
                invariant
                    q == parameters.q_spec(),
                    q > 0,
                    row@.len() == j,
                    forall|c: int| 0 <= c < j ==> #[trigger] row@[c] < q,
            {
                let x = sample_uniform_distribution_random_element_mod_q(
                    rng,
                    &parameters.ciphertext_modulus,
                );
                row.push(x);
            }
            matrix_b.push(row);
        }
        let error_eigenvector = sample_error_eigenvector(
            rng,
            parameters.error_bound,
            public_key_samples,
        );
        proof {
            let w = max_body_sum(t@, q);
            assert forall|i: int| 0 <= i < matrix_b@.len() implies dot(
                #[trigger] matrix_b@[i]@,
                t@,
                t@.len() as int,
            ) <= w by {
                let row = matrix_b@[i]@;
                assert forall|j: int| 0 <= j < t@.len() implies #[trigger] (row[j] as int
                    * t@[j] as int) <= (q - 1) * t@[j] as int by {
                    lemma_mul_inequality(row[j] as int, q - 1, t@[j] as int);
                }
                crate::arith::lemma_sum_le(
                    t@.len() as int,
                    |j: int| row[j] as int * t@[j] as int,
                    |j: int| (q - 1) * t@[j] as int,
                );
            }
            assert forall|i: int| 0 <= i < matrix_b@.len() implies 0 <= dot(
                #[trigger] matrix_b@[i]@,
                t@,
                t@.len() as int,
            ) by {
                lemma_dot_monotone(matrix_b@[i]@, t@, 0, t@.len() as int);
            }
        }
        let pk = Self::public_key_from_samples(parameters, &matrix_b, t, &error_eigenvector);
        assert(is_sample_matrix(
            rows(matrix_b@),
            parameters.m_spec(),
            parameters.n_spec(),
            parameters.q_spec(),
        ));
        pk
    }

    /// A key pair: `t <- Z_q^n` from a freshly seeded generator, the secret key for `t`
    /// and a public key for `t` drawn from the same generator.
    pub fn generate_key_pair(parameters: &GswParameters) -> (key_pair: Self)
        requires
            parameters.n_spec() > 0,
            parameters.n_spec() < usize::MAX,
            parameters.m_spec() > 0,
            parameters.q_spec() > 0,
            (parameters.n_spec() + 1) * parameters.l_spec() <= usize::MAX,
            parameters.n_spec() * ((parameters.q_spec() - 1) * (parameters.q_spec() - 1))
                <= u128::MAX,
        ensures
            exists|t: Seq<u64>, matrix_b: Seq<Seq<u64>>, e: Seq<i64>|
                {
                    &&& is_private_vector(t, parameters.n_spec(), parameters.q_spec())
                    &&& is_sample_matrix(
                        matrix_b,
                        parameters.m_spec(),
                        parameters.n_spec(),
                        parameters.q_spec(),
                    )
                    &&& bounded_error_vector(e, parameters.b_spec(), parameters.m_spec())
                    &&& key_pair.secret_key@ == secret_key_vector(*parameters, t)
                    &&& key_pair.public_key@ == public_key_matrix(*parameters, matrix_b, t, e)
                },
    {
        let mut rng = new_seeded_rng();
        let private_random_eigenvector_t = generate_private_eigenvector(&mut rng, parameters);
        let ghost t = private_random_eigenvector_t@;
        let ghost q = parameters.q_spec();
        proof {
            let n = parameters.n_spec();
            assert forall|j: int| 0 <= j < t.len() implies #[trigger] ((q - 1) * t[j] as int) <= (
            q - 1) * (q - 1) by {
                lemma_mul_inequality(t[j] as int, q - 1, q - 1);
                lemma_mul_is_commutative(t[j] as int, q - 1);
            }
            crate::arith::lemma_sum_le(
                t.len() as int,
                |j: int| (q - 1) * t[j] as int,
                |j: int| (q - 1) * (q - 1),
            );
            crate::arith::lemma_sum_bounded(t.len() as int, |j: int| (q - 1) * (q - 1), (q - 1) * (
            q - 1));
        }
        let secret_key = Self::generate_secret_key(parameters, &private_random_eigenvector_t);
        let public_key = Self::generate_public_key(
            &mut rng,
            &parameters,
            &private_random_eigenvector_t,
        );
        GswKeyPair { public_key, secret_key }
    }
}

/// Shape of `BitDecomp` on a matrix whose rows all have `w` entries: `w * l` bits per
/// row, every entry a bit, and row `i` occupying positions `i * (w * l) ..`.
pub proof fn lemma_bit_decomp_shape(m: Seq<Seq<u64>>, l: nat, w: nat)
    requires
        forall|i: int| 0 <= i < m.len() ==> (#[trigger] m[i]).len() == w,
    ensures
        bit_decomp(m, l).len() == m.len() * (w * l),
        forall|k: int| 0 <= k < bit_decomp(m, l).len() ==> #[trigger] bit_decomp(m, l)[k] <= 1,
        forall|i: int, c: int|
            0 <= i < m.len() && 0 <= c < w * l ==> #[trigger] bit_decomp(m, l)[i * (w * l) + c]
                == bit_decomp_row(m[i], l)[c],
    decreases m.len(),
{
    if m.len() == 0 {
        lemma_mul_basics((w * l) as int);
    } else {
        let prev = m.drop_last();
        lemma_bit_decomp_shape(prev, l, w);
        let row = bit_decomp_row(m.last(), l);
        let whole = bit_decomp(m, l);
        assert(whole == bit_decomp(prev, l) + row);
        lemma_mul_is_distributive_add_other_way((w * l) as int, prev.len() as int, 1);
        assert forall|k: int| 0 <= k < whole.len() implies #[trigger] whole[k] <= 1 by {
            if k >= bit_decomp(prev, l).len() {
                let c = k - bit_decomp(prev, l).len();
                lemma_mod_bound((m.last()[c / l as int] as nat / pow2((c % l as int) as nat)) as int, 2);
            }
        }
        assert forall|i: int, c: int| 0 <= i < m.len() && 0 <= c < w * l implies #[trigger] whole[i
            * (w * l) + c] == bit_decomp_row(m[i], l)[c] by {
            if i < prev.len() {
                lemma_mul_inequality(i + 1, prev.len() as int, (w * l) as int);
                lemma_mul_is_distributive_add_other_way((w * l) as int, i, 1);
                assert(prev[i] == m[i]);
            }
        }
    }
}

/// A block of `l <= 64` coefficients, each at most 2, recomposes to less than `2^128`.
proof fn lemma_recompose_small(row: Seq<u64>, start: int, l: nat)
    requires
        l <= 64,
        forall|j: int| 0 <= j < l ==> #[trigger] row[start + j] <= 2,
    ensures
        0 <= recompose(row, start, l) <= u128::MAX,
{
    let f = recompose_terms(row, start);
    let bound: int = 2 * pow2(63) as int;
    assert forall|j: int| 0 <= j < l implies 0 <= #[trigger] f(j) <= bound by {
        if j < 63 {
            lemma_pow2_strictly_increases(j as nat, 63);
        }
        lemma_pow2_pos(j as nat);
        lemma_mul_inequality(row[start + j] as int, 2, pow2(j as nat) as int);
        lemma_mul_inequality(pow2(j as nat) as int, pow2(63) as int, 2);
        lemma_mul_is_commutative(2, pow2(j as nat) as int);
        lemma_mul_nonnegative(row[start + j] as int, pow2(j as nat) as int);
    }
    lemma_sum_bounded(l as int, f, bound);
    lemma2_to64_rest();
    assert(l * bound <= 64 * bound) by {
        lemma_mul_inequality(l as int, 64, bound);
    }
}

/// `R * A mod q`, entry `(i, j)` being `(sum_k R[i][k] * A[k][j]) % q`.
pub open spec fn mat_mul_mod(r: Seq<Seq<u64>>, a: Seq<Seq<u64>>, q: nat) -> Seq<Seq<u64>> {
    Seq::new(
        r.len(),
        |i: int| Seq::new(a[0].len(), |j: int| (dot(r[i], column(a, j), a.len() as int) % q as int) as u64),
    )
}

/// Entry `(i, c)` of `u * I_N + BitDecomp(R * A)` reduced mod `q`, where row `i` of
/// `BitDecomp(R * A)` is the `i`-th block of `N` bits of its flat decomposition.
pub open spec fn encryption_sum_entry(
    params: GswParameters,
    a: Seq<Seq<u64>>,
    message: u8,
    r: Seq<Seq<u64>>,
    i: int,
    c: int,
) -> u64 {
    let n = params.big_n_spec();
    let d = bit_decomp(mat_mul_mod(r, a, params.q_spec()), params.l_spec());
    (((if i == c {
        message as int
    } else {
        0
    }) + d[i * n + c] as int) % params.q_spec() as int) as u64
}

/// `u * I_N + BitDecomp(R * A)` reduced mod `q`, an `N x N` matrix.
pub open spec fn encryption_sum(
    params: GswParameters,
    a: Seq<Seq<u64>>,
    message: u8,
    r: Seq<Seq<u64>>,
) -> Seq<Seq<u64>> {
    let n = params.big_n_spec();
    Seq::new(n, |i: int| Seq::new(n, |c: int| encryption_sum_entry(params, a, message, r, i, c)))
}

/// `C = Flatten(u * I_N + BitDecomp(R * A))` for the binary matrix `R`.
pub open spec fn encryption(
    params: GswParameters,
    a: Seq<Seq<u64>>,
    message: u8,
    r: Seq<Seq<u64>>,
) -> Seq<Seq<u64>> {
    flatten_spec(encryption_sum(params, a, message, r), params.l_spec(), params.q_spec())
}

/// `R` is an `N x m` matrix with entries in `{0, 1}`.
pub open spec fn is_binary_matrix(r: Seq<Seq<u64>>, rows_n: nat, cols_m: nat) -> bool {
    &&& r.len() == rows_n
    &&& forall|i: int| 0 <= i < rows_n ==> (#[trigger] r[i]).len() == cols_m
    &&& forall|i: int, k: int| 0 <= i < rows_n && 0 <= k < cols_m ==> #[trigger] r[i][k] <= 1
}

/// What `encrypt_bit` needs of the parameters and the public key: `N, m, q, l > 0`,
/// `l <= 64`, `A` with `m` rows at least as long as its first, non-empty, row,
/// `A[0].len() * l >= N` and `l` dividing `N`.
pub open spec fn encryption_inputs_ok(params: GswParameters, a: Seq<Seq<u64>>) -> bool {
    &&& params.big_n_spec() > 0
    &&& params.m_spec() > 0
    &&& params.q_spec() > 0
    &&& 0 < params.l_spec() <= 64
    &&& a.len() == params.m_spec()
    &&& a[0].len() > 0
    &&& forall|k: int| 0 <= k < a.len() ==> (#[trigger] a[k]).len() >= a[0].len()
    &&& a[0].len() * params.l_spec() >= params.big_n_spec()
    &&& params.big_n_spec() % params.l_spec() == 0
}

/// GSW encryption of `message` in `{0, 1}` under the public key `A` with the binary
/// matrix `R`: `C = Flatten(u * I_N + BitDecomp(R * A))`.
pub fn encrypt_bit_with_randomness(
    parameters: &GswParameters,
    pk: &GswPublicKey,
    message: u8,
    random_binary_matrix_r: Vec<Vec<u64>>,
) -> (ct: GswCiphertext)
    requires
        message <= 1,
        encryption_inputs_ok(*parameters, pk@),
        is_binary_matrix(
            rows(random_binary_matrix_r@),
            parameters.big_n_spec(),
            parameters.m_spec(),
        ),
    ensures
        ct@ == encryption(*parameters, pk@, message, rows(random_binary_matrix_r@)),
        ct.modulus_spec() == parameters.q_spec(),
{
    let ciphertext_dimension = parameters.ciphertext_dimension;
    let ciphertext_modulus = parameters.ciphertext_modulus;
    let ghost r = rows(random_binary_matrix_r@);
    let ghost a = pk@;
    let ghost q = ciphertext_modulus as nat;
    let ghost l = parameters.l_spec();
    let ghost nn = ciphertext_dimension as nat;
    let matrix_a = pk.matrix_a.clone();
    assert(rows(matrix_a@) =~= a) by {
        assert forall|k: int| 0 <= k < a.len() implies #[trigger] matrix_a@[k]@ == a[k] by {
            assert(matrix_a@[k]@ =~= pk.matrix_a@[k]@);
        }
    }
    let identity_matrix = identity_matrix(parameters);
    assert(identity_matrix@.len() == rows(identity_matrix@).len());
    let mut u_times_identity_matrix: Vec<Vec<u64>> = Vec::new();
    for i in 0..ciphertext_dimension
        invariant
            nn == ciphertext_dimension,
            rows(identity_matrix@) == identity(nn),
            identity_matrix@.len() == nn,
            message <= 1,
            u_times_identity_matrix@.len() == i,
            forall|k: int|
                0 <= k < i ==> (#[trigger] u_times_identity_matrix@[k])@ == Seq::new(
                    nn,
                    |c: int| if k == c { message as u64 } else { 0u64 },
                ),
    {
        let row = &identity_matrix[i];
        assert(row@ == rows(identity_matrix@)[i as int]);
        let mut new_row: Vec<u64> = Vec::new();
        for c in 0..ciphertext_dimension
            invariant
                nn == ciphertext_dimension,
                0 <= i < nn,
                row@ == identity(nn)[i as int],
                message <= 1,
                new_row@.len() == c,
                forall|x: int|
                    0 <= x < c ==> #[trigger] new_row@[x] == if i == x { message as u64 } else { 0u64 },
        {
            let x = row[c];
            new_row.push(x * message as u64);
        }
        assert(new_row@ =~= Seq::new(nn, |c: int| if i == c { message as u64 } else { 0u64 }));
        u_times_identity_matrix.push(new_row);
    }
    proof {
        let rv = random_binary_matrix_r@;
        assert forall|i: int| 0 <= i < rv.len() implies (#[trigger] rv[i])@ == r[i] by {}
        assert(rv[0]@ == r[0]);
        assert forall|i: int, k: int, j: int|
            0 <= i < rv.len() && 0 <= k < matrix_a@.len() && 0 <= j < matrix_a@[0]@.len() implies #[trigger] rv[i]@[k]
            * #[trigger] matrix_a@[k]@[j] <= u64::MAX by {
            assert(rv[i]@ == r[i]);
            assert(matrix_a@[k]@ == a[k]);
            lemma_mul_inequality(rv[i]@[k] as int, 1, matrix_a@[k]@[j] as int);
        }
        assert forall|k: int| 0 <= k < matrix_a@.len() implies #[trigger] matrix_a@[k]@.len()
            >= matrix_a@[0]@.len() by {
            assert(matrix_a@[k]@ == a[k]);
            assert(matrix_a@[0]@ == a[0]);
        }
        assert(matrix_a@[0]@ == a[0]);
    }
    let r_times_a_matrix = schoolbook_lwe_matrix_multiplication_mod_q(
        random_binary_matrix_r,
        matrix_a,
        ciphertext_modulus as u128,
    );
    let ghost p = mat_mul_mod(r, a, q);
    assert(rows(r_times_a_matrix@) =~= p) by {
        assert forall|i: int| 0 <= i < p.len() implies #[trigger] rows(r_times_a_matrix@)[i] == p[i] by {
            assert(rows(r_times_a_matrix@)[i] =~= p[i]);
        }
    }
    let bit_decomp_r_times_a_matrix = bit_decomposition(parameters, &r_times_a_matrix);
    let ghost d = bit_decomp(p, l);
    proof {
        assert forall|i: int| 0 <= i < p.len() implies (#[trigger] p[i]).len() == a[0].len() by {}
        lemma_bit_decomp_shape(p, l, a[0].len());
        assert(nn * nn <= nn * (a[0].len() * l)) by {
            lemma_mul_inequality(nn as int, (a[0].len() * l) as int, nn as int);
            lemma_mul_is_commutative(nn as int, nn as int);
            lemma_mul_is_commutative(nn as int, (a[0].len() * l) as int);
        }
        lemma_mul_is_associative(nn as int, a[0].len() as int, l as int);
    }
    let bd_len = bit_decomp_r_times_a_matrix.len();
    let mut addition_vector_temp: Vec<Vec<u64>> = Vec::new();
    for i in 0..ciphertext_dimension
        invariant
            nn == ciphertext_dimension,
            bd_len == d.len(),
            q == ciphertext_modulus,
            q > 0,
            d == bit_decomp_r_times_a_matrix@,
            d.len() >= nn * nn,
            u_times_identity_matrix@.len() == nn,
            forall|k: int|
                0 <= k < nn ==> (#[trigger] u_times_identity_matrix@[k])@ == Seq::new(
                    nn,
                    |c: int| if k == c { message as u64 } else { 0u64 },
                ),
            forall|k: int| 0 <= k < d.len() ==> #[trigger] d[k] <= 1,
            d == bit_decomp(mat_mul_mod(r, a, parameters.q_spec()), parameters.l_spec()),
            nn == parameters.big_n_spec(),
            q == parameters.q_spec(),
            addition_vector_temp@.len() == i,
            forall|k: int|
                0 <= k < i ==> (#[trigger] addition_vector_temp@[k])@ == encryption_sum(
                    *parameters,
                    a,
                    message,
                    r,
                )[k],
    {
        let row_a = &u_times_identity_matrix[i];
        let mut new_row: Vec<u64> = Vec::new();
        proof {
            assert(i * nn + nn <= nn * nn) by {
                lemma_mul_inequality(i + 1, nn as int, nn as int);
                lemma_mul_is_distributive_add_other_way(nn as int, i as int, 1);
            }
        }
        for c in 0..ciphertext_dimension
            invariant
                nn == ciphertext_dimension,
                0 <= i < nn,
                bd_len == d.len(),
                i * nn + nn <= nn * nn,
                q == ciphertext_modulus,
                q > 0,
                d == bit_decomp_r_times_a_matrix@,
                d.len() >= nn * nn,
                row_a@ == Seq::new(nn, |c: int| if i == c { message as u64 } else { 0u64 }),
                forall|k: int| 0 <= k < d.len() ==> #[trigger] d[k] <= 1,
                new_row@.len() == c,
                forall|x: int|
                    0 <= x < c ==> #[trigger] new_row@[x] == encryption_sum_entry(
                        *parameters,
                        a,
                        message,
                        r,
                        i as int,
                        x,
                    ),
                d == bit_decomp(mat_mul_mod(r, a, parameters.q_spec()), parameters.l_spec()),
                nn == parameters.big_n_spec(),
                q == parameters.q_spec(),
        {
            let av = row_a[c];
            let bv = bit_decomp_r_times_a_matrix[i * ciphertext_dimension + c];
            new_row.push((av + bv) % ciphertext_modulus);
        }
        assert(new_row@ =~= encryption_sum(*parameters, a, message, r)[i as int]);
        addition_vector_temp.push(new_row);
    }
    proof {
        let sum_m = encryption_sum(*parameters, a, message, r);
        assert forall|i: int, k: int|
            0 <= i < addition_vector_temp@.len() && 0 <= k < (nn as int) / (l as int) implies #[trigger] recompose(
            addition_vector_temp@[i]@,
            k * l,
            l,
        ) <= u128::MAX by {
            let row = addition_vector_temp@[i]@;
            assert forall|j: int| 0 <= j < l implies #[trigger] row[k * l + j] <= 2 by {
                lemma_block_index(k, j, l as int, nn as int);
                let c = k * l + j;
                assert(row == sum_m[i]);
                assert(row[c] == encryption_sum_entry(*parameters, a, message, r, i, c));
                assert(i * nn + c < nn * nn) by {
                    lemma_mul_inequality(i + 1, nn as int, nn as int);
                    lemma_mul_is_distributive_add_other_way(nn as int, i, 1);
                }
                let x = (if i == c { message as int } else { 0 }) + d[i * nn + c] as int;
                assert(d[i * nn + c] <= 1);
                assert(row[c] == (x % q as int) as u64);
                if x >= q {
                    lemma_mod_bound(x, q as int);
                } else {
                    lemma_small_mod(x as nat, q);
                }
            }
            lemma_recompose_small(row, k * l, l);
        }
    }
    let flattened_ciphertext = flatten(parameters, &addition_vector_temp);
    let ct = GswCiphertext {
        ciphertext: flattened_ciphertext,
        ciphertext_modulus: ciphertext_modulus as u128,
    };
    assert(rows(addition_vector_temp@) =~= encryption_sum(*parameters, a, message, r));
    ct
}

/// GSW encryption of `message` in `{0, 1}`: `C = Flatten(u * I_N + BitDecomp(R * A))`
/// with a binary matrix `R` drawn from a freshly seeded generator.
pub fn encrypt_bit(parameters: &GswParameters, pk: &GswPublicKey, message: u8) -> (ct: GswCiphertext)
    requires
        message <= 1,
        encryption_inputs_ok(*parameters, pk@),
    ensures
        exists|r: Seq<Seq<u64>>|
            {
                &&& is_binary_matrix(r, parameters.big_n_spec(), parameters.m_spec())
                &&& ct@ == encryption(*parameters, pk@, message, r)
            },
        ct.modulus_spec() == parameters.q_spec(),
{
    let ciphertext_dimension = parameters.ciphertext_dimension;
    let public_key_samples = parameters.public_key_samples;
    let mut rng = new_seeded_rng();
    let mut random_binary_matrix_r: Vec<Vec<u64>> = Vec::new();
    for i in 0..ciphertext_dimension
        invariant
            ciphertext_dimension == parameters.big_n_spec(),
            public_key_samples == parameters.m_spec(),
            random_binary_matrix_r@.len() == i,
            forall|k: int|
                0 <= k < i ==> (#[trigger] random_binary_matrix_r@[k])@.len() == public_key_samples,
            forall|k: int, j: int|
                0 <= k < i && 0 <= j < public_key_samples ==> #[trigger] random_binary_matrix_r@[k]@[j]
                    <= 1,
    {
        let mut row: Vec<u64> = Vec::new();
        for j in 0..public_key_samples
            invariant
                row@.len() == j,
                forall|c: int| 0 <= c < j ==> #[trigger] row@[c] <= 1,
        {
            // a uniform bit: `random_range(0..2)` draws exactly as `random_range(0..=1)`
            row.push(sample_uniform_distribution_random_element_mod_q(&mut rng, &2));
        }
        random_binary_matrix_r.push(row);
    }
    encrypt_bit_with_randomness(parameters, pk, message, random_binary_matrix_r)
}

/// `q/4 < x <= q/2` (integer division): the window in which decryption looks for a
/// secret-key coefficient `v_i`.
pub open spec fn in_window(x: u64, q: u64) -> bool {
    x > q / 4 && x <= q / 2
}

/// The first index `i` in `[from, l)` with `v_i` in the window, or `-1` if none.
pub open spec fn first_window(v: Seq<u64>, q: u64, l: int, from: int) -> int
    decreases l - from,
{
    if from >= l {
        -1
    } else if in_window(v[from], q) {
        from
    } else {
        first_window(v, q, l, from + 1)
    }
}

/// The index decryption works with: the first `i < l` with `v_i` in `(q/4, q/2]`.
pub open spec fn decryption_index(params: GswParameters, v: Seq<u64>) -> int {
    first_window(v, params.q_spec() as u64, params.l_spec() as int, 0)
}

/// The smaller of two values.
pub open spec fn min_u64(a: u64, b: u64) -> u64 {
    if a <= b {
        a
    } else {
        b
    }
}

/// 1 when `x` is closer to `v_i` than to 0 on the circle `Z_q`, else 0.
pub open spec fn decide(x: u64, vi: u64, q: u64) -> u8 {
    let distance_to_zero = min_u64(x, (q - x) as u64);
    let difference_to_one = if x >= vi {
        (x - vi) as u64
    } else {
        (vi - x) as u64
    };
    let distance_to_one = min_u64(difference_to_one, (q - difference_to_one) as u64);
    if distance_to_one < distance_to_zero {
        1
    } else {
        0
    }
}

/// GSW decryption of the ciphertext `c` with the secret key `v`: with `i` the decryption
/// index, `x_i = <C_i, v> mod q` decides the bit by its distance to `v_i` and to 0.
pub open spec fn decryption(params: GswParameters, c: Seq<Seq<u64>>, v: Seq<u64>) -> u8 {
    let i = decryption_index(params, v);
    let q = params.q_spec();
    let x = (dot(c[i], v, v.len() as int) % q as int) as u64;
    decide(x, v[i], q as u64)
}

/// What `decrypt_bit` needs: an `N x N` ciphertext, a secret key of `N` entries, and a
/// coefficient `v_i` in `(q/4, q/2]` among the first `min(l, N)`.
pub open spec fn decryption_inputs_ok(params: GswParameters, c: Seq<Seq<u64>>, v: Seq<u64>) -> bool {
    &&& c.len() == params.big_n_spec()
    &&& forall|i: int| 0 <= i < c.len() ==> (#[trigger] c[i]).len() == params.big_n_spec()
    &&& v.len() == params.big_n_spec()
    &&& 0 <= decryption_index(params, v) < v.len()
}

/// `first_window` from `from` is either `-1` or an index at least `from` in the window,
/// with no earlier index in the window.
proof fn lemma_first_window(v: Seq<u64>, q: u64, l: int, from: int)
    ensures
        first_window(v, q, l, from) == -1 || (from <= first_window(v, q, l, from) < l && in_window(
            v[first_window(v, q, l, from)],
            q,
        )),
    decreases l - from,
{
    if from < l && !in_window(v[from], q) {
        lemma_first_window(v, q, l, from + 1);
    }
}

/// The decryption index: the first `i < l` with `v_i` in `(q/4, q/2]`, looked for among
/// the entries the secret key has; `None` when there is none.
pub fn find_decryption_index(parameters: &GswParameters, sk: &GswSecretKey) -> (r: Option<usize>)
    ensures
        match r {
            Some(i) => i == decryption_index(*parameters, sk@) && i < sk@.len(),
            None => !(0 <= decryption_index(*parameters, sk@) < sk@.len()),
        },
{
    let ciphertext_modulus = parameters.ciphertext_modulus;
    let decomposition_length = parameters.decomposition_length;
    let len = sk.powers_of_two_secret_vector.len();
    let ghost v = sk@;
    let ghost q = ciphertext_modulus;
    let ghost fw = decryption_index(*parameters, v);
    let mut i: usize = 0;
    proof {
        lemma_first_window(v, q, decomposition_length as int, 0);
    }
    while i < decomposition_length && i < len
        invariant
            v == sk@,
            v == sk.powers_of_two_secret_vector@,
            len == v.len(),
            q == ciphertext_modulus,
            q == parameters.q_spec(),
            decomposition_length == parameters.l_spec(),
            fw == decryption_index(*parameters, v),
            first_window(v, q, decomposition_length as int, i as int) == fw,
            fw == -1 || i <= fw,
        decreases decomposition_length - i,
    {
        let vi = sk.powers_of_two_secret_vector[i];
        if vi > ciphertext_modulus / 4 && vi <= ciphertext_modulus / 2 {
            return Some(i);
        }
        proof {
            lemma_first_window(v, q, decomposition_length as int, i + 1);
        }
        i = i + 1;
    }
    None
}

/// GSW decryption: `x_i = <C_i, v> mod q` for the first `v_i` in `(q/4, q/2]`, and 1
/// exactly when `x_i` is closer to `v_i` than to 0 modulo `q`.
pub fn decrypt_bit(parameters: &GswParameters, ct: GswCiphertext, sk: &GswSecretKey) -> (bit: u8)
    requires
        decryption_inputs_ok(*parameters, ct@, sk@),
    ensures
        bit == decryption(*parameters, ct@, sk@),
        bit <= 1,
{
    let ciphertext_dimension = parameters.ciphertext_dimension;
    let ciphertext_modulus = parameters.ciphertext_modulus;
    let ghost v = sk@;
    let ghost q = ciphertext_modulus;
    let decryption_index = find_decryption_index(parameters, sk).unwrap();
    proof {
        lemma_first_window(v, q, parameters.l_spec() as int, 0);
    }
    let vi = sk.powers_of_two_secret_vector[decryption_index];
    let row = &ct.ciphertext[decryption_index];
    assert(row@ == ct@[decryption_index as int]);
    let m = ciphertext_modulus as u128;
    assert(q > 0);
    let mut acc: u128 = 0;
    proof {
        lemma_small_mod(0, m as nat);
    }
    for j in 0..ciphertext_dimension
        invariant
            ciphertext_dimension == v.len(),
            row@.len() == ciphertext_dimension,
            v == sk.powers_of_two_secret_vector@,
            m == q,
            m > 0,
            acc < m,
            acc == dot(row@, v, j as int) % (m as int),
    {
        let cij = row[j] as u128;
        let vj = sk.powers_of_two_secret_vector[j] as u128;
        proof {
            assert(cij * vj <= 0xffff_ffff_ffff_ffff * 0xffff_ffff_ffff_ffff) by (nonlinear_arith)
                requires
                    cij <= 0xffff_ffff_ffff_ffff,
                    vj <= 0xffff_ffff_ffff_ffff,
            ;
            lemma_dot_monotone(row@, v, 0, j as int);
            lemma_add_mod_noop_right(cij * vj, dot(row@, v, j as int), m as int);
        }
        acc = (acc + (cij * vj)) % m;
    }
    let xi = acc as u64;
    let distance_to_zero = if xi <= ciphertext_modulus - xi {
        xi
    } else {
        ciphertext_modulus - xi
    };
    let difference_to_one = if xi >= vi {
        xi - vi
    } else {
        vi - xi
    };
    let distance_to_one = if difference_to_one <= ciphertext_modulus - difference_to_one {
        difference_to_one
    } else {
        ciphertext_modulus - difference_to_one
    };
    if distance_to_one < distance_to_zero {
        1
    } else {
        0
    }
}

} // verus!
