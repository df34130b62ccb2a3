//! Sampling and modular vector/matrix arithmetic over `Z_q` used by the LWE and GSW layers.
use crate::arith::{dot, lemma_dot_monotone};
use rand_chacha::ChaCha20Rng;
use rand::RngExt;
use vstd::arithmetic::div_mod::*;
use vstd::arithmetic::mul::*;
use vstd::prelude::*;

verus! {

/// `rand_chacha::ChaCha20Rng`, the generator that drives every random choice of the
/// scheme; its state is opaque here and nothing is stated of it.
#[verifier::external_type_specification]
#[verifier::external_body]
pub struct ExChaCha20Rng(ChaCha20Rng);

/// The rows of a matrix stored as a sequence of vectors.
pub open spec fn rows(m: Seq<Vec<u64>>) -> Seq<Seq<u64>> {
    m.map_values(|r: Vec<u64>| r@)
}

/// Column `j` of a matrix given by its rows.
pub open spec fn column(m: Seq<Seq<u64>>, j: int) -> Seq<u64> {
    Seq::new(m.len(), |k: int| m[k][j])
}

/// Entry `i` of `b = B*t + e (mod q)`: the inner product of the row with `t`, plus `e`,
/// as its least non-negative remainder modulo `modulus`, truncated to 64 bits.
pub open spec fn body_entry(row: Seq<u64>, t: Seq<u64>, e: i64, modulus: u128) -> u64 {
    ((dot(row, t, t.len() as int) + e as int) % (modulus as int)) as u64
}

/// `e mod modulus` in `{0, ..., modulus - 1}` for a signed `e`.
fn signed_mod(e: i64, modulus: u128) -> (r: u128)
    requires
        modulus > 0,
    ensures
        r as int == e as int % modulus as int,
{
    if e >= 0 {
        (e as u128) % modulus
    } else {
        let magnitude = (-(e as i128)) as u128;
        let neg = magnitude % modulus;
        proof {
            let m = modulus as int;
            let k = magnitude as int / m;
            lemma_fundamental_div_mod(magnitude as int, m);
            assert(magnitude as int == -(e as int));
            lemma_mul_is_commutative(m, k);
            lemma_mul_unary_negation(k, m);
            lemma_mul_is_distributive_sub_other_way(m, -k, 1);
            if neg == 0 {
                lemma_fundamental_div_mod_converse(e as int, m, -k, 0);
            } else {
                lemma_fundamental_div_mod_converse(e as int, m, -k - 1, m - neg);
            }
        }
        if neg == 0 {
            0
        } else {
            modulus - neg
        }
    }
}

/// `(x + y) mod modulus` for `x, y < modulus`, without leaving `u128`.
fn add_mod(x: u128, y: u128, modulus: u128) -> (r: u128)
    requires
        x < modulus,
        y < modulus,
    ensures
        r as int == (x as int + y as int) % modulus as int,
{
    if x >= modulus - y {
        proof {
            lemma_fundamental_div_mod_converse(x + y, modulus as int, 1, x + y - modulus);
        }
        x - (modulus - y)
    } else {
        proof {
            lemma_small_mod((x + y) as nat, modulus as nat);
        }
        x + y
    }
}

/// Reduce an element of `Z^+` to its representative in `{0, ..., q - 1}`.
pub fn reduce_mod_q(input_element: u128, q: &u128) -> (r: u128)
    requires
        *q > 0,
    ensures
        r == input_element % *q,
{
    input_element % *q
}

/// `A * b mod q` for a matrix `A` whose first row has the length of `b`:
/// entry `i` is `(sum_j A[i][j] * b[j]) % modulus`, truncated to 64 bits.
pub fn matrix_vector_multiplication_mod_q(
    input_matrix_a: &[Vec<u64>],
    input_vector_b: &[u64],
    modulus: u128,
) -> (out: Vec<u64>)
    requires
        input_matrix_a@.len() > 0,
        input_matrix_a@[0]@.len() == input_vector_b@.len(),
        forall|i: int|
            0 <= i < input_matrix_a@.len() ==> #[trigger] input_matrix_a@[i]@.len()
                >= input_vector_b@.len(),
        modulus > 0,
        forall|i: int|
            0 <= i < input_matrix_a@.len() ==> dot(
                #[trigger] input_matrix_a@[i]@,
                input_vector_b@,
                input_vector_b@.len() as int,
            ) <= u128::MAX,
    ensures
        out@.len() == input_matrix_a@.len(),
        forall|i: int|
            0 <= i < out@.len() ==> #[trigger] out@[i] == ((dot(
                input_matrix_a@[i]@,
                input_vector_b@,
                input_vector_b@.len() as int,
            ) % modulus as int) as u64),
{
    let rows_a = input_matrix_a.len();
    let cols_a = input_matrix_a[0].len();
    let mut output_vec: Vec<u64> = Vec::new();
    for i in 0..rows_a
        invariant
            rows_a == input_matrix_a@.len(),
            cols_a == input_vector_b@.len(),
            modulus > 0,
            forall|i: int|
                0 <= i < input_matrix_a@.len() ==> #[trigger] input_matrix_a@[i]@.len() >= cols_a,
            forall|i: int|
                0 <= i < input_matrix_a@.len() ==> dot(
                    #[trigger] input_matrix_a@[i]@,
                    input_vector_b@,
                    cols_a as int,
                ) <= u128::MAX,
            output_vec@.len() == i,
            forall|r: int|
                0 <= r < i ==> #[trigger] output_vec@[r] == ((dot(
                    input_matrix_a@[r]@,
                    input_vector_b@,
                    cols_a as int,
                ) % modulus as int) as u64),
    {
        let row = &input_matrix_a[i];
        let mut sum: u128 = 0;
        for j in 0..cols_a
            invariant
                cols_a == input_vector_b@.len(),
                row@.len() >= cols_a,
                dot(row@, input_vector_b@, cols_a as int) <= u128::MAX,
                sum == dot(row@, input_vector_b@, j as int),
        {
            proof {
                lemma_dot_monotone(row@, input_vector_b@, j + 1, cols_a as int);
            }
            let aij = row[j] as u128;
            let bj = input_vector_b[j] as u128;
            let result = aij * bj;
            sum = sum + result;
        }
        output_vec.push((sum % modulus) as u64);
    }
    output_vec
}

/// Schoolbook product `A * B mod q`: entry `(i, j)` is
/// `(sum_k A[i][k] * B[k][j]) % modulus`, truncated to 64 bits, over the columns
/// `k` of the first row of `A` and the columns `j` of the first row of `B`.
pub fn schoolbook_lwe_matrix_multiplication_mod_q(
    input_matrix_a: Vec<Vec<u64>>,
    input_matrix_b: Vec<Vec<u64>>,
    modulus: u128,
) -> (out: Vec<Vec<u64>>)
    requires
        input_matrix_a@.len() > 0,
        input_matrix_a@[0]@.len() > 0,
        input_matrix_b@.len() > 0,
        input_matrix_b@[0]@.len() > 0,
        input_matrix_a@[0]@.len() == input_matrix_b@.len(),
        forall|i: int|
            0 <= i < input_matrix_a@.len() ==> #[trigger] input_matrix_a@[i]@.len()
                >= input_matrix_a@[0]@.len(),
        forall|k: int|
            0 <= k < input_matrix_b@.len() ==> #[trigger] input_matrix_b@[k]@.len()
                >= input_matrix_b@[0]@.len(),
        forall|i: int, k: int, j: int|
            0 <= i < input_matrix_a@.len() && 0 <= k < input_matrix_b@.len() && 0 <= j
                < input_matrix_b@[0]@.len() ==> #[trigger] input_matrix_a@[i]@[k]
                * #[trigger] input_matrix_b@[k]@[j] <= u64::MAX,
        modulus > 0,
    ensures
        out@.len() == input_matrix_a@.len(),
        forall|i: int|
            0 <= i < out@.len() ==> (#[trigger] out@[i])@.len() == input_matrix_b@[0]@.len(),
        forall|i: int, j: int|
            0 <= i < out@.len() && 0 <= j < input_matrix_b@[0]@.len() ==> #[trigger] out@[i]@[j]
                == ((dot(
                input_matrix_a@[i]@,
                column(rows(input_matrix_b@), j),
                input_matrix_b@.len() as int,
            ) % modulus as int) as u64),
{
    let rows_a = input_matrix_a.len();
    let cols_a = input_matrix_a[0].len();
    let cols_b = input_matrix_b[0].len();
    let ghost b = rows(input_matrix_b@);
    let mut output_vec: Vec<Vec<u64>> = Vec::new();
    for i in 0..rows_a
        invariant
            rows_a == input_matrix_a@.len(),
            cols_a == input_matrix_b@.len(),
            cols_a > 0,
            cols_b == input_matrix_b@[0]@.len(),
            b == rows(input_matrix_b@),
            modulus > 0,
            forall|i: int|
                0 <= i < input_matrix_a@.len() ==> #[trigger] input_matrix_a@[i]@.len() >= cols_a,
            forall|k: int|
                0 <= k < input_matrix_b@.len() ==> #[trigger] input_matrix_b@[k]@.len() >= cols_b,
            forall|i: int, k: int, j: int|
                0 <= i < input_matrix_a@.len() && 0 <= k < input_matrix_b@.len() && 0 <= j
                    < cols_b ==> #[trigger] input_matrix_a@[i]@[k] * #[trigger] input_matrix_b@[k]@[j]
                    <= u64::MAX,
            output_vec@.len() == i,
            forall|r: int| 0 <= r < i ==> (#[trigger] output_vec@[r])@.len() == cols_b,
            forall|r: int, j: int|
                0 <= r < i && 0 <= j < cols_b ==> #[trigger] output_vec@[r]@[j] == ((dot(
                    input_matrix_a@[r]@,
                    column(b, j),
                    cols_a as int,
                ) % modulus as int) as u64),
    {
        let mut out_row: Vec<u64> = Vec::new();
        for j in 0..cols_b
            invariant
                0 <= i < rows_a,
                rows_a == input_matrix_a@.len(),
                cols_a == input_matrix_b@.len(),
                cols_b == input_matrix_b@[0]@.len(),
                b == rows(input_matrix_b@),
                modulus > 0,
                forall|i: int|
                    0 <= i < input_matrix_a@.len() ==> #[trigger] input_matrix_a@[i]@.len()
                        >= cols_a,
                forall|k: int|
                    0 <= k < input_matrix_b@.len() ==> #[trigger] input_matrix_b@[k]@.len()
                        >= cols_b,
                forall|i: int, k: int, j: int|
                    0 <= i < input_matrix_a@.len() && 0 <= k < input_matrix_b@.len() && 0 <= j
                        < cols_b ==> #[trigger] input_matrix_a@[i]@[k]
                        * #[trigger] input_matrix_b@[k]@[j] <= u64::MAX,
                out_row@.len() == j,
                forall|c: int|
                    0 <= c < j ==> #[trigger] out_row@[c] == ((dot(
                        input_matrix_a@[i as int]@,
                        column(b, c),
                        cols_a as int,
                    ) % modulus as int) as u64),
        {
            let mut sum: u128 = 0;
            for k in 0..cols_a
                invariant
                    0 <= i < rows_a,
                    0 <= j < cols_b,
                    rows_a == input_matrix_a@.len(),
                    cols_a == input_matrix_b@.len(),
                    cols_b == input_matrix_b@[0]@.len(),
                    b == rows(input_matrix_b@),
                    forall|i: int|
                        0 <= i < input_matrix_a@.len() ==> #[trigger] input_matrix_a@[i]@.len()
                            >= cols_a,
                    forall|k: int|
                        0 <= k < input_matrix_b@.len() ==> #[trigger] input_matrix_b@[k]@.len()
                            >= cols_b,
                    forall|i: int, k: int, j: int|
                        0 <= i < input_matrix_a@.len() && 0 <= k < input_matrix_b@.len() && 0 <= j
                            < cols_b ==> #[trigger] input_matrix_a@[i]@[k]
                            * #[trigger] input_matrix_b@[k]@[j] <= u64::MAX,
                    sum == dot(input_matrix_a@[i as int]@, column(b, j as int), k as int),
                    sum <= k * u64::MAX,
            {
                let aik = input_matrix_a[i][k];
                let bkj = input_matrix_b[k][j];
                assert(aik * bkj <= u64::MAX);
                let mult_result = (aik * bkj) as u128;
                assert(column(b, j as int)[k as int] == bkj);
                assert(sum + mult_result <= (k + 1) * u64::MAX) by (nonlinear_arith)
                    requires
                        sum <= k * u64::MAX,
                        mult_result <= u64::MAX,
                ;
                assert((k + 1) * u64::MAX <= u128::MAX) by (nonlinear_arith)
                    requires
                        k < cols_a,
                        cols_a <= usize::MAX,
                ;
                sum = sum + mult_result;
            }
            out_row.push((sum % modulus) as u64);
        }
        output_vec.push(out_row);
    }
    output_vec
}

/// `b = B*t + e (mod q)`: entry `i` adds `e[i]` to the inner product of row `i` of `B`
/// with `t` and takes the least non-negative remainder modulo `modulus` (see [`body_entry`]).
pub fn body(
    input_matrix_b: &[Vec<u64>],
    input_vector_t: &[u64],
    input_vector_e: &[i64],
    modulus: u128,
) -> (out: Vec<u64>)
    requires
        input_matrix_b@.len() > 0,
        input_matrix_b@[0]@.len() == input_vector_t@.len(),
        forall|i: int|
            0 <= i < input_matrix_b@.len() ==> #[trigger] input_matrix_b@[i]@.len()
                >= input_vector_t@.len(),
        input_vector_e@.len() >= input_matrix_b@.len(),
        modulus > 0,
        forall|i: int|
            0 <= i < input_matrix_b@.len() ==> dot(
                #[trigger] input_matrix_b@[i]@,
                input_vector_t@,
                input_vector_t@.len() as int,
            ) <= u128::MAX,
    ensures
        out@.len() == input_matrix_b@.len(),
        forall|i: int|
            0 <= i < out@.len() ==> #[trigger] out@[i] == body_entry(
                input_matrix_b@[i]@,
                input_vector_t@,
                input_vector_e@[i],
                modulus,
            ),
{
    let total_rows_matrix_b = input_matrix_b.len();
    let total_cols_matrix_b = input_matrix_b[0].len();
    let mut output_vector: Vec<u64> = Vec::new();
    for i in 0..total_rows_matrix_b
        invariant
            total_rows_matrix_b == input_matrix_b@.len(),
            total_cols_matrix_b == input_vector_t@.len(),
            input_vector_e@.len() >= input_matrix_b@.len(),
            modulus > 0,
            forall|i: int|
                0 <= i < input_matrix_b@.len() ==> #[trigger] input_matrix_b@[i]@.len()
                    >= total_cols_matrix_b,
            forall|i: int|
                0 <= i < input_matrix_b@.len() ==> dot(
                    #[trigger] input_matrix_b@[i]@,
                    input_vector_t@,
                    total_cols_matrix_b as int,
                ) <= u128::MAX,
            output_vector@.len() == i,
            forall|r: int|
                0 <= r < i ==> #[trigger] output_vector@[r] == body_entry(
                    input_matrix_b@[r]@,
                    input_vector_t@,
                    input_vector_e@[r],
                    modulus,
                ),
    {
        let row = &input_matrix_b[i];
        let mut sum: u128 = 0;
        for j in 0..total_cols_matrix_b
            invariant
                total_cols_matrix_b == input_vector_t@.len(),
                row@.len() >= total_cols_matrix_b,
                dot(row@, input_vector_t@, total_cols_matrix_b as int) <= u128::MAX,
                sum == dot(row@, input_vector_t@, j as int),
        {
            proof {
                lemma_dot_monotone(row@, input_vector_t@, j + 1, total_cols_matrix_b as int);
            }
            let bij = row[j] as u128;
            let tj = input_vector_t[j] as u128;
            sum = sum + bij * tj;
        }
        let error_mod = signed_mod(input_vector_e[i], modulus);
        let temp = add_mod(sum % modulus, error_mod, modulus);
        proof {
            lemma_add_mod_noop(sum as int, input_vector_e@[i as int] as int, modulus as int);
        }
        output_vector.push(temp as u64);
    }
    output_vector
}

/// `A = [a | B]`: row `i` of the result is `a[i]` followed by row `i` of `B`.
pub fn augment_matrices(input_vector_a: &[u64], input_matrix_b: &[Vec<u64>]) -> (out: Vec<Vec<u64>>)
    requires
        input_vector_a@.len() == input_matrix_b@.len(),
    ensures
        rows(out@) == Seq::new(
            input_matrix_b@.len(),
            |i: int| seq![input_vector_a@[i]] + input_matrix_b@[i]@,
        ),
{
    let mut output_vec: Vec<Vec<u64>> = Vec::new();
    for i in 0..input_vector_a.len()
        invariant
            input_vector_a@.len() == input_matrix_b@.len(),
            output_vec@.len() == i,
            forall|r: int|
                0 <= r < i ==> (#[trigger] output_vec@[r])@ == seq![input_vector_a@[r]]
                    + input_matrix_b@[r]@,
    {
        let row_b = &input_matrix_b[i];
        let mut new_row_vec: Vec<u64> = Vec::new();
        new_row_vec.push(input_vector_a[i]);
        for j in 0..row_b.len()
            invariant
                new_row_vec@ == seq![input_vector_a@[i as int]] + row_b@.take(j as int),
        {
            new_row_vec.push(row_b[j]);
            assert(row_b@.take(j + 1) == row_b@.take(j as int).push(row_b@[j as int]));
        }
        assert(row_b@.take(row_b@.len() as int) == row_b@);
        output_vec.push(new_row_vec);
    }
    assert(rows(output_vec@) =~= Seq::new(
        input_matrix_b@.len(),
        |i: int| seq![input_vector_a@[i]] + input_matrix_b@[i]@,
    ));
    output_vec
}

/// `rng.random_range(low..=high)` on `i64` (rand's `RngExt::random_range`): a value
/// of the inclusive range, which rand documents must not be empty. Which value
/// comes out depends on the generator's state, so nothing more is stated.
#[verifier::external_body]
fn random_i64_inclusive(rng: &mut ChaCha20Rng, low: i64, high: i64) -> (r: i64)
    requires
        low <= high,
    ensures
        low <= r <= high,
{
    rng.random_range(low..=high)
}

/// `rng.random_range(0..q)` (rand's `RngExt::random_range`): an element of
/// `{0, ..., q - 1}`; rand panics on an empty range, so `q > 0`. Which element
/// comes out depends on the generator's state, so nothing more is stated.
#[verifier::external_body]
pub fn sample_uniform_distribution_random_element_mod_q(rng: &mut ChaCha20Rng, q: &u64) -> (r: u64)
    requires
        *q > 0,
    ensures
        r < *q,
{
    rng.random_range(0..*q)
}

/// Sample `e_i` in `[-B, B]`; a bound `B <= 0` gives 0 and leaves the generator as it was.
fn sample_bounded_error(rng: &mut ChaCha20Rng, error_bound: i64) -> (e: i64)
    ensures
        error_bound <= 0 ==> e == 0 && *final(rng) == *old(rng),
        error_bound > 0 ==> -error_bound <= e <= error_bound,
{
    if error_bound <= 0 {
        return 0;
    }
    random_i64_inclusive(rng, -error_bound, error_bound)
}

/// Whether `e` holds `m` coefficients in `[-B, B]` (all zero when `B <= 0`).
pub open spec fn bounded_error_vector(e: Seq<i64>, error_bound: i64, m: nat) -> bool {
    &&& e.len() == m
    &&& forall|i: int|
        0 <= i < m ==> if error_bound <= 0 {
            #[trigger] e[i] == 0
        } else {
            -error_bound <= #[trigger] e[i] <= error_bound
        }
}

/// Sample an error vector `e` of `size_m` coefficients from the `B`-bounded
/// distribution `Chi^m`, each `e_i` in `[-B, B]`; a bound `B <= 0` gives zeros and
/// leaves the generator as it was.
pub fn sample_error_eigenvector(rng: &mut ChaCha20Rng, error_bound: i64, size_m: usize) -> (e: Vec<i64>)
    ensures
        bounded_error_vector(e@, error_bound, size_m as nat),
        error_bound <= 0 ==> *final(rng) == *old(rng),
{
    let mut e_vec: Vec<i64> = Vec::new();
    for k in 0..size_m
        invariant
            e_vec@.len() == k,
            error_bound <= 0 ==> *rng == *old(rng),
            forall|i: int|
                0 <= i < k ==> if error_bound <= 0 {
                    #[trigger] e_vec@[i] == 0
                } else {
                    -error_bound <= #[trigger] e_vec@[i] <= error_bound
                },
    {
        let x = sample_bounded_error(rng, error_bound);
        e_vec.push(x);
    }
    e_vec
}

} // verus!
