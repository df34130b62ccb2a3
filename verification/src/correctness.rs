//! Decryption correctness of GSW: a bit encrypted under a public key is recovered by
//! decryption under the matching secret key, as long as the noise of the decryption
//! row stays below half the decryption coefficient; and the laws of `Flatten` over `Z_q`.
use crate::arith::{
    dot, lemma_sum_add, lemma_sum_blocks, lemma_sum_ext, lemma_sum_mod, lemma_sum_scale,
    lemma_sum_shift, lemma_sum_single, lemma_sum_zero, sum,
};
use crate::gsw::{
    bit_at, bit_decomp_row, decide, first_window, in_window, lemma_index_split, power_entry,
    powers_of_two, secret_base, encryption_sum, encryption_sum_entry, mat_mul_mod, recompose,
    recompose_terms, GswParameters, decryption, decryption_index, decryption_inputs_ok,
    encryption, encryption_inputs_ok, flatten_spec, inverse_bit_decomp, reduce_row, is_binary_matrix, is_private_vector,
    is_sample_matrix, lemma_decomposition_length_bound, lemma_decomposition_length_range,
    public_key_matrix, secret_key_vector,
};
use crate::util::bounded_error_vector;
use crate::util::{body_entry, column};
use vstd::arithmetic::div_mod::*;
use vstd::arithmetic::mul::*;
use vstd::arithmetic::power2::*;
use vstd::prelude::*;

verus! {

/// The low `l` bits of `y`, weighted by powers of two, give back `y mod 2^l`.
pub proof fn lemma_bits_recompose(y: nat, l: nat)
    ensures
        sum(l as int, |j: int| bit_at(y, j as nat) as int * pow2(j as nat) as int) == y % pow2(l),
    decreases l,
{
    if l == 0 {
        lemma2_to64();
    } else {
        let p = pow2((l - 1) as nat);
        lemma_bits_recompose(y, (l - 1) as nat);
        lemma_pow2_unfold(l);
        lemma_pow2_pos((l - 1) as nat);
        lemma_mod_breakdown(y as int, p as int, 2);
        lemma_mul_is_commutative(p as int, 2);
        lemma_mul_is_commutative(p as int, bit_at(y, (l - 1) as nat) as int);
    }
}

/// `Powersof2` entries are `s * 2^j` modulo `q`.
pub proof fn lemma_power_entry_mod(s: u64, j: nat, q: nat)
    requires
        0 < q < 0x1_0000_0000_0000_0000,
    ensures
        power_entry(s, j, q) as int % q as int == (s as int * pow2(j) as int) % q as int,
{
    if j == 0 {
        lemma2_to64();
    } else {
        lemma_mod_bound((s as nat * pow2(j)) as int, q as int);
        lemma_mod_twice((s as nat * pow2(j)) as int, q as int);
    }
}

/// `<BitDecomp(y), Powersof2(s)>` over one block of `l` entries is `s * (y mod 2^l)`
/// modulo `q`.
pub proof fn lemma_block_mod(y: nat, s: u64, l: nat, q: nat)
    requires
        0 < q < 0x1_0000_0000_0000_0000,
    ensures
        sum(l as int, |j: int| bit_at(y, j as nat) as int * power_entry(s, j as nat, q) as int)
            % q as int == (s as int * (y % pow2(l)) as int) % q as int,
{
    let f = |j: int| bit_at(y, j as nat) as int * power_entry(s, j as nat, q) as int;
    let bits = |j: int| bit_at(y, j as nat) as int * pow2(j as nat) as int;
    let g = |j: int| s as int * bits(j);
    assert forall|j: int| 0 <= j < l implies #[trigger] f(j) % q as int == g(j) % q as int by {
        let b = bit_at(y, j as nat) as int;
        let pe = power_entry(s, j as nat, q) as int;
        let p = pow2(j as nat) as int;
        lemma_power_entry_mod(s, j as nat, q);
        lemma_mul_mod_noop_right(b, pe, q as int);
        lemma_mul_mod_noop_right(b, s as int * p, q as int);
        lemma_mul_is_associative(b, s as int, p);
        lemma_mul_is_commutative(b, s as int);
        lemma_mul_is_associative(s as int, b, p);
    }
    lemma_sum_mod(l as int, f, g, q as int);
    lemma_sum_scale(l as int, bits, s as int);
    lemma_sum_ext(l as int, |j: int| s as int * bits(j), g);
    lemma_bits_recompose(y, l);
    lemma_sum_ext(
        l as int,
        bits,
        |j: int| bit_at(y, j as nat) as int * pow2(j as nat) as int,
    );
}

/// `first_window` from `from` finds an index in the window no later than any given
/// index in the window.
pub proof fn lemma_first_window_found(v: Seq<u64>, q: u64, l: int, from: int, j: int)
    requires
        from <= j < l,
        in_window(v[j], q),
    ensures
        from <= first_window(v, q, l, from) <= j,
        in_window(v[first_window(v, q, l, from)], q),
    decreases j - from,
{
    if !in_window(v[from], q) {
        lemma_first_window_found(v, q, l, from + 1, j);
    }
}

/// Decryption decides correctly: with `x = u*v + eta (mod q)`, `v` in `(q/4, q/2]` and
/// `2|eta| < v`, the decision is `u`.
pub proof fn lemma_decide_correct(u: u8, v: u64, eta: int, q: u64)
    requires
        u <= 1,
        q > 0,
        in_window(v, q),
        2 * (if eta >= 0 {
            eta
        } else {
            -eta
        }) < v,
    ensures
        decide(((u * v + eta) % (q as int)) as u64, v, q) == u,
{
    let z = u * v + eta;
    let x = z % (q as int);
    if 0 <= z {
        lemma_small_mod(z as nat, q as nat);
    } else {
        lemma_fundamental_div_mod_converse(z, q as int, -1, z + q);
    }
    assert(x as u64 == x);
}

/// `<BitDecomp(y), Powersof2(s)> == sum_k s_k * (y_k mod 2^l)` modulo `q`, for vectors
/// `y` and `s` of the same length.
pub proof fn lemma_bit_decomp_powers_dot(y: Seq<u64>, s: Seq<u64>, l: nat, q: nat)
    requires
        0 < q < 0x1_0000_0000_0000_0000,
        y.len() == s.len(),
        l > 0,
    ensures
        dot(bit_decomp_row(y, l), powers_of_two(s, l, q), (y.len() * l) as int) % q as int == sum(
            y.len() as int,
            |k: int| s[k] as int * (y[k] as nat % pow2(l)) as int,
        ) % q as int,
{
    let w = y.len() as int;
    let c_row = bit_decomp_row(y, l);
    let v = powers_of_two(s, l, q);
    let h = |c: int| c_row[c] as int * v[c] as int;
    let blocks = |k: int| sum(l as int, |j: int| h(k * l + j));
    let inner = |k: int|
        sum(l as int, |j: int| bit_at(y[k] as nat, j as nat) as int * power_entry(s[k], j as nat, q) as int);
    let target = |k: int| s[k] as int * (y[k] as nat % pow2(l)) as int;
    lemma_sum_blocks(w, l as int, h);
    assert forall|k: int| 0 <= k < w implies #[trigger] blocks(k) == inner(k) by {
        assert forall|j: int| 0 <= j < l implies #[trigger] h(k * l + j) == bit_at(
            y[k] as nat,
            j as nat,
        ) as int * power_entry(s[k], j as nat, q) as int by {
            lemma_index_split(k, j, l as int);
            lemma_mul_inequality(k + 1, w, l as int);
            lemma_mul_is_distributive_add_other_way(l as int, k, 1);
            lemma_mod_bound((y[k] as nat / pow2(j as nat)) as int, 2);
        }
        lemma_sum_ext(
            l as int,
            |j: int| h(k * l + j),
            |j: int| bit_at(y[k] as nat, j as nat) as int * power_entry(s[k], j as nat, q) as int,
        );
    }
    lemma_sum_ext(w, blocks, inner);
    assert forall|k: int| 0 <= k < w implies #[trigger] inner(k) % q as int == target(k) % q as int by {
        lemma_block_mod(y[k] as nat, s[k], l, q);
    }
    lemma_sum_mod(w, inner, target, q as int);
}

/// A row of the public key against the base secret gives the error back:
/// `<[b_r | B_r], (1, -t)> == e_r (mod q)` when `b_r = <B_r, t> + e_r (mod q)`.
pub proof fn lemma_key_row(b_row: Seq<u64>, t: Seq<u64>, e_r: i64, q: u64)
    requires
        q > 0,
        b_row.len() == t.len(),
        forall|j: int| 0 <= j < t.len() ==> #[trigger] t[j] <= q,
    ensures
        dot(
            seq![body_entry(b_row, t, e_r, q as u128)] + b_row,
            secret_base(t, q),
            t.len() + 1int,
        ) % q as int == e_r as int % q as int,
{
    let n = t.len() as int;
    let qi = q as int;
    let a_row = seq![body_entry(b_row, t, e_r, q as u128)] + b_row;
    let base = secret_base(t, q);
    let g = |k: int| a_row[k] as int * base[k] as int;
    let d = dot(b_row, t, n);
    let prods = |j: int| b_row[j] as int * t[j] as int;
    lemma_sum_shift(1, n, g);
    lemma_sum_ext(n + 1, |j: int| a_row[j] as int * base[j] as int, g);
    assert(sum(0, g) == 0);
    assert(sum(1, g) == g(0));
    let z = d + e_r as int;
    lemma_mod_bound(z, qi);
    assert(a_row[0] as int == z % qi);
    assert(base[0] == 1);
    let tail = |j: int| g(1 + j);
    let negs = |j: int| -1 * prods(j);
    assert forall|j: int| 0 <= j < n implies #[trigger] tail(j) % qi == negs(j) % qi by {
        assert(a_row[1 + j] == b_row[j]);
        let bj = b_row[j] as int;
        let tj = t[j] as int;
        if t[j] == 0 {
            assert(base[1 + j] == 0);
            lemma_mul_basics(bj);
        } else {
            assert(base[1 + j] as int == qi - tj);
            lemma_mul_is_distributive_sub(bj, qi, tj);
            lemma_mul_is_commutative(bj, qi);
            lemma_mod_multiples_vanish(bj, -1 * (bj * tj), qi);
        }
    }
    lemma_sum_mod(n, tail, negs, qi);
    lemma_sum_scale(n, prods, -1);
    lemma_sum_ext(n, negs, |j: int| -1 * prods(j));
    assert(sum(n, prods) == d);
    lemma_add_mod_noop(z % qi, sum(n, tail), qi);
    lemma_add_mod_noop(z % qi, -d, qi);
    lemma_mod_twice(z, qi);
    lemma_add_mod_noop(z, -d, qi);
}

/// `<R_i * A mod q, s> == <R_i, A * s> (mod q)`: row `i` of `R * A mod q` against `s`
/// is `sum_r R_i[r] * <A_r, s>` modulo `q`.
pub proof fn lemma_row_times_matrix(rrow: Seq<u64>, a: Seq<Seq<u64>>, s: Seq<u64>, q: nat)
    requires
        0 < q < 0x1_0000_0000_0000_0000,
        a.len() == rrow.len(),
    ensures
        sum(
            s.len() as int,
            |k: int| s[k] as int * ((dot(rrow, column(a, k), a.len() as int) % q as int) as u64) as int,
        ) % q as int == sum(
            a.len() as int,
            |r: int| rrow[r] as int * dot(a[r], s, s.len() as int),
        ) % q as int,
{
    let w = s.len() as int;
    let m = a.len() as int;
    let qi = q as int;
    let f1 = |k: int| s[k] as int * ((dot(rrow, column(a, k), m) % qi) as u64) as int;
    let f2 = |k: int| s[k] as int * dot(rrow, column(a, k), m);
    let ff = |k: int, r: int| s[k] as int * (rrow[r] as int * a[r][k] as int);
    assert forall|k: int| 0 <= k < w implies #[trigger] f1(k) % qi == f2(k) % qi by {
        let dk = dot(rrow, column(a, k), m);
        lemma_mod_bound(dk, qi);
        lemma_mul_mod_noop_right(s[k] as int, dk, qi);
    }
    lemma_sum_mod(w, f1, f2, qi);
    assert forall|k: int| 0 <= k < w implies #[trigger] f2(k) == sum(m, |r: int| ff(k, r)) by {
        let col = |r: int| rrow[r] as int * a[r][k] as int;
        lemma_sum_ext(m, |j: int| rrow[j] as int * column(a, k)[j] as int, col);
        lemma_sum_scale(m, col, s[k] as int);
        lemma_sum_ext(m, |r: int| s[k] as int * col(r), |r: int| ff(k, r));
    }
    lemma_sum_ext(w, f2, |k: int| sum(m, |r: int| ff(k, r)));
    crate::arith::lemma_sum_swap(w, m, ff);
    let keyed = |r: int| rrow[r] as int * sum(w, |k: int| a[r][k] as int * s[k] as int);
    let swapped = |r: int| sum(w, |k: int| ff(k, r));
    assert forall|r: int| 0 <= r < m implies #[trigger] swapped(r) == keyed(r) by {
        let row = |k: int| a[r][k] as int * s[k] as int;
        assert forall|k: int| 0 <= k < w implies #[trigger] ff(k, r) == rrow[r] as int * row(k) by {
            lemma_mul_is_associative(s[k] as int, rrow[r] as int, a[r][k] as int);
            lemma_mul_is_commutative(s[k] as int, rrow[r] as int);
            lemma_mul_is_associative(rrow[r] as int, s[k] as int, a[r][k] as int);
            lemma_mul_is_commutative(s[k] as int, a[r][k] as int);
        }
        lemma_sum_scale(w, row, rrow[r] as int);
        lemma_sum_ext(w, |k: int| ff(k, r), |k: int| rrow[r] as int * row(k));
    }
    lemma_sum_ext(m, swapped, keyed);
    lemma_sum_ext(m, keyed, |r: int| rrow[r] as int * dot(a[r], s, s.len() as int));
}

/// `<R_i * A mod q, s> == <R_i, A * s> (mod q)`: with `A * s == e` row by row modulo `q`,
/// row `i` of `R * A mod q` against `s` is `<R_i, e>` modulo `q`.
pub proof fn lemma_row_times_key(
    rrow: Seq<u64>,
    a: Seq<Seq<u64>>,
    s: Seq<u64>,
    e: Seq<i64>,
    q: nat,
)
    requires
        0 < q < 0x1_0000_0000_0000_0000,
        a.len() == rrow.len(),
        forall|r: int|
            0 <= r < a.len() ==> #[trigger] dot(a[r], s, s.len() as int) % q as int == e[r] as int
                % q as int,
    ensures
        sum(
            s.len() as int,
            |k: int| s[k] as int * ((dot(rrow, column(a, k), a.len() as int) % q as int) as u64) as int,
        ) % q as int == sum(a.len() as int, |r: int| rrow[r] as int * e[r] as int) % q as int,
{
    let m = a.len() as int;
    let qi = q as int;
    lemma_row_times_matrix(rrow, a, s, q);
    let keyed = |r: int| rrow[r] as int * dot(a[r], s, s.len() as int);
    let noise = |r: int| rrow[r] as int * e[r] as int;
    assert forall|r: int| 0 <= r < m implies #[trigger] keyed(r) % qi == noise(r) % qi by {
        lemma_mul_mod_noop_right(rrow[r] as int, dot(a[r], s, s.len() as int), qi);
        lemma_mul_mod_noop_right(rrow[r] as int, e[r] as int, qi);
    }
    lemma_sum_mod(m, keyed, noise, qi);
}

/// Block `k` of any row `i < N` of `u * I_N + BitDecomp(R * A) (mod q)` recomposes to
/// `(R * A mod q)[i][k] + [k == i / l] * u * 2^(i mod l)` modulo `q`, and to at most
/// that sum: the message sits on the whole diagonal.
pub proof fn lemma_encryption_block(
    params: GswParameters,
    a: Seq<Seq<u64>>,
    u: u8,
    r: Seq<Seq<u64>>,
    i: int,
    k: int,
)
    requires
        params.q_spec() > 0,
        params.l_spec() > 0,
        params.q_spec() < pow2(params.l_spec()),
        a.len() > 0,
        params.big_n_spec() == a[0].len() * params.l_spec(),
        r.len() == params.big_n_spec(),
        0 <= i < params.big_n_spec(),
        0 <= k < a[0].len(),
    ensures
        recompose(encryption_sum(params, a, u, r)[i], k * params.l_spec(), params.l_spec())
            % params.q_spec() as int == (mat_mul_mod(r, a, params.q_spec())[i][k] as int + (if k
            == i / (params.l_spec() as int) {
            u as int * pow2((i % (params.l_spec() as int)) as nat) as int
        } else {
            0
        })) % params.q_spec() as int,
        recompose(encryption_sum(params, a, u, r)[i], k * params.l_spec(), params.l_spec())
            <= mat_mul_mod(r, a, params.q_spec())[i][k] as int + (if k == i / (
        params.l_spec() as int) {
            u as int * pow2((i % (params.l_spec() as int)) as nat) as int
        } else {
            0
        }),
{
    let q = params.q_spec();
    let qi = q as int;
    let l = params.l_spec();
    let nn = params.big_n_spec();
    let w = a[0].len();
    params.lemma_field_ranges();
    let p = mat_mul_mod(r, a, q);
    let row = encryption_sum(params, a, u, r)[i];
    let pk = p[i][k];
    assert forall|x: int| 0 <= x < p.len() implies (#[trigger] p[x]).len() == w by {}
    crate::gsw::lemma_bit_decomp_shape(p, l, w);
    let hot = |j: int| (if i == k * l + j { u as int } else { 0 }) * pow2(j as nat) as int;
    let bits = |j: int| bit_at(pk as nat, j as nat) as int * pow2(j as nat) as int;
    let terms = recompose_terms(row, k * l);
    let exact = |j: int| hot(j) + bits(j);
    assert(i * nn >= 0) by {
        lemma_mul_nonnegative(i, nn as int);
    }
    let d = crate::gsw::bit_decomp(p, l);
    assert forall|j: int| 0 <= j < l implies #[trigger] terms(j) % qi == exact(j) % qi by {
        let c = k * l + j;
        lemma_index_split(k, j, l as int);
        lemma_block_index_bound(k, j, l as int, w as int);
        assert(row[c] == encryption_sum_entry(params, a, u, r, i, c));
        assert(i * nn + c == i * (w * l) + c);
        let b = bit_at(pk as nat, j as nat);
        lemma_mod_bound((pk as nat / pow2(j as nat)) as int, 2);
        assert(d[i * nn + c] == bit_decomp_row(p[i], l)[c]);
        assert(d[i * nn + c] as int == b as int);
        let z = (if i == c { u as int } else { 0 }) + b as int;
        lemma_mod_bound(z, qi);
        assert(row[c] as int == z % qi);
        lemma_mul_mod_noop_left(z, pow2(j as nat) as int, qi);
        lemma_mul_is_distributive_add_other_way(
            pow2(j as nat) as int,
            (if i == c { u as int } else { 0 }),
            b as int,
        );
    }
    lemma_sum_mod(l as int, terms, exact, qi);
    assert forall|j: int| 0 <= j < l implies #[trigger] terms(j) <= exact(j) by {
        let c = k * l + j;
        lemma_index_split(k, j, l as int);
        lemma_block_index_bound(k, j, l as int, w as int);
        assert(row[c] == encryption_sum_entry(params, a, u, r, i, c));
        assert(i * nn + c == i * (w * l) + c);
        let b = bit_at(pk as nat, j as nat);
        lemma_mod_bound((pk as nat / pow2(j as nat)) as int, 2);
        assert(d[i * nn + c] == bit_decomp_row(p[i], l)[c]);
        let z = (if i == c { u as int } else { 0 }) + b as int;
        lemma_mod_bound(z, qi);
        lemma_mod_decreases(z as nat, q);
        lemma_pow2_pos(j as nat);
        lemma_mul_inequality(row[c] as int, z, pow2(j as nat) as int);
        lemma_mul_is_distributive_add_other_way(
            pow2(j as nat) as int,
            (if i == c { u as int } else { 0 }),
            b as int,
        );
        lemma_mul_is_commutative(z, pow2(j as nat) as int);
    }
    crate::arith::lemma_sum_le(l as int, terms, exact);
    lemma_sum_add(l as int, hot, bits);
    lemma_sum_ext(l as int, |j: int| hot(j) + bits(j), exact);
    crate::correctness::lemma_bits_recompose(pk as nat, l);
    lemma_sum_ext(
        l as int,
        bits,
        |j: int| bit_at(pk as nat, j as nat) as int * pow2(j as nat) as int,
    );
    lemma_mod_bound(
        dot(r[i], crate::util::column(a, k), a.len() as int),
        qi,
    );
    lemma_small_mod(pk as nat, pow2(l));
    let li = l as int;
    lemma_fundamental_div_mod(i, li);
    lemma_mod_bound(i, li);
    lemma_mul_is_commutative(li, i / li);
    if k == i / li {
        let j0 = i % li;
        assert forall|j: int| 0 <= j < l && j != j0 implies #[trigger] hot(j) == 0 by {}
        lemma_sum_single(l as int, hot, j0);
    } else {
        assert forall|j: int| 0 <= j < l implies #[trigger] hot(j) == 0 by {
            if i == k * l + j {
                lemma_index_split(k, j, li);
            }
        }
        lemma_sum_zero(l as int, hot);
    }
}

/// Block `k` of row `i` (`i < l`) of `u * I_N + BitDecomp(R * A) (mod q)` recomposes to
/// `(R * A mod q)[i][k] + [k == 0] * u * 2^i` modulo `q`.
pub proof fn lemma_encryption_row_block(
    params: GswParameters,
    a: Seq<Seq<u64>>,
    u: u8,
    r: Seq<Seq<u64>>,
    i: int,
    k: int,
)
    requires
        params.q_spec() > 0,
        params.l_spec() > 0,
        params.q_spec() < pow2(params.l_spec()),
        a.len() > 0,
        params.big_n_spec() == a[0].len() * params.l_spec(),
        r.len() == params.big_n_spec(),
        0 <= i < params.l_spec(),
        0 <= k < a[0].len(),
    ensures
        recompose(encryption_sum(params, a, u, r)[i], k * params.l_spec(), params.l_spec())
            % params.q_spec() as int == (mat_mul_mod(r, a, params.q_spec())[i][k] as int + (if k
            == 0 {
            u as int * pow2(i as nat) as int
        } else {
            0
        })) % params.q_spec() as int,
        recompose(encryption_sum(params, a, u, r)[i], k * params.l_spec(), params.l_spec())
            <= mat_mul_mod(r, a, params.q_spec())[i][k] as int + (if k == 0 {
            u as int * pow2(i as nat) as int
        } else {
            0
        }),
{
    let l = params.l_spec() as int;
    lemma_mul_inequality(1, a[0].len() as int, l);
    lemma_basic_div(i, l);
    lemma_small_mod(i as nat, l as nat);
    lemma_encryption_block(params, a, u, r, i, k);
}

/// `k * l + j < w * l` for `k < w` and `j < l`.
proof fn lemma_block_index_bound(k: int, j: int, l: int, w: int)
    requires
        0 <= k < w,
        0 <= j < l,
    ensures
        0 <= k * l + j < w * l,
{
    lemma_mul_nonnegative(k, l);
    lemma_mul_inequality(k + 1, w, l);
    lemma_mul_is_distributive_add_other_way(l, k, 1);
}

/// The noise `<R_i, e>` that row `i` of an encryption carries into decryption.
pub open spec fn decryption_noise(r: Seq<Seq<u64>>, e: Seq<i64>, i: int) -> int {
    sum(e.len() as int, |k: int| r[i][k] as int * e[k] as int)
}

/// `|x|`.
pub open spec fn abs(x: int) -> int {
    if x >= 0 {
        x
    } else {
        -x
    }
}

/// With `q >= 2` (so `2 <= l <= 64` and `2^(l-1) <= q < 2^l`), decryption finds its
/// coefficient among the first `l - 1` entries of the secret key: `v_i = 2^i`, in `(q/4, q/2]`.
pub proof fn lemma_decryption_coefficient(params: GswParameters, t: Seq<u64>)
    requires
        params.wf(),
        params.q_spec() >= 2,
        t.len() == params.n_spec(),
    ensures
        2 <= params.l_spec() <= 64,
        pow2((params.l_spec() - 1) as nat) <= params.q_spec() < pow2(params.l_spec()),
        0 <= decryption_index(params, secret_key_vector(params, t)) <= params.l_spec() - 2,
        secret_key_vector(params, t)[decryption_index(params, secret_key_vector(params, t))]
            == pow2(decryption_index(params, secret_key_vector(params, t)) as nat),
        in_window(
            secret_key_vector(params, t)[decryption_index(params, secret_key_vector(params, t))],
            params.q_spec() as u64,
        ),
{
    params.lemma_field_ranges();
    let q = params.q_spec();
    let l = params.l_spec();
    let sb = secret_base(t, q as u64);
    let v = secret_key_vector(params, t);
    lemma_decomposition_length_range(q);
    lemma2_to64_rest();
    lemma_decomposition_length_bound(q, 64);
    if l < 2 {
        lemma2_to64();
    }
    assert(sb[0] == 1);
    lemma_mul_inequality(1, sb.len() as int, l as int);
    assert forall|j: int| 0 <= j <= l - 2 implies #[trigger] v[j] == pow2(j as nat) by {
        lemma_index_split(0, j, l as int);
        lemma_mul_basics(l as int);
        lemma_pow2_strictly_increases(j as nat, (l - 1) as nat);
        if j == 0 {
            lemma2_to64();
        } else {
            lemma_small_mod(pow2(j as nat), q);
        }
    }
    let jw = l - 2;
    lemma_pow2_unfold((l - 1) as nat);
    if jw > 0 {
        lemma_pow2_unfold((l - 2) as nat + 1);
    }
    lemma_pow2_unfold(l);
    assert(pow2(l) == 4 * pow2(jw as nat));
    assert(in_window(v[jw as int], q as u64));
    lemma_first_window_found(v, q as u64, l as int, 0, jw as int);
    let i0 = decryption_index(params, v);
    assert(0 <= i0 <= jw);
    assert(v[i0] == pow2(i0 as nat));
}

/// Decryption correctness: for a public key `A = [B*t + e | B]`, the secret key
/// `v = Powersof2(1, -t)`, a binary matrix `R` and a bit `u`, decrypting
/// `Flatten(u * I_N + BitDecomp(R * A))` with `v` gives `u` back, provided that the
/// noise `<R_i, e>` of the decryption row `i` is below half of `v_i = 2^i`. The inputs
/// meet what encryption and decryption require.
pub proof fn lemma_decrypt_encrypt(
    params: GswParameters,
    t: Seq<u64>,
    b: Seq<Seq<u64>>,
    e: Seq<i64>,
    r: Seq<Seq<u64>>,
    u: u8,
)
    requires
        params.wf(),
        params.q_spec() >= 2,
        params.q_spec() + params.q_spec() / 2 <= 0x1_0000_0000_0000_0000,
        params.m_spec() >= 1,
        is_private_vector(t, params.n_spec(), params.q_spec()),
        is_sample_matrix(b, params.m_spec(), params.n_spec(), params.q_spec()),
        e.len() == params.m_spec(),
        is_binary_matrix(r, params.big_n_spec(), params.m_spec()),
        u <= 1,
        2 * abs(decryption_noise(r, e, decryption_index(params, secret_key_vector(params, t))))
            < pow2(decryption_index(params, secret_key_vector(params, t)) as nat),
    ensures
        encryption_inputs_ok(params, public_key_matrix(params, b, t, e)),
        decryption_inputs_ok(
            params,
            encryption(params, public_key_matrix(params, b, t, e), u, r),
            secret_key_vector(params, t),
        ),
        decryption(
            params,
            encryption(params, public_key_matrix(params, b, t, e), u, r),
            secret_key_vector(params, t),
        ) == u,
{
    params.lemma_field_ranges();
    let q = params.q_spec();
    let qi = q as int;
    let l = params.l_spec();
    let n = params.n_spec();
    let m = params.m_spec();
    let nn = params.big_n_spec();
    let w = n + 1;
    let a = public_key_matrix(params, b, t, e);
    let sb = secret_base(t, q as u64);
    let v = secret_key_vector(params, t);
    // the lengths
    lemma_decryption_coefficient(params, t);
    lemma2_to64_rest();
    assert(nn == w * l);
    lemma_mul_inequality(1, w as int, l as int);
    lemma_mod_multiples_basic(w as int, l as int);
    lemma_div_multiples_vanish(w as int, l as int);
    lemma_mul_is_commutative(w as int, l as int);
    assert forall|x: int| 0 <= x < a.len() implies (#[trigger] a[x]).len() >= a[0].len() by {}
    assert(encryption_inputs_ok(params, a));
    // the decryption index and its coefficient
    lemma_decryption_coefficient(params, t);
    let i0 = decryption_index(params, v);
    // the ciphertext
    let sm = encryption_sum(params, a, u, r);
    let c = encryption(params, a, u, r);
    assert forall|x: int| 0 <= x < c.len() implies (#[trigger] c[x]).len() == nn by {
        assert(sm[x].len() == nn);
    }
    assert(decryption_inputs_ok(params, c, v));
    // the decryption row
    let y = reduce_row(inverse_bit_decomp(sm[i0], l), q);
    assert(y.len() == w);
    assert(c[i0] == bit_decomp_row(y, l));
    lemma_bit_decomp_powers_dot(y, sb, l, q);
    let p = mat_mul_mod(r, a, q);
    let f = |k: int| sb[k] as int * (y[k] as nat % pow2(l)) as int;
    let sp = |k: int| sb[k] as int * p[i0][k] as int;
    let hot = |k: int| if k == 0 { u as int * pow2(i0 as nat) as int } else { 0 };
    let g = |k: int| sp(k) + hot(k);
    assert forall|k: int| 0 <= k < w implies #[trigger] f(k) % qi == g(k) % qi by {
        let rk = recompose(sm[i0], k * l, l);
        lemma_encryption_row_block(params, a, u, r, i0, k);
        lemma_recompose_nonnegative(sm[i0], k * l, l);
        lemma_mod_bound(dot(r[i0], column(a, k), a.len() as int), qi);
        assert(rk <= u64::MAX) by {
            assert(i0 < r.len());
            assert(k < a[0].len());
            assert(p[i0][k] as int == dot(r[i0], column(a, k), a.len() as int) % qi);
            assert(p[i0][k] < q);
            if k == 0 {
                assert(v[i0] <= (q as u64) / 2);
                lemma_mul_inequality(u as int, 1, pow2(i0 as nat) as int);
                lemma_mul_basics(pow2(i0 as nat) as int);
                assert(hot(k) <= pow2(i0 as nat));
            } else {
                assert(hot(k) == 0);
            }
        }
        assert(inverse_bit_decomp(sm[i0], l)[k] as int == rk);
        lemma_mod_bound(rk, qi);
        assert(y[k] as int == rk % qi);
        lemma_small_mod(y[k] as nat, pow2(l));
        assert(sb[k] as int * hot(k) == hot(k)) by {
            if k == 0 {
                lemma_mul_basics(hot(k));
            } else {
                lemma_mul_basics(sb[k] as int);
            }
        }
        let z = p[i0][k] as int + hot(k);
        lemma_mul_mod_noop_right(sb[k] as int, rk, qi);
        lemma_mul_mod_noop_right(sb[k] as int, z, qi);
        lemma_mul_is_distributive_add(sb[k] as int, p[i0][k] as int, hot(k));
    }
    lemma_sum_mod(w as int, f, g, qi);
    lemma_sum_add(w as int, sp, hot);
    lemma_sum_ext(w as int, |k: int| sp(k) + hot(k), g);
    assert forall|k: int| 0 <= k < w && k != 0 implies #[trigger] hot(k) == 0 by {}
    lemma_sum_single(w as int, hot, 0);
    // the key relation A * s = e (mod q)
    assert forall|x: int| 0 <= x < a.len() implies #[trigger] dot(a[x], sb, sb.len() as int) % qi
        == e[x] as int % qi by {
        let brow = b[x];
        crate::arith::lemma_dot_monotone(brow, t, 0, n as int);
        lemma_key_row(brow, t, e[x], q as u64);
    }
    lemma_row_times_key(r[i0], a, sb, e, q);
    lemma_sum_ext(
        w as int,
        sp,
        |k: int| sb[k] as int * ((dot(r[i0], column(a, k), a.len() as int) % qi) as u64) as int,
    );
    let eta = decryption_noise(r, e, i0);
    lemma_sum_ext(m as int, |x: int| r[i0][x] as int * e[x] as int, |k: int| r[i0][k] as int * e[k] as int);
    // combine
    let dt = dot(c[i0], v, v.len() as int);
    let spsum = sum(w as int, sp);
    assert(dt % qi == (spsum + u as int * pow2(i0 as nat) as int) % qi);
    lemma_add_mod_noop(spsum, u as int * pow2(i0 as nat) as int, qi);
    lemma_add_mod_noop(eta, u as int * pow2(i0 as nat) as int, qi);
    assert(dt % qi == (u as int * v[i0] as int + eta) % qi);
    lemma_decide_correct(u, v[i0], eta, q as u64);
}

/// Decryption correctness under the error bound of the parameters: when every error
/// coefficient lies in `[-B, B]` (all zero for `B <= 0`) and `2 * m * B <= q / 4`, the
/// noise of every row is small enough, so a bit encrypted under `A = [B*t + e | B]` with
/// any binary `R` decrypts to itself under `v = Powersof2(1, -t)`, for every `q >= 2`.
pub proof fn lemma_decrypt_encrypt_bounded_error(
    params: GswParameters,
    t: Seq<u64>,
    b: Seq<Seq<u64>>,
    e: Seq<i64>,
    r: Seq<Seq<u64>>,
    u: u8,
)
    requires
        params.wf(),
        params.q_spec() >= 2,
        params.q_spec() + params.q_spec() / 2 <= 0x1_0000_0000_0000_0000,
        params.m_spec() >= 1,
        is_private_vector(t, params.n_spec(), params.q_spec()),
        is_sample_matrix(b, params.m_spec(), params.n_spec(), params.q_spec()),
        bounded_error_vector(e, params.b_spec(), params.m_spec()),
        2 * params.m_spec() * (if params.b_spec() > 0 {
            params.b_spec() as int
        } else {
            0
        }) <= params.q_spec() / 4,
        is_binary_matrix(r, params.big_n_spec(), params.m_spec()),
        u <= 1,
    ensures
        encryption_inputs_ok(params, public_key_matrix(params, b, t, e)),
        decryption_inputs_ok(
            params,
            encryption(params, public_key_matrix(params, b, t, e), u, r),
            secret_key_vector(params, t),
        ),
        decryption(
            params,
            encryption(params, public_key_matrix(params, b, t, e), u, r),
            secret_key_vector(params, t),
        ) == u,
{
    params.lemma_field_ranges();
    lemma_decryption_coefficient(params, t);
    let v = secret_key_vector(params, t);
    let i0 = decryption_index(params, v);
    let m = params.m_spec() as int;
    let bb: int = if params.b_spec() > 0 {
        params.b_spec() as int
    } else {
        0
    };
    let nn = params.big_n_spec();
    lemma_mul_inequality(1, (params.n_spec() + 1) as int, params.l_spec() as int);
    assert(i0 < nn);
    let f = |k: int| r[i0][k] as int * e[k] as int;
    assert forall|k: int| 0 <= k < m implies -bb <= #[trigger] f(k) <= bb by {
        assert(r[i0][k] <= 1);
        if r[i0][k] == 0 {
            lemma_mul_basics(e[k] as int);
        } else {
            lemma_mul_basics(e[k] as int);
        }
    }
    crate::arith::lemma_sum_between(m, f, -bb, bb);
    lemma_sum_ext(m, |k: int| r[i0][k] as int * e[k] as int, f);
    assert(m * bb >= 0) by {
        lemma_mul_nonnegative(m, bb);
    }
    lemma_mul_unary_negation(m, bb);
    let eta = decryption_noise(r, e, i0);
    assert(-(m * bb) <= eta <= m * bb);
    assert(2 * m * bb == 2 * (m * bb)) by {
        lemma_mul_is_associative(2, m, bb);
    }
    let q = params.q_spec();
    assert((q as u64) / 4 == q / 4);
    assert(v[i0] > q / 4);
    assert(2 * abs(eta) < pow2(i0 as nat));
    lemma_decrypt_encrypt(params, t, b, e, r, u);
}

/// `BitDecomp^{-1}` undoes `BitDecomp`: for coefficients below `2^l` (`0 < l <= 64`),
/// recomposing the bit decomposition gives the vector back.
pub proof fn lemma_inverse_bit_decomp_undoes_bit_decomp(a: Seq<u64>, l: nat)
    requires
        0 < l <= 64,
        forall|k: int| 0 <= k < a.len() ==> #[trigger] a[k] < pow2(l),
    ensures
        inverse_bit_decomp(bit_decomp_row(a, l), l) == a,
{
    let bd = bit_decomp_row(a, l);
    let inv = inverse_bit_decomp(bd, l);
    lemma_div_multiples_vanish(a.len() as int, l as int);
    lemma_mul_is_commutative(a.len() as int, l as int);
    assert forall|k: int| 0 <= k < a.len() implies #[trigger] inv[k] == a[k] by {
        let bits = |j: int| bit_at(a[k] as nat, j as nat) as int * pow2(j as nat) as int;
        assert forall|j: int| 0 <= j < l implies #[trigger] recompose_terms(bd, k * l)(j) == bits(j) by {
            lemma_index_split(k, j, l as int);
            lemma_block_index_bound(k, j, l as int, a.len() as int);
            lemma_mod_bound((a[k] as nat / pow2(j as nat)) as int, 2);
        }
        lemma_sum_ext(l as int, recompose_terms(bd, k * l), bits);
        lemma_bits_recompose(a[k] as nat, l);
        lemma_small_mod(a[k] as nat, pow2(l));
    }
    assert(inv =~= a);
}

/// `<BitDecomp(a), Powersof2(s)> == <a, s> (mod q)` for coefficients of `a` below `2^l`.
pub proof fn lemma_bit_decomp_powers_inner_product(a: Seq<u64>, s: Seq<u64>, l: nat, q: nat)
    requires
        0 < q < 0x1_0000_0000_0000_0000,
        a.len() == s.len(),
        l > 0,
        forall|k: int| 0 <= k < a.len() ==> #[trigger] a[k] < pow2(l),
    ensures
        dot(bit_decomp_row(a, l), powers_of_two(s, l, q), (a.len() * l) as int) % q as int == dot(
            a,
            s,
            a.len() as int,
        ) % q as int,
{
    lemma_bit_decomp_powers_dot(a, s, l, q);
    assert forall|k: int| 0 <= k < a.len() implies #[trigger] (s[k] as int * (a[k] as nat % pow2(l)) as int)
        == a[k] as int * s[k] as int by {
        lemma_small_mod(a[k] as nat, pow2(l));
        lemma_mul_is_commutative(s[k] as int, a[k] as int);
    }
    lemma_sum_ext(
        a.len() as int,
        |k: int| s[k] as int * (a[k] as nat % pow2(l)) as int,
        |k: int| a[k] as int * s[k] as int,
    );
}

/// One block of `l` coefficients against `Powersof2(s)` is `s` times the block's
/// recomposition, modulo `q`.
pub proof fn lemma_block_powers(x: Seq<u64>, start: int, s: u64, l: nat, q: nat)
    requires
        0 < q < 0x1_0000_0000_0000_0000,
    ensures
        sum(l as int, |j: int| x[start + j] as int * power_entry(s, j as nat, q) as int) % q as int
            == (s as int * recompose(x, start, l)) % q as int,
{
    let f = |j: int| x[start + j] as int * power_entry(s, j as nat, q) as int;
    let terms = recompose_terms(x, start);
    let g = |j: int| s as int * terms(j);
    assert forall|j: int| 0 <= j < l implies #[trigger] f(j) % q as int == g(j) % q as int by {
        let c = x[start + j] as int;
        let pe = power_entry(s, j as nat, q) as int;
        let p = pow2(j as nat) as int;
        lemma_power_entry_mod(s, j as nat, q);
        lemma_mul_mod_noop_right(c, pe, q as int);
        lemma_mul_mod_noop_right(c, s as int * p, q as int);
        lemma_mul_is_associative(c, s as int, p);
        lemma_mul_is_commutative(c, s as int);
        lemma_mul_is_associative(s as int, c, p);
    }
    lemma_sum_mod(l as int, f, g, q as int);
    lemma_sum_scale(l as int, terms, s as int);
    lemma_sum_ext(l as int, |j: int| s as int * terms(j), g);
}

/// A recomposition of `u64` coefficients is never negative.
proof fn lemma_recompose_nonnegative(x: Seq<u64>, start: int, l: nat)
    ensures
        recompose(x, start, l) >= 0,
{
    let terms = recompose_terms(x, start);
    assert forall|j: int| 0 <= j < l implies #[trigger] terms(j) >= 0 by {
        lemma_mul_nonnegative(x[start + j] as int, pow2(j as nat) as int);
    }
    crate::arith::lemma_sum_monotone(0, l as int, terms);
}

/// `Flatten` over `Z_q` keeps inner products with a `Powersof2` vector: for a row `x`
/// of `w` blocks of `l` coefficients, each block recomposing to at most 64 bits, and
/// `q <= 2^l`, `<Flatten(x), Powersof2(s)> == <x, Powersof2(s)> (mod q)`.
pub proof fn lemma_flatten_keeps_inner_product(x: Seq<u64>, s: Seq<u64>, l: nat, q: nat)
    requires
        0 < q < 0x1_0000_0000_0000_0000,
        0 < l <= 64,
        q <= pow2(l),
        x.len() == s.len() * l,
        forall|k: int| 0 <= k < s.len() ==> #[trigger] recompose(x, k * l, l) <= u64::MAX,
    ensures
        dot(
            bit_decomp_row(reduce_row(inverse_bit_decomp(x, l), q), l),
            powers_of_two(s, l, q),
            x.len() as int,
        ) % q as int == dot(x, powers_of_two(s, l, q), x.len() as int) % q as int,
{
    let w = s.len() as int;
    let y = reduce_row(inverse_bit_decomp(x, l), q);
    let v = powers_of_two(s, l, q);
    let qi = q as int;
    lemma_div_multiples_vanish(w, l as int);
    lemma_mul_is_commutative(w, l as int);
    assert(y.len() == w);
    lemma_bit_decomp_powers_dot(y, s, l, q);
    let lhs_terms = |k: int| s[k] as int * (y[k] as nat % pow2(l)) as int;
    let reduced = |k: int| s[k] as int * (recompose(x, k * l, l) % qi);
    let keyed = |k: int| s[k] as int * recompose(x, k * l, l);
    assert forall|k: int| 0 <= k < w implies #[trigger] lhs_terms(k) == reduced(k) by {
        lemma_recompose_nonnegative(x, k * l, l);
        lemma_mod_bound(recompose(x, k * l, l), qi);
        assert(inverse_bit_decomp(x, l)[k] as int == recompose(x, k * l, l));
        assert(y[k] as int == recompose(x, k * l, l) % qi);
        lemma_small_mod(y[k] as nat, pow2(l));
    }
    lemma_sum_ext(w, lhs_terms, reduced);
    assert forall|k: int| 0 <= k < w implies #[trigger] reduced(k) % qi == keyed(k) % qi by {
        lemma_mul_mod_noop_right(s[k] as int, recompose(x, k * l, l), qi);
    }
    lemma_sum_mod(w, reduced, keyed, qi);
    let h = |c: int| x[c] as int * v[c] as int;
    lemma_sum_blocks(w, l as int, h);
    let blocks = |k: int| sum(l as int, |j: int| h(k * l + j));
    let inner = |k: int| sum(l as int, |j: int| x[k * l + j] as int * power_entry(s[k], j as nat, q) as int);
    assert forall|k: int| 0 <= k < w implies #[trigger] blocks(k) == inner(k) by {
        assert forall|j: int| 0 <= j < l implies #[trigger] h(k * l + j) == x[k * l + j] as int
            * power_entry(s[k], j as nat, q) as int by {
            lemma_index_split(k, j, l as int);
            lemma_block_index_bound(k, j, l as int, w);
        }
        lemma_sum_ext(
            l as int,
            |j: int| h(k * l + j),
            |j: int| x[k * l + j] as int * power_entry(s[k], j as nat, q) as int,
        );
    }
    lemma_sum_ext(w, blocks, inner);
    assert forall|k: int| 0 <= k < w implies #[trigger] inner(k) % qi == keyed(k) % qi by {
        lemma_block_powers(x, k * l, s[k], l, q);
        lemma_sum_ext(
            l as int,
            |j: int| x[k * l + j] as int * power_entry(s[k], j as nat, q) as int,
            |j: int| x[k * l + j] as int * power_entry(s[k], j as nat, q) as int,
        );
    }
    lemma_sum_mod(w, inner, keyed, qi);
}

/// `Flatten` over `Z_q` gives a `{0, 1}` matrix with as many rows as its input, and
/// applying it twice is applying it once (for `q <= 2^l`).
pub proof fn lemma_flatten_idempotent(m: Seq<Seq<u64>>, l: nat, q: nat)
    requires
        0 < l <= 64,
        0 < q < 0x1_0000_0000_0000_0000,
        q <= pow2(l),
    ensures
        flatten_spec(m, l, q).len() == m.len(),
        forall|i: int|
            0 <= i < m.len() ==> (#[trigger] flatten_spec(m, l, q)[i]).len() == (m[i].len() / l) * l,
        forall|i: int, c: int|
            0 <= i < m.len() && 0 <= c < flatten_spec(m, l, q)[i].len() ==> #[trigger] flatten_spec(
                m,
                l,
                q,
            )[i][c] <= 1,
        flatten_spec(flatten_spec(m, l, q), l, q) == flatten_spec(m, l, q),
{
    let f = flatten_spec(m, l, q);
    let ff = flatten_spec(f, l, q);
    assert forall|i: int, c: int| 0 <= i < m.len() && 0 <= c < f[i].len() implies #[trigger] f[i][c]
        <= 1 by {
        let y = reduce_row(inverse_bit_decomp(m[i], l), q);
        lemma_mod_bound((y[c / l as int] as nat / pow2((c % l as int) as nat)) as int, 2);
    }
    assert forall|i: int| 0 <= i < m.len() implies #[trigger] ff[i] == f[i] by {
        let y = reduce_row(inverse_bit_decomp(m[i], l), q);
        assert forall|k: int| 0 <= k < y.len() implies #[trigger] y[k] < q by {
            lemma_mod_bound(inverse_bit_decomp(m[i], l)[k] as int, q as int);
        }
        lemma_inverse_bit_decomp_undoes_bit_decomp(y, l);
        assert forall|k: int| 0 <= k < y.len() implies #[trigger] reduce_row(y, q)[k] == y[k] by {
            lemma_small_mod(y[k] as nat, q);
        }
        assert(reduce_row(y, q) =~= y);
    }
    assert(ff =~= f);
}

/// Every coefficient of a GSW ciphertext is a bit: `Flatten` outputs a `{0, 1}` matrix.
pub proof fn lemma_encryption_is_binary(
    params: GswParameters,
    a: Seq<Seq<u64>>,
    u: u8,
    r: Seq<Seq<u64>>,
)
    ensures
        forall|i: int, c: int|
            0 <= i < encryption(params, a, u, r).len() && 0 <= c < encryption(
                params,
                a,
                u,
                r,
            )[i].len() ==> #[trigger] encryption(params, a, u, r)[i][c] <= 1,
{
    let ct = encryption(params, a, u, r);
    let l = params.l_spec();
    assert forall|i: int, c: int| 0 <= i < ct.len() && 0 <= c < ct[i].len() implies #[trigger] ct[i][c]
        <= 1 by {
        let y = reduce_row(inverse_bit_decomp(encryption_sum(params, a, u, r)[i], l), params.q_spec());
        lemma_mod_bound((y[c / l as int] as nat / pow2((c % l as int) as nat)) as int, 2);
    }
}

/// The public key annihilates the secret up to the error: for
/// `A = [B*t + e | B]` and `s = (1, -t)`, `<A_r, s> == e_r (mod q)` for every row `r`.
pub proof fn lemma_public_key_times_secret(
    params: GswParameters,
    t: Seq<u64>,
    b: Seq<Seq<u64>>,
    e: Seq<i64>,
)
    requires
        params.q_spec() > 0,
        is_private_vector(t, params.n_spec(), params.q_spec()),
        is_sample_matrix(b, params.m_spec(), params.n_spec(), params.q_spec()),
        e.len() == params.m_spec(),
    ensures
        forall|x: int|
            0 <= x < params.m_spec() ==> #[trigger] dot(
                public_key_matrix(params, b, t, e)[x],
                secret_base(t, params.q_spec() as u64),
                params.n_spec() + 1int,
            ) % params.q_spec() as int == e[x] as int % params.q_spec() as int,
{
    params.lemma_field_ranges();
    let q = params.q_spec();
    let n = params.n_spec();
    let a = public_key_matrix(params, b, t, e);
    assert forall|x: int| 0 <= x < params.m_spec() implies #[trigger] dot(
        a[x],
        secret_base(t, q as u64),
        n + 1int,
    ) % q as int == e[x] as int % q as int by {
        let brow = b[x];
        crate::arith::lemma_dot_monotone(brow, t, 0, n as int);
        lemma_key_row(brow, t, e[x], q as u64);
    }
}

/// What `generate_key_pair` and `encrypt_bit` promise is enough for decryption: when the
/// key pair `(sk, pk)` comes from some private vector, samples and bounded errors as
/// `generate_key_pair` draws them, and `ct` is an encryption of `u` under `pk` with some
/// binary `R` as `encrypt_bit` draws it, then `decrypt_bit` may be called and returns `u`,
/// for every `q >= 2` with `2 * m * B <= q / 4`.
pub proof fn lemma_generated_ciphertext_decrypts(
    params: GswParameters,
    sk: Seq<u64>,
    pk: Seq<Seq<u64>>,
    ct: Seq<Seq<u64>>,
    u: u8,
)
    requires
        params.wf(),
        params.q_spec() >= 2,
        params.q_spec() + params.q_spec() / 2 <= 0x1_0000_0000_0000_0000,
        params.m_spec() >= 1,
        2 * params.m_spec() * (if params.b_spec() > 0 {
            params.b_spec() as int
        } else {
            0
        }) <= params.q_spec() / 4,
        u <= 1,
        exists|t: Seq<u64>, b: Seq<Seq<u64>>, e: Seq<i64>|
            {
                &&& is_private_vector(t, params.n_spec(), params.q_spec())
                &&& is_sample_matrix(b, params.m_spec(), params.n_spec(), params.q_spec())
                &&& bounded_error_vector(e, params.b_spec(), params.m_spec())
                &&& sk == secret_key_vector(params, t)
                &&& pk == public_key_matrix(params, b, t, e)
            },
        exists|r: Seq<Seq<u64>>|
            {
                &&& is_binary_matrix(r, params.big_n_spec(), params.m_spec())
                &&& ct == encryption(params, pk, u, r)
            },
    ensures
        decryption_inputs_ok(params, ct, sk),
        decryption(params, ct, sk) == u,
{
    let (t, b, e) = choose|t: Seq<u64>, b: Seq<Seq<u64>>, e: Seq<i64>|
        {
            &&& is_private_vector(t, params.n_spec(), params.q_spec())
            &&& is_sample_matrix(b, params.m_spec(), params.n_spec(), params.q_spec())
            &&& bounded_error_vector(e, params.b_spec(), params.m_spec())
            &&& sk == secret_key_vector(params, t)
            &&& pk == public_key_matrix(params, b, t, e)
        };
    let r = choose|r: Seq<Seq<u64>>|
        {
            &&& is_binary_matrix(r, params.big_n_spec(), params.m_spec())
            &&& ct == encryption(params, pk, u, r)
        };
    lemma_decrypt_encrypt_bounded_error(params, t, b, e, r, u);
}

/// Every row of a GSW ciphertext carries the message: for any `s` of length `n + 1`
/// and `P = Powersof2(s)`, row `i` of `C = Flatten(u * I_N + BitDecomp(R * A))` satisfies
/// `<C_i, P> == u * P_i + sum_x R_i[x] * <A_x, s> (mod q)` for every `i < N`, that is
/// `C * P == u * P + R * (A * s) (mod q)`. (The recomposed coefficients fit 64 bits as
/// long as `2q <= 2^64`.)
pub proof fn lemma_encryption_times_powers(
    params: GswParameters,
    a: Seq<Seq<u64>>,
    u: u8,
    r: Seq<Seq<u64>>,
    s: Seq<u64>,
    i: int,
)
    requires
        params.wf(),
        params.q_spec() >= 1,
        2 * params.q_spec() <= 0x1_0000_0000_0000_0000,
        params.m_spec() >= 1,
        a.len() == params.m_spec(),
        forall|x: int| 0 <= x < a.len() ==> (#[trigger] a[x]).len() == params.n_spec() + 1,
        r.len() == params.big_n_spec(),
        forall|x: int| 0 <= x < r.len() ==> (#[trigger] r[x]).len() == params.m_spec(),
        s.len() == params.n_spec() + 1,
        u <= 1,
        0 <= i < params.big_n_spec(),
    ensures
        dot(
            encryption(params, a, u, r)[i],
            powers_of_two(s, params.l_spec(), params.q_spec()),
            params.big_n_spec() as int,
        ) % params.q_spec() as int == (u as int * powers_of_two(
            s,
            params.l_spec(),
            params.q_spec(),
        )[i] as int + sum(
            params.m_spec() as int,
            |x: int| r[i][x] as int * dot(a[x], s, s.len() as int),
        )) % params.q_spec() as int,
{
    params.lemma_field_ranges();
    let q = params.q_spec();
    let qi = q as int;
    let l = params.l_spec();
    let li = l as int;
    let n = params.n_spec();
    let nn = params.big_n_spec();
    let w = n + 1;
    lemma_decomposition_length_range(q);
    lemma2_to64_rest();
    lemma_decomposition_length_bound(q, 64);
    assert(nn == w * l);
    lemma_mul_inequality(1, w as int, li);
    lemma_div_multiples_vanish(w as int, li);
    lemma_mul_is_commutative(w as int, li);
    let sm = encryption_sum(params, a, u, r);
    let c = encryption(params, a, u, r);
    let pw = powers_of_two(s, l, q);
    let y = reduce_row(inverse_bit_decomp(sm[i], l), q);
    assert(sm[i].len() == nn);
    assert(y.len() == w);
    assert(c[i] == bit_decomp_row(y, l));
    lemma_bit_decomp_powers_dot(y, s, l, q);
    // where the message sits: block `i / l`, bit `i mod l`
    lemma_fundamental_div_mod(i, li);
    lemma_mod_bound(i, li);
    lemma_mul_is_commutative(li, i / li);
    let kk = i / li;
    let jj = i % li;
    assert(0 <= kk < w) by {
        lemma_div_pos_is_pos(i, li);
        lemma_div_is_ordered(i, nn as int - 1, li);
        assert((w - 1) * li + (li - 1) == nn as int - 1) by (nonlinear_arith)
            requires
                nn == w * l,
                li == l,
        ;
        lemma_fundamental_div_mod_converse(nn as int - 1, li, w as int - 1, li - 1);
    }
    if jj < l - 1 {
        lemma_pow2_strictly_increases(jj as nat, (l - 1) as nat);
    }
    let p = mat_mul_mod(r, a, q);
    let f = |k: int| s[k] as int * (y[k] as nat % pow2(l)) as int;
    let sp = |k: int| s[k] as int * p[i][k] as int;
    let hot = |k: int| if k == kk { u as int * pow2(jj as nat) as int } else { 0 };
    let hs = |k: int| s[k] as int * hot(k);
    let g = |k: int| sp(k) + hs(k);
    assert forall|k: int| 0 <= k < w implies #[trigger] f(k) % qi == g(k) % qi by {
        let rk = recompose(sm[i], k * l, l);
        lemma_encryption_block(params, a, u, r, i, k);
        lemma_recompose_nonnegative(sm[i], k * l, l);
        lemma_mod_bound(dot(r[i], column(a, k), a.len() as int), qi);
        assert(p[i][k] < q);
        assert(hot(k) <= pow2((l - 1) as nat)) by {
            if k == kk {
                lemma_mul_inequality(u as int, 1, pow2(jj as nat) as int);
                lemma_mul_basics(pow2(jj as nat) as int);
            }
        }
        assert(rk <= u64::MAX);
        assert(inverse_bit_decomp(sm[i], l)[k] as int == rk);
        lemma_mod_bound(rk, qi);
        assert(y[k] as int == rk % qi);
        lemma_small_mod(y[k] as nat, pow2(l));
        let z = p[i][k] as int + hot(k);
        lemma_mul_mod_noop_right(s[k] as int, rk, qi);
        lemma_mul_mod_noop_right(s[k] as int, z, qi);
        lemma_mul_is_distributive_add(s[k] as int, p[i][k] as int, hot(k));
    }
    lemma_sum_mod(w as int, f, g, qi);
    lemma_sum_add(w as int, sp, hs);
    lemma_sum_ext(w as int, |k: int| sp(k) + hs(k), g);
    assert forall|k: int| 0 <= k < w && k != kk implies #[trigger] hs(k) == 0 by {
        lemma_mul_basics(s[k] as int);
    }
    lemma_sum_single(w as int, hs, kk);
    // the message term: s[i / l] * u * 2^(i mod l) == u * P_i (mod q)
    let pj = pow2(jj as nat) as int;
    let sk = s[kk] as int;
    lemma_power_entry_mod(s[kk], jj as nat, q);
    assert(pw[i] == power_entry(s[kk], jj as nat, q));
    lemma_mul_mod_noop_right(u as int, pw[i] as int, qi);
    lemma_mul_mod_noop_right(u as int, sk * pj, qi);
    assert(hs(kk) == u as int * (sk * pj)) by {
        lemma_mul_is_associative(sk, u as int, pj);
        lemma_mul_is_commutative(sk, u as int);
        lemma_mul_is_associative(u as int, sk, pj);
    }
    // the samples term
    lemma_row_times_matrix(r[i], a, s, q);
    lemma_sum_ext(
        w as int,
        sp,
        |k: int| s[k] as int * ((dot(r[i], column(a, k), a.len() as int) % qi) as u64) as int,
    );
    // combine
    let dt = dot(c[i], pw, nn as int);
    let spsum = sum(w as int, sp);
    let noise = sum(a.len() as int, |x: int| r[i][x] as int * dot(a[x], s, s.len() as int));
    assert(dt % qi == (spsum + hs(kk)) % qi);
    lemma_add_mod_noop(spsum, hs(kk), qi);
    lemma_add_mod_noop(noise, u as int * pw[i] as int, qi);
    lemma_add_mod_noop(noise, hs(kk), qi);
}

/// Under a public key `A = [B*t + e | B]` and the secret key `v = Powersof2(1, -t)`, every
/// row of a ciphertext satisfies `<C_i, v> == u * v_i + <R_i, e> (mod q)` for `i < N`,
/// that is `C * v == u * v + R * e (mod q)`.
pub proof fn lemma_ciphertext_times_secret_key(
    params: GswParameters,
    t: Seq<u64>,
    b: Seq<Seq<u64>>,
    e: Seq<i64>,
    r: Seq<Seq<u64>>,
    u: u8,
    i: int,
)
    requires
        params.wf(),
        params.q_spec() >= 1,
        2 * params.q_spec() <= 0x1_0000_0000_0000_0000,
        params.m_spec() >= 1,
        is_private_vector(t, params.n_spec(), params.q_spec()),
        is_sample_matrix(b, params.m_spec(), params.n_spec(), params.q_spec()),
        e.len() == params.m_spec(),
        r.len() == params.big_n_spec(),
        forall|x: int| 0 <= x < r.len() ==> (#[trigger] r[x]).len() == params.m_spec(),
        u <= 1,
        0 <= i < params.big_n_spec(),
    ensures
        dot(
            encryption(params, public_key_matrix(params, b, t, e), u, r)[i],
            secret_key_vector(params, t),
            params.big_n_spec() as int,
        ) % params.q_spec() as int == (u as int * secret_key_vector(params, t)[i] as int
            + decryption_noise(r, e, i)) % params.q_spec() as int,
{
    params.lemma_field_ranges();
    let q = params.q_spec();
    let qi = q as int;
    let n = params.n_spec();
    let m = params.m_spec() as int;
    let a = public_key_matrix(params, b, t, e);
    let sb = secret_base(t, q as u64);
    assert forall|x: int| 0 <= x < a.len() implies (#[trigger] a[x]).len() == n + 1 by {}
    lemma_encryption_times_powers(params, a, u, r, sb, i);
    lemma_public_key_times_secret(params, t, b, e);
    let keyed = |x: int| r[i][x] as int * dot(a[x], sb, sb.len() as int);
    let noise = |x: int| r[i][x] as int * e[x] as int;
    assert forall|x: int| 0 <= x < m implies #[trigger] keyed(x) % qi == noise(x) % qi by {
        assert(dot(a[x], sb, n + 1int) % qi == e[x] as int % qi);
        lemma_mul_mod_noop_right(r[i][x] as int, dot(a[x], sb, sb.len() as int), qi);
        lemma_mul_mod_noop_right(r[i][x] as int, e[x] as int, qi);
    }
    lemma_sum_mod(m, keyed, noise, qi);
    lemma_sum_ext(m, |x: int| r[i][x] as int * dot(a[x], sb, sb.len() as int), keyed);
    lemma_sum_ext(m, noise, |k: int| r[i][k] as int * e[k] as int);
    let v = secret_key_vector(params, t);
    let msg = u as int * v[i] as int;
    lemma_add_mod_noop(msg, sum(m, keyed), qi);
    lemma_add_mod_noop(msg, sum(m, noise), qi);
}

} // verus!
