//! Products of polynomials modulo `X^N + 1`, over entries that are any integers.
//!
//! A list of polynomials is given by a function from the index `p * N + t` to the
//! coefficient `t` of the polynomial `p`; a key is a sequence in the same layout. The phase
//! of a list of `k + 1` polynomials under a key of `k` polynomials is the last polynomial
//! minus the sum of the products of the first `k` with the key's. The phase is linear in the
//! entries, respects congruence, and turns a multiplication of the entries by `X^j` into a
//! multiplication of the phase by `X^j`.

use crate::glwe::{
    glwe_phase, lemma_poly_index, mask_key_product, negacyclic_term, negacyclic_terms,
};
use crate::modulus::CiphertextModulus;
use crate::sums::{
    lemma_sum_congruent, lemma_sum_linear, lemma_sum_scaled_shift, lemma_sum_split,
    lemma_sum_zero, sum_over,
};
use vstd::arithmetic::div_mod::*;
use vstd::arithmetic::mul::*;
use vstd::prelude::*;

verus! {

/// The entries of a ciphertext as integers.
pub open spec fn entries(data: Seq<u64>) -> spec_fn(int) -> int {
    |f: int| data[f] as int
}

/// What `e(offset + u) * X^u` times the key polynomial at `offset` adds to the
/// coefficient `t` of their product modulo `X^N + 1`.
pub open spec fn ring_term(
    e: spec_fn(int) -> int,
    s: Seq<u64>,
    offset: int,
    size: int,
    t: int,
    u: int,
) -> int {
    if u <= t {
        e(offset + u) * s[offset + t - u]
    } else {
        -(e(offset + u) * s[offset + size + t - u])
    }
}

/// The terms of the coefficient `t` of one product, as a function of `u`.
pub open spec fn ring_terms(e: spec_fn(int) -> int, s: Seq<u64>, offset: int, size: int, t: int)
    -> spec_fn(int) -> int {
    |u: int| ring_term(e, s, offset, size, t, u)
}

/// The coefficient `t` of the product of the polynomial of `e` at `offset` with the
/// key polynomial at `offset`.
pub open spec fn polynomial_product(
    e: spec_fn(int) -> int,
    s: Seq<u64>,
    offset: int,
    size: int,
    t: int,
) -> int {
    sum_over(ring_terms(e, s, offset, size, t), 0, size)
}

/// The coefficient `t` of each polynomial's product with its key polynomial, as a
/// function of the polynomial's index.
pub open spec fn polynomial_products(e: spec_fn(int) -> int, s: Seq<u64>, size: int, t: int)
    -> spec_fn(int) -> int {
    |p: int| polynomial_product(e, s, p * size, size, t)
}

/// The coefficient `t` of the sum of the products of the first `k` polynomials with
/// the key's.
pub open spec fn ring_product(e: spec_fn(int) -> int, s: Seq<u64>, size: int, t: int, k: nat)
    -> int {
    sum_over(polynomial_products(e, s, size, t), 0, k as int)
}

/// The coefficient `t` of the phase: the polynomial `k` minus the products.
pub open spec fn ring_phase(e: spec_fn(int) -> int, s: Seq<u64>, k: nat, size: int, t: int)
    -> int {
    e(k * size + t) - ring_product(e, s, size, t, k)
}

/// The entries multiplied by `X^j`: in each polynomial the coefficients move up by
/// `j`, and those that pass the degree `N` come back negated.
pub open spec fn rotated(e: spec_fn(int) -> int, size: int, j: int) -> spec_fn(int) -> int {
    |f: int|
        if f % size >= j {
            e(f - j)
        } else {
            -e(f + size - j)
        }
}

/// The coefficient that `X^j` moves to `t`.
pub open spec fn rotation_source(size: int, j: int, t: int) -> int {
    if t >= j {
        t - j
    } else {
        t + size - j
    }
}

/// The sign with which it arrives: minus when it passed the degree.
pub open spec fn rotation_sign(j: int, t: int) -> int {
    if t >= j {
        1
    } else {
        -1
    }
}

/// The terms of a ciphertext's mask-key product are the ring terms of its entries.
proof fn lemma_terms_of_entries(a: Seq<u64>, s: Seq<u64>, offset: int, size: int, t: int, n: nat)
    ensures
        negacyclic_terms(a, s, offset, size, t, n) == sum_over(
            ring_terms(entries(a), s, offset, size, t),
            0,
            n as int,
        ),
    decreases n,
{
    if n > 0 {
        lemma_terms_of_entries(a, s, offset, size, t, (n - 1) as nat);
        assert(ring_terms(entries(a), s, offset, size, t)(n - 1) == negacyclic_term(
            a,
            s,
            offset,
            size,
            t,
            n - 1,
        ));
    }
}

/// A ciphertext's mask-key product is the ring product of its entries.
pub proof fn lemma_product_of_entries(a: Seq<u64>, s: Seq<u64>, size: int, t: int, k: nat)
    requires
        size >= 0,
    ensures
        mask_key_product(a, s, size, t, k) == ring_product(entries(a), s, size, t, k),
    decreases k,
{
    if k > 0 {
        lemma_product_of_entries(a, s, size, t, (k - 1) as nat);
        lemma_terms_of_entries(a, s, (k - 1) * size, size, t, size as nat);
        assert(polynomial_products(entries(a), s, size, t)(k - 1) == polynomial_product(
            entries(a),
            s,
            (k - 1) * size,
            size,
            t,
        ));
    }
}

/// A ciphertext's phase is the residue of the ring phase of its entries.
pub proof fn lemma_phase_of_entries(
    data: Seq<u64>,
    key: Seq<u64>,
    k: nat,
    size: int,
    t: int,
    modulus: CiphertextModulus,
)
    requires
        size >= 0,
    ensures
        glwe_phase(data, key, k, size, t, modulus) == ring_phase(entries(data), key, k, size, t)
            % (modulus.value() as int),
{
    lemma_product_of_entries(data, key, size, t, k);
}

/// The phase is linear: where the entries are `first` plus `d` times `second`, so is
/// the phase.
pub proof fn lemma_phase_linear(
    e: spec_fn(int) -> int,
    first: spec_fn(int) -> int,
    second: spec_fn(int) -> int,
    d: int,
    s: Seq<u64>,
    k: nat,
    size: int,
    t: int,
)
    requires
        0 <= t < size,
        forall|f: int| 0 <= f < (k + 1) * size ==> #[trigger] e(f) == first(f) + d * second(f),
    ensures
        ring_phase(e, s, k, size, t) == ring_phase(first, s, k, size, t) + d * ring_phase(
            second,
            s,
            k,
            size,
            t,
        ),
{
    let outer = polynomial_products(e, s, size, t);
    let outer_first = polynomial_products(first, s, size, t);
    let outer_second = polynomial_products(second, s, size, t);
    assert forall|p: int| 0 <= p < k implies #[trigger] outer(p) == outer_first(p) + d
        * outer_second(p + 0) by {
        let offset = p * size;
        let inner = ring_terms(e, s, offset, size, t);
        let inner_first = ring_terms(first, s, offset, size, t);
        let inner_second = ring_terms(second, s, offset, size, t);
        assert forall|u: int| 0 <= u < size implies #[trigger] inner(u) == inner_first(u) + d
            * inner_second(u + 0) by {
            lemma_poly_index(p, u, (k + 1) as int, size);
            let x = e(offset + u);
            let x1 = first(offset + u);
            let x2 = second(offset + u);
            assert(x == x1 + d * x2);
            if u <= t {
                let y = s[offset + t - u] as int;
                assert((x1 + d * x2) * y == x1 * y + d * (x2 * y)) by (nonlinear_arith);
            } else {
                let y = s[offset + size + t - u] as int;
                assert(-((x1 + d * x2) * y) == -(x1 * y) + d * (-(x2 * y))) by (nonlinear_arith);
            }
        }
        lemma_sum_linear(inner, inner_first, inner_second, 0, size, 0, d);
    }
    lemma_sum_linear(outer, outer_first, outer_second, 0, k as int, 0, d);
    lemma_poly_index(k as int, t, (k + 1) as int, size);
    let product = ring_product(second, s, size, t, k);
    let body = second(k * size + t);
    assert(d * body - d * product == d * (body - product)) by (nonlinear_arith);
}

/// The phase respects congruence: entries that are congruent give congruent phases.
pub proof fn lemma_phase_congruent(
    first: spec_fn(int) -> int,
    second: spec_fn(int) -> int,
    s: Seq<u64>,
    k: nat,
    size: int,
    t: int,
    m: int,
)
    requires
        m > 0,
        0 <= t < size,
        forall|f: int| 0 <= f < (k + 1) * size ==> (#[trigger] first(f)) % m == second(f) % m,
    ensures
        ring_phase(first, s, k, size, t) % m == ring_phase(second, s, k, size, t) % m,
{
    let outer_first = polynomial_products(first, s, size, t);
    let outer_second = polynomial_products(second, s, size, t);
    assert forall|p: int| 0 <= p < k implies (#[trigger] outer_first(p)) % m == outer_second(p)
        % m by {
        let offset = p * size;
        let inner_first = ring_terms(first, s, offset, size, t);
        let inner_second = ring_terms(second, s, offset, size, t);
        assert forall|u: int| 0 <= u < size implies (#[trigger] inner_first(u)) % m
            == inner_second(u) % m by {
            lemma_poly_index(p, u, (k + 1) as int, size);
            let x1 = first(offset + u);
            let x2 = second(offset + u);
            assert(x1 % m == x2 % m);
            if u <= t {
                let y = s[offset + t - u] as int;
                lemma_mul_mod_noop_left(x1, y, m);
                lemma_mul_mod_noop_left(x2, y, m);
            } else {
                let y = s[offset + size + t - u] as int;
                lemma_mul_mod_noop_left(x1, y, m);
                lemma_mul_mod_noop_left(x2, y, m);
                lemma_sub_mod_noop_right(0, x1 * y, m);
                lemma_sub_mod_noop_right(0, x2 * y, m);
            }
        }
        lemma_sum_congruent(inner_first, inner_second, 0, size, m);
    }
    lemma_sum_congruent(outer_first, outer_second, 0, k as int, m);
    lemma_poly_index(k as int, t, (k + 1) as int, size);
    lemma_sub_mod_noop(first(k * size + t), ring_product(first, s, size, t, k), m);
    lemma_sub_mod_noop(second(k * size + t), ring_product(second, s, size, t, k), m);
}

/// Where the mask polynomials are zero the phase is the body.
pub proof fn lemma_phase_mask_zero(
    e: spec_fn(int) -> int,
    s: Seq<u64>,
    k: nat,
    size: int,
    t: int,
)
    requires
        0 <= t < size,
        forall|f: int| 0 <= f < k * size ==> #[trigger] e(f) == 0,
    ensures
        ring_phase(e, s, k, size, t) == e(k * size + t),
{
    let outer = polynomial_products(e, s, size, t);
    assert forall|p: int| 0 <= p < k implies #[trigger] outer(p) == 0 by {
        let offset = p * size;
        let inner = ring_terms(e, s, offset, size, t);
        assert forall|u: int| 0 <= u < size implies #[trigger] inner(u) == 0 by {
            lemma_poly_index(p, u, k as int, size);
            assert(e(offset + u) == 0);
            if u <= t {
                let y = s[offset + t - u] as int;
                assert(0 * y == 0) by (nonlinear_arith);
            } else {
                let y = s[offset + size + t - u] as int;
                assert(-(0 * y) == 0) by (nonlinear_arith);
            }
        }
        lemma_sum_zero(inner, 0, size);
    }
    lemma_sum_zero(outer, 0, k as int);
}

/// `p * size + u` leaves the remainder `u` when `0 <= u < size`.
proof fn lemma_index_remainder(p: int, u: int, size: int)
    requires
        0 <= u < size,
    ensures
        (p * size + u) % size == u,
{
    lemma_mod_multiples_vanish(p, u, size);
    lemma_small_mod(u as nat, size as nat);
    lemma_mul_is_commutative(p, size);
}

/// One polynomial's product after a multiplication by `X^j` is the product before
/// it, multiplied by `X^j`.
proof fn lemma_polynomial_product_rotated(
    e: spec_fn(int) -> int,
    s: Seq<u64>,
    p: int,
    size: int,
    t: int,
    j: int,
)
    requires
        0 <= j < size,
        0 <= t < size,
    ensures
        polynomial_product(rotated(e, size, j), s, p * size, size, t) == rotation_sign(j, t)
            * polynomial_product(e, s, p * size, size, rotation_source(size, j, t)),
{
    let offset = p * size;
    let sign = rotation_sign(j, t);
    let from = rotation_source(size, j, t);
    let moved = ring_terms(rotated(e, size, j), s, offset, size, t);
    let plain = ring_terms(e, s, offset, size, from);
    // the terms at and above j come from the terms below size - j
    assert forall|u: int| j <= u < size implies #[trigger] moved(u) == sign * plain(u + (-j)) by {
        lemma_index_remainder(p, u, size);
        let x = e(offset + u - j);
        assert(rotated(e, size, j)(offset + u) == x);
        if t >= j {
            if u <= t {
                let y = s[offset + t - u] as int;
                assert(x * y == 1 * (x * y)) by (nonlinear_arith);
            } else {
                let y = s[offset + size + t - u] as int;
                assert(-(x * y) == 1 * (-(x * y))) by (nonlinear_arith);
            }
        } else {
            let y = s[offset + size + t - u] as int;
            assert(-(x * y) == (-1) * (x * y)) by (nonlinear_arith);
        }
    }
    lemma_sum_scaled_shift(moved, plain, j, size, -j, sign);
    // the terms below j come from the terms at and above size - j, negated
    assert forall|u: int| 0 <= u < j implies #[trigger] moved(u) == sign * plain(u + (size - j)) by {
        lemma_index_remainder(p, u, size);
        let x = e(offset + u + size - j);
        assert(rotated(e, size, j)(offset + u) == -x);
        if t >= j {
            let y = s[offset + t - u] as int;
            assert((-x) * y == 1 * (-(x * y))) by (nonlinear_arith);
        } else {
            if u <= t {
                let y = s[offset + t - u] as int;
                assert((-x) * y == (-1) * (x * y)) by (nonlinear_arith);
            } else {
                let y = s[offset + size + t - u] as int;
                assert(-((-x) * y) == (-1) * (-(x * y))) by (nonlinear_arith);
            }
        }
    }
    lemma_sum_scaled_shift(moved, plain, 0, j, size - j, sign);
    lemma_sum_split(moved, 0, j, size);
    lemma_sum_split(plain, 0, size - j, size);
    let low = sum_over(plain, 0, size - j);
    let high = sum_over(plain, size - j, size);
    assert(sign * high + sign * low == sign * (low + high)) by (nonlinear_arith);
}

/// The phase after a multiplication of the entries by `X^j` is the phase before
/// it, multiplied by `X^j`.
pub proof fn lemma_phase_rotated(
    e: spec_fn(int) -> int,
    s: Seq<u64>,
    k: nat,
    size: int,
    t: int,
    j: int,
)
    requires
        0 <= j < size,
        0 <= t < size,
    ensures
        ring_phase(rotated(e, size, j), s, k, size, t) == rotation_sign(j, t) * ring_phase(
            e,
            s,
            k,
            size,
            rotation_source(size, j, t),
        ),
{
    let sign = rotation_sign(j, t);
    let from = rotation_source(size, j, t);
    let moved = polynomial_products(rotated(e, size, j), s, size, t);
    let plain = polynomial_products(e, s, size, from);
    assert forall|p: int| 0 <= p < k implies #[trigger] moved(p) == sign * plain(p + 0) by {
        lemma_polynomial_product_rotated(e, s, p, size, t, j);
    }
    lemma_sum_scaled_shift(moved, plain, 0, k as int, 0, sign);
    lemma_index_remainder(k as int, t, size);
    let body = e(k * size + from);
    let product = ring_product(e, s, size, from, k);
    assert(rotated(e, size, j)(k * size + t) == sign * body) by {
        assert(1 * body == body && (-1) * body == -body) by (nonlinear_arith);
    }
    assert(sign * body - sign * product == sign * (body - product)) by (nonlinear_arith);
}

} // verus!
