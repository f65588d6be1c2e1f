//! What a keyswitched ciphertext decrypts to, exactly.
//!
//! Under the destination key the phase of the output is the phase of the input under the
//! source key, minus two noise terms. The first comes from rounding each mask entry to the
//! closest representable value before it is decomposed: the sum over the source coefficients
//! of `s_i * (closest(a_i) - a_i)`. The second comes from the noise of the key's own rows: the
//! sum over the rows of `digit * noise`. Both are sums of small numbers: a rounding moves a
//! value by at most half a step, and a digit lies in `[-B/2, B/2)`.

use crate::decomposition::SignedDecomposer;
use crate::encoding::{
    decoded, encoded, lemma_decode_recovers, message_step, valid_message_bits,
};
use crate::gadget::{block_product, gadget_product};
use crate::lwe::{dot, lemma_phase_of_encryption, lwe_encryption, lwe_phase, reduced_mask};
use crate::lwe_keyswitch::keyswitch_result;
use crate::lwe_keyswitch_key::LweKeyswitchKey;
use vstd::arithmetic::div_mod::*;
use vstd::arithmetic::mul::*;
use vstd::arithmetic::power2::pow2;
use vstd::prelude::*;

verus! {

/// `a` and `b` have the same residue modulo `m`.
pub open spec fn congruent(a: int, b: int, m: int) -> bool {
    a % m == b % m
}

/// Sums of congruent numbers are congruent.
pub proof fn lemma_congruent_add(a: int, b: int, c: int, d: int, m: int)
    requires
        m > 0,
        congruent(a, b, m),
        congruent(c, d, m),
    ensures
        congruent(a + c, b + d, m),
{
    lemma_add_mod_noop(a, c, m);
    lemma_add_mod_noop(b, d, m);
}

/// Differences of congruent numbers are congruent.
pub proof fn lemma_congruent_sub(a: int, b: int, c: int, d: int, m: int)
    requires
        m > 0,
        congruent(a, b, m),
        congruent(c, d, m),
    ensures
        congruent(a - c, b - d, m),
{
    lemma_sub_mod_noop(a, c, m);
    lemma_sub_mod_noop(b, d, m);
}

/// Equal multiples of congruent numbers are congruent.
pub proof fn lemma_congruent_mul(k: int, a: int, b: int, m: int)
    requires
        m > 0,
        congruent(a, b, m),
    ensures
        congruent(k * a, k * b, m),
{
    lemma_mul_mod_noop_right(k, a, m);
    lemma_mul_mod_noop_right(k, b, m);
}

/// A number is congruent to its residue.
pub proof fn lemma_congruent_residue(a: int, m: int)
    requires
        m > 0,
    ensures
        congruent(a % m, a, m),
{
    lemma_mod_twice(a, m);
}

/// The rounding noise of the first `n` mask entries: the sum of
/// `key[i] * (closest(mask[i]) - mask[i])`.
pub open spec fn rounding_noise(
    decomposer: SignedDecomposer,
    key: Seq<u64>,
    input: Seq<u64>,
    n: nat,
) -> int
    decreases n,
{
    if n == 0 {
        0
    } else {
        rounding_noise(decomposer, key, input, (n - 1) as nat) + key[n - 1] * (
        decomposer.closest_representable(input[n - 1] as int) - input[n - 1])
    }
}

/// The key noise that one mask entry picks up over the levels `1 ..= m`: the sum of the
/// digit of `x` at a level times the noise of the row at `first + level - 1`.
pub open spec fn block_key_noise(
    decomposer: SignedDecomposer,
    x: int,
    noise_samples: Seq<u64>,
    first: int,
    m: nat,
) -> int
    decreases m,
{
    if m == 0 {
        0
    } else {
        block_key_noise(decomposer, x, noise_samples, first, (m - 1) as nat) + decomposer.digit(
            x,
            m,
        ) * noise_samples[first + m - 1]
    }
}

/// The key noise of the first `n` mask entries.
pub open spec fn key_noise(
    decomposer: SignedDecomposer,
    input: Seq<u64>,
    noise_samples: Seq<u64>,
    n: nat,
) -> int
    decreases n,
{
    if n == 0 {
        0
    } else {
        key_noise(decomposer, input, noise_samples, (n - 1) as nat) + block_key_noise(
            decomposer,
            input[n - 1] as int,
            noise_samples,
            (n - 1) * decomposer.level_count(),
            decomposer.level_count() as nat,
        )
    }
}

/// The rounding noise is small when the source coefficients are: with every
/// coefficient at most `bound`, it is at most `n * bound` half steps either way.
pub proof fn lemma_rounding_noise_bound(
    decomposer: SignedDecomposer,
    key: Seq<u64>,
    input: Seq<u64>,
    n: nat,
    bound: nat,
)
    requires
        decomposer.wf(),
        n <= key.len(),
        forall|i: int| 0 <= i < n ==> #[trigger] key[i] <= bound,
    ensures
        -(n * bound * decomposer.step()) <= 2 * rounding_noise(decomposer, key, input, n) <= n
            * bound * decomposer.step(),
    decreases n,
{
    let step = decomposer.step() as int;
    if n == 0 {
        assert(0 * bound * step == 0) by (nonlinear_arith);
    } else {
        let before = (n - 1) as nat;
        lemma_rounding_noise_bound(decomposer, key, input, before, bound);
        let x = input[n - 1] as int;
        let s = key[n - 1] as int;
        decomposer.lemma_rounding_error(x);
        let moved = decomposer.closest_representable(x) - x;
        assert(-(bound * step) <= 2 * (s * moved) <= bound * step) by (nonlinear_arith)
            requires
                0 <= s <= bound,
                -step <= 2 * moved <= step,
                0 <= step,
        ;
        assert(n * bound * step == before * bound * step + bound * step) by (nonlinear_arith)
            requires
                n == before + 1,
        ;
    }
}

/// The signed number of least magnitude with the residue `x`: `x` itself below half
/// the modulus, `x - m` from there on.
pub open spec fn centered(x: int, m: int) -> int {
    if 2 * x < m {
        x
    } else {
        x - m
    }
}

/// Every noise sample among the first `count` is at most `bound` in magnitude, taken
/// as a signed number.
pub open spec fn noise_within(noise_samples: Seq<u64>, count: int, bound: nat, m: int) -> bool {
    forall|r: int|
        0 <= r < count ==> -(bound as int) <= centered(#[trigger] noise_samples[r] as int, m)
            <= bound
}

/// The key noise that one mask entry picks up, with the noise taken as signed
/// numbers.
pub open spec fn block_signed_noise(
    decomposer: SignedDecomposer,
    x: int,
    noise_samples: Seq<u64>,
    first: int,
    m: nat,
) -> int
    decreases m,
{
    if m == 0 {
        0
    } else {
        block_signed_noise(decomposer, x, noise_samples, first, (m - 1) as nat)
            + decomposer.digit(x, m) * centered(
            noise_samples[first + m - 1] as int,
            decomposer.modulus().value() as int,
        )
    }
}

/// The key noise of the first `n` mask entries, with the noise taken as signed
/// numbers.
pub open spec fn signed_key_noise(
    decomposer: SignedDecomposer,
    input: Seq<u64>,
    noise_samples: Seq<u64>,
    n: nat,
) -> int
    decreases n,
{
    if n == 0 {
        0
    } else {
        signed_key_noise(decomposer, input, noise_samples, (n - 1) as nat) + block_signed_noise(
            decomposer,
            input[n - 1] as int,
            noise_samples,
            (n - 1) * decomposer.level_count(),
            decomposer.level_count() as nat,
        )
    }
}

/// Taking the noise as signed numbers changes a block's key noise by a multiple of
/// the modulus only, and bounds it: with every sample at most `bound` in magnitude,
/// it is at most `m * (B/2) * bound` either way.
proof fn lemma_block_signed_noise(
    decomposer: SignedDecomposer,
    x: int,
    noise_samples: Seq<u64>,
    first: int,
    m: nat,
    bound: nat,
)
    requires
        decomposer.wf(),
        m <= decomposer.level_count(),
        0 <= first,
        noise_within(
            noise_samples,
            first + decomposer.level_count(),
            bound,
            decomposer.modulus().value() as int,
        ),
    ensures
        congruent(
            block_key_noise(decomposer, x, noise_samples, first, m),
            block_signed_noise(decomposer, x, noise_samples, first, m),
            decomposer.modulus().value() as int,
        ),
        -(m * decomposer.base() * bound) <= 2 * block_signed_noise(
            decomposer,
            x,
            noise_samples,
            first,
            m,
        ) <= m * decomposer.base() * bound,
    decreases m,
{
    decomposer.lemma_wf();
    decomposer.modulus().lemma_wf();
    let modulus = decomposer.modulus().value() as int;
    let base = decomposer.base() as int;
    if m == 0 {
        assert(0 * base * bound == 0) by (nonlinear_arith);
    } else {
        let before = (m - 1) as nat;
        lemma_block_signed_noise(decomposer, x, noise_samples, first, before, bound);
        let d = decomposer.digit(x, m);
        let e = noise_samples[first + m - 1] as int;
        let c = centered(e, modulus);
        decomposer.lemma_digit_range(x, m);
        // the sample and its signed form differ by the modulus or not at all
        assert(congruent(e, c, modulus)) by {
            if c != e {
                lemma_mod_multiples_vanish(-1, e, modulus);
            }
        }
        lemma_congruent_mul(d, e, c, modulus);
        lemma_congruent_add(
            block_key_noise(decomposer, x, noise_samples, first, before),
            block_signed_noise(decomposer, x, noise_samples, first, before),
            d * e,
            d * c,
            modulus,
        );
        assert(-(base * bound) <= 2 * (d * c) <= base * bound) by (nonlinear_arith)
            requires
                -base <= 2 * d <= base,
                -(bound as int) <= c <= bound,
                0 <= base,
        ;
        assert(m * base * bound == before * base * bound + base * bound) by (nonlinear_arith)
            requires
                m == before + 1,
        ;
    }
}

/// Taking the noise as signed numbers changes the key noise by a multiple of the
/// modulus only, and bounds it: with every sample at most `bound` in magnitude, it
/// is at most `n * L * (B/2) * bound` either way.
pub proof fn lemma_signed_key_noise(
    decomposer: SignedDecomposer,
    input: Seq<u64>,
    noise_samples: Seq<u64>,
    n: nat,
    bound: nat,
)
    requires
        decomposer.wf(),
        noise_within(
            noise_samples,
            n * decomposer.level_count(),
            bound,
            decomposer.modulus().value() as int,
        ),
    ensures
        congruent(
            key_noise(decomposer, input, noise_samples, n),
            signed_key_noise(decomposer, input, noise_samples, n),
            decomposer.modulus().value() as int,
        ),
        -(n * decomposer.level_count() * decomposer.base() * bound) <= 2 * signed_key_noise(
            decomposer,
            input,
            noise_samples,
            n,
        ) <= n * decomposer.level_count() * decomposer.base() * bound,
    decreases n,
{
    decomposer.lemma_wf();
    decomposer.modulus().lemma_wf();
    let modulus = decomposer.modulus().value() as int;
    let base = decomposer.base() as int;
    let levels = decomposer.level_count() as int;
    if n == 0 {
        assert(0 * levels * base * bound == 0) by (nonlinear_arith);
    } else {
        let before = (n - 1) as nat;
        let first = before * levels;
        assert(0 <= first && first + levels == n * levels) by (nonlinear_arith)
            requires
                first == before * levels,
                n == before + 1,
                0 <= levels,
        ;
        lemma_signed_key_noise(decomposer, input, noise_samples, before, bound);
        lemma_block_signed_noise(
            decomposer,
            input[n - 1] as int,
            noise_samples,
            first,
            levels as nat,
            bound,
        );
        lemma_congruent_add(
            key_noise(decomposer, input, noise_samples, before),
            signed_key_noise(decomposer, input, noise_samples, before),
            block_key_noise(decomposer, input[n - 1] as int, noise_samples, first, levels as nat),
            block_signed_noise(
                decomposer,
                input[n - 1] as int,
                noise_samples,
                first,
                levels as nat,
            ),
            modulus,
        );
        assert(n * levels * base * bound == before * levels * base * bound + levels * base
            * bound) by (nonlinear_arith)
            requires
                n == before + 1,
        ;
    }
}

/// The body of a row minus its mask times the key, not reduced.
pub open spec fn row_form(row: Seq<u64>, key: Seq<u64>) -> int {
    row[key.len() as int] - dot(row, key, key.len())
}

/// The sum over the levels `1 ..= m` of the digit of `x` times the row form of the
/// row at `first + level - 1`.
pub open spec fn block_form(
    rows: Seq<Seq<u64>>,
    decomposer: SignedDecomposer,
    x: int,
    first: int,
    key: Seq<u64>,
    m: nat,
) -> int
    decreases m,
{
    if m == 0 {
        0
    } else {
        block_form(rows, decomposer, x, first, key, (m - 1) as nat) + decomposer.digit(x, m)
            * row_form(rows[first + m - 1], key)
    }
}

/// The sum over the first `n` mask entries of each one's block form.
pub open spec fn gadget_form(
    rows: Seq<Seq<u64>>,
    decomposer: SignedDecomposer,
    input: Seq<u64>,
    key: Seq<u64>,
    n: nat,
) -> int
    decreases n,
{
    if n == 0 {
        0
    } else {
        gadget_form(rows, decomposer, input, key, (n - 1) as nat) + block_form(
            rows,
            decomposer,
            input[n - 1] as int,
            (n - 1) * decomposer.level_count(),
            key,
            decomposer.level_count() as nat,
        )
    }
}

/// The sum over `k < count` of the entry `k` of a block product times `key[k]`.
pub open spec fn block_product_dot(
    rows: Seq<Seq<u64>>,
    decomposer: SignedDecomposer,
    x: int,
    first: int,
    key: Seq<u64>,
    m: nat,
    count: nat,
) -> int
    decreases count,
{
    if count == 0 {
        0
    } else {
        block_product_dot(rows, decomposer, x, first, key, m, (count - 1) as nat) + block_product(
            rows,
            decomposer,
            x,
            first,
            count - 1,
            m,
        ) * key[count - 1]
    }
}

/// The sum over `k < count` of the entry `k` of a gadget product times `key[k]`.
pub open spec fn gadget_product_dot(
    rows: Seq<Seq<u64>>,
    decomposer: SignedDecomposer,
    input: Seq<u64>,
    key: Seq<u64>,
    n: nat,
    count: nat,
) -> int
    decreases count,
{
    if count == 0 {
        0
    } else {
        gadget_product_dot(rows, decomposer, input, key, n, (count - 1) as nat) + gadget_product(
            rows,
            decomposer,
            input,
            count - 1,
            n,
        ) * key[count - 1]
    }
}

/// Adding one level to a block product adds the digit times the row's dot product.
proof fn lemma_block_product_dot_step(
    rows: Seq<Seq<u64>>,
    decomposer: SignedDecomposer,
    x: int,
    first: int,
    key: Seq<u64>,
    m: nat,
    count: nat,
)
    requires
        m >= 1,
    ensures
        block_product_dot(rows, decomposer, x, first, key, m, count) == block_product_dot(
            rows,
            decomposer,
            x,
            first,
            key,
            (m - 1) as nat,
            count,
        ) + decomposer.digit(x, m) * dot(rows[first + m - 1], key, count),
    decreases count,
{
    if count > 0 {
        let c = (count - 1) as nat;
        lemma_block_product_dot_step(rows, decomposer, x, first, key, m, c);
        let d = decomposer.digit(x, m);
        let row = rows[first + m - 1];
        let before = block_product(rows, decomposer, x, first, c as int, (m - 1) as nat);
        let s = key[c as int] as int;
        let e = row[c as int] as int;
        let partial = dot(row, key, c);
        assert((before + d * e) * s + d * partial == before * s + d * (partial + e * s))
            by (nonlinear_arith);
    }
}

/// A block product's body entry minus its mask entries times the key is the block form.
proof fn lemma_block_form(
    rows: Seq<Seq<u64>>,
    decomposer: SignedDecomposer,
    x: int,
    first: int,
    key: Seq<u64>,
    m: nat,
)
    ensures
        block_product(rows, decomposer, x, first, key.len() as int, m) - block_product_dot(
            rows,
            decomposer,
            x,
            first,
            key,
            m,
            key.len(),
        ) == block_form(rows, decomposer, x, first, key, m),
    decreases m,
{
    if m == 0 {
        lemma_block_product_dot_zero(rows, decomposer, x, first, key, key.len());
    } else {
        lemma_block_form(rows, decomposer, x, first, key, (m - 1) as nat);
        lemma_block_product_dot_step(rows, decomposer, x, first, key, m, key.len());
        let d = decomposer.digit(x, m);
        let row = rows[first + m - 1];
        let body = row[key.len() as int] as int;
        let masked = dot(row, key, key.len());
        assert(d * body - d * masked == d * (body - masked)) by (nonlinear_arith);
    }
}

/// With no level the block product is zero everywhere, and so is its dot product.
proof fn lemma_block_product_dot_zero(
    rows: Seq<Seq<u64>>,
    decomposer: SignedDecomposer,
    x: int,
    first: int,
    key: Seq<u64>,
    count: nat,
)
    ensures
        block_product_dot(rows, decomposer, x, first, key, 0, count) == 0,
    decreases count,
{
    if count > 0 {
        lemma_block_product_dot_zero(rows, decomposer, x, first, key, (count - 1) as nat);
        let s = key[count - 1] as int;
        assert(0 * s == 0) by (nonlinear_arith);
    }
}

/// With no mask entry the gadget product is zero everywhere, and so is its dot product.
proof fn lemma_gadget_product_dot_zero(
    rows: Seq<Seq<u64>>,
    decomposer: SignedDecomposer,
    input: Seq<u64>,
    key: Seq<u64>,
    count: nat,
)
    ensures
        gadget_product_dot(rows, decomposer, input, key, 0, count) == 0,
    decreases count,
{
    if count > 0 {
        lemma_gadget_product_dot_zero(rows, decomposer, input, key, (count - 1) as nat);
        let s = key[count - 1] as int;
        assert(0 * s == 0) by (nonlinear_arith);
    }
}

/// Adding one mask entry to a gadget product adds its block product's dot product.
proof fn lemma_gadget_product_dot_step(
    rows: Seq<Seq<u64>>,
    decomposer: SignedDecomposer,
    input: Seq<u64>,
    key: Seq<u64>,
    n: nat,
    count: nat,
)
    requires
        n >= 1,
    ensures
        gadget_product_dot(rows, decomposer, input, key, n, count) == gadget_product_dot(
            rows,
            decomposer,
            input,
            key,
            (n - 1) as nat,
            count,
        ) + block_product_dot(
            rows,
            decomposer,
            input[n - 1] as int,
            (n - 1) * decomposer.level_count(),
            key,
            decomposer.level_count() as nat,
            count,
        ),
    decreases count,
{
    if count > 0 {
        let c = (count - 1) as nat;
        lemma_gadget_product_dot_step(rows, decomposer, input, key, n, c);
        let before = gadget_product(rows, decomposer, input, c as int, (n - 1) as nat);
        let block = block_product(
            rows,
            decomposer,
            input[n - 1] as int,
            (n - 1) * decomposer.level_count(),
            c as int,
            decomposer.level_count() as nat,
        );
        let s = key[c as int] as int;
        assert((before + block) * s == before * s + block * s) by (nonlinear_arith);
    }
}

/// A gadget product's body entry minus its mask entries times the key is the gadget form.
proof fn lemma_gadget_form(
    rows: Seq<Seq<u64>>,
    decomposer: SignedDecomposer,
    input: Seq<u64>,
    key: Seq<u64>,
    n: nat,
)
    ensures
        gadget_product(rows, decomposer, input, key.len() as int, n) - gadget_product_dot(
            rows,
            decomposer,
            input,
            key,
            n,
            key.len(),
        ) == gadget_form(rows, decomposer, input, key, n),
    decreases n,
{
    if n == 0 {
        lemma_gadget_product_dot_zero(rows, decomposer, input, key, key.len());
    } else {
        lemma_gadget_form(rows, decomposer, input, key, (n - 1) as nat);
        lemma_gadget_product_dot_step(rows, decomposer, input, key, n, key.len());
        lemma_block_form(
            rows,
            decomposer,
            input[n - 1] as int,
            (n - 1) * decomposer.level_count(),
            key,
            decomposer.level_count() as nat,
        );
    }
}

/// The form of a generated row is congruent to the scaled source coefficient plus
/// the row's noise.
proof fn lemma_row_form(
    key: LweKeyswitchKey,
    source: Seq<u64>,
    destination: Seq<u64>,
    mask_samples: Seq<u64>,
    noise_samples: Seq<u64>,
    i: int,
    level: nat,
)
    requires
        key.wf(),
        key.generated_from(source, destination, mask_samples, noise_samples),
        0 <= i < source.len(),
        1 <= level <= key.decomposer().level_count(),
    ensures
        congruent(
            row_form(key.row(i, level), destination),
            source[i] * key.decomposer().scaling_factor(level) + noise_samples[i
                * key.decomposer().level_count() + level - 1],
            key.ciphertext_modulus().value() as int,
        ),
{
    key.lemma_wf();
    let decomposer = key.decomposer();
    decomposer.lemma_wf();
    let modulus = decomposer.modulus();
    modulus.lemma_wf();
    let m = modulus.value() as int;
    let levels = decomposer.level_count() as int;
    let r = i * levels + level - 1;
    let n = destination.len() as int;
    let row = key.row(i, level);
    let window = mask_samples.subrange(r * n, r * n + n);
    let plaintext = source[i] * decomposer.scaling_factor(level);
    let noise = noise_samples[r] as int;
    crate::gadget::lemma_row_index(i, level - 1, source.len() as int, levels);
    assert(row == key.rows()[r]);
    assert(row.len() == n + 1);
    assert(row == lwe_encryption(destination, plaintext, window, noise, modulus));
    // the row has one entry more than the window
    assert(reduced_mask(window, modulus).len() == window.len());
    assert(window.len() == n);
    lemma_phase_of_encryption(destination, plaintext, window, noise, modulus);
    assert(lwe_phase(row, destination, modulus) == row_form(row, destination) % m);
}

/// The block form of a mask entry is congruent to the source coefficient times the
/// entry's partial recomposition, plus the key noise that the entry picks up.
proof fn lemma_block_form_phase(
    key: LweKeyswitchKey,
    source: Seq<u64>,
    destination: Seq<u64>,
    mask_samples: Seq<u64>,
    noise_samples: Seq<u64>,
    x: int,
    i: int,
    levels_done: nat,
)
    requires
        key.wf(),
        key.generated_from(source, destination, mask_samples, noise_samples),
        0 <= i < source.len(),
        levels_done <= key.decomposer().level_count(),
    ensures
        congruent(
            block_form(
                key.rows(),
                key.decomposer(),
                x,
                i * key.decomposer().level_count(),
                destination,
                levels_done,
            ),
            source[i] * key.decomposer().partial_recomposition(x, levels_done) + block_key_noise(
                key.decomposer(),
                x,
                noise_samples,
                i * key.decomposer().level_count(),
                levels_done,
            ),
            key.ciphertext_modulus().value() as int,
        ),
    decreases levels_done,
{
    key.lemma_wf();
    let decomposer = key.decomposer();
    decomposer.lemma_wf();
    decomposer.modulus().lemma_wf();
    let m = decomposer.modulus().value() as int;
    let first = i * decomposer.level_count();
    if levels_done > 0 {
        let level = levels_done;
        let before = (levels_done - 1) as nat;
        lemma_block_form_phase(
            key,
            source,
            destination,
            mask_samples,
            noise_samples,
            x,
            i,
            before,
        );
        lemma_row_form(key, source, destination, mask_samples, noise_samples, i, level);
        let d = decomposer.digit(x, level);
        let s = source[i] as int;
        let scale = decomposer.scaling_factor(level) as int;
        let e = noise_samples[first + level - 1] as int;
        let form = row_form(key.row(i, level), destination);
        assert(key.row(i, level) == key.rows()[first + level - 1]);
        lemma_congruent_mul(d, form, s * scale + e, m);
        lemma_congruent_add(
            block_form(key.rows(), decomposer, x, first, destination, before),
            s * decomposer.partial_recomposition(x, before) + block_key_noise(
                decomposer,
                x,
                noise_samples,
                first,
                before,
            ),
            d * form,
            d * (s * scale + e),
            m,
        );
        let p = decomposer.partial_recomposition(x, before);
        assert(s * p + d * (s * scale + e) == s * (p + d * scale) + d * e) by (nonlinear_arith);
    }
}

/// The gadget form of the input's mask is congruent to the mask times the source
/// key, plus the rounding noise, plus the key noise.
proof fn lemma_gadget_form_phase(
    key: LweKeyswitchKey,
    source: Seq<u64>,
    destination: Seq<u64>,
    mask_samples: Seq<u64>,
    noise_samples: Seq<u64>,
    input: Seq<u64>,
    n: nat,
)
    requires
        key.wf(),
        key.generated_from(source, destination, mask_samples, noise_samples),
        n <= source.len(),
    ensures
        congruent(
            gadget_form(key.rows(), key.decomposer(), input, destination, n),
            dot(input, source, n) + rounding_noise(key.decomposer(), source, input, n)
                + key_noise(key.decomposer(), input, noise_samples, n),
            key.ciphertext_modulus().value() as int,
        ),
    decreases n,
{
    key.lemma_wf();
    let decomposer = key.decomposer();
    decomposer.lemma_wf();
    decomposer.modulus().lemma_wf();
    let m = decomposer.modulus().value() as int;
    if n > 0 {
        let i = (n - 1) as int;
        let before = (n - 1) as nat;
        let levels = decomposer.level_count() as nat;
        let x = input[i] as int;
        let s = source[i] as int;
        lemma_gadget_form_phase(
            key,
            source,
            destination,
            mask_samples,
            noise_samples,
            input,
            before,
        );
        lemma_block_form_phase(
            key,
            source,
            destination,
            mask_samples,
            noise_samples,
            x,
            i,
            levels,
        );
        // the digits recompose to the closest representable value
        decomposer.lemma_recomposition(x);
        let recomposed = decomposer.recomposition(x);
        let closest = decomposer.closest_representable(x);
        let noise = block_key_noise(decomposer, x, noise_samples, i * levels, levels);
        lemma_congruent_mul(s, recomposed, closest, m);
        lemma_congruent_add(s * recomposed, s * closest, noise, noise, m);
        let block = block_form(key.rows(), decomposer, x, i * levels, destination, levels);
        assert(congruent(block, s * closest + noise, m));
        lemma_congruent_add(
            gadget_form(key.rows(), decomposer, input, destination, before),
            dot(input, source, before) + rounding_noise(decomposer, source, input, before)
                + key_noise(decomposer, input, noise_samples, before),
            block,
            s * closest + noise,
            m,
        );
        assert(s * closest == x * s + s * (closest - x)) by (nonlinear_arith);
    }
}

/// The mask of the output times the destination key is congruent to minus the dot
/// product of the gadget product.
proof fn lemma_output_mask_dot(
    key: LweKeyswitchKey,
    input: Seq<u64>,
    destination: Seq<u64>,
    count: nat,
)
    requires
        key.wf(),
        count <= key.output_key_lwe_dimension(),
    ensures
        congruent(
            dot(keyswitch_result(key, input), destination, count),
            -gadget_product_dot(
                key.rows(),
                key.decomposer(),
                input,
                destination,
                key.input_key_lwe_dimension() as nat,
                count,
            ),
            key.ciphertext_modulus().value() as int,
        ),
    decreases count,
{
    key.lemma_wf();
    key.decomposer().lemma_wf();
    key.ciphertext_modulus().lemma_wf();
    let m = key.ciphertext_modulus().value() as int;
    let n_in = key.input_key_lwe_dimension() as nat;
    let out = keyswitch_result(key, input);
    if count > 0 {
        let k = (count - 1) as int;
        lemma_output_mask_dot(key, input, destination, (count - 1) as nat);
        let g = gadget_product(key.rows(), key.decomposer(), input, k, n_in);
        let s = destination[k] as int;
        lemma_mod_bound(0 - g, m);
        assert(out[k] == (0 - g) % m);
        lemma_congruent_residue(0 - g, m);
        lemma_congruent_mul(s, out[k] as int, 0 - g, m);
        assert(out[k] * s == s * out[k]) by (nonlinear_arith);
        assert(s * (0 - g) == -(g * s)) by (nonlinear_arith);
        lemma_congruent_add(
            dot(out, destination, (count - 1) as nat),
            -gadget_product_dot(
                key.rows(),
                key.decomposer(),
                input,
                destination,
                n_in,
                (count - 1) as nat,
            ),
            out[k] * s,
            -(g * s),
            m,
        );
    }
}

/// Under the destination key, the phase of a keyswitched ciphertext is the phase of
/// the input under the source key minus the rounding noise and the key noise.
///
/// It holds for every key whose rows are the encryptions that generation makes, and
/// for every input of the key's source dimension.
pub proof fn lemma_keyswitch_phase(
    key: LweKeyswitchKey,
    source: Seq<u64>,
    destination: Seq<u64>,
    mask_samples: Seq<u64>,
    noise_samples: Seq<u64>,
    input: Seq<u64>,
)
    requires
        key.wf(),
        key.generated_from(source, destination, mask_samples, noise_samples),
        input.len() == key.input_key_lwe_dimension() + 1,
    ensures
        lwe_phase(keyswitch_result(key, input), destination, key.ciphertext_modulus()) == (
        lwe_phase(input, source, key.ciphertext_modulus()) - rounding_noise(
            key.decomposer(),
            source,
            input,
            source.len(),
        ) - key_noise(key.decomposer(), input, noise_samples, source.len())) % (
        key.ciphertext_modulus().value() as int),
{
    key.lemma_wf();
    key.decomposer().lemma_wf();
    let modulus = key.ciphertext_modulus();
    modulus.lemma_wf();
    let m = modulus.value() as int;
    let decomposer = key.decomposer();
    let n_in = source.len();
    let n_out = destination.len();
    let out = keyswitch_result(key, input);
    let body = input[n_in as int] as int;
    let g_body = gadget_product(key.rows(), decomposer, input, n_out as int, n_in);
    let g_dot = gadget_product_dot(key.rows(), decomposer, input, destination, n_in, n_out);
    let form = gadget_form(key.rows(), decomposer, input, destination, n_in);
    let masked = dot(input, source, n_in);
    let rounding = rounding_noise(decomposer, source, input, n_in);
    let noise = key_noise(decomposer, input, noise_samples, n_in);
    // the output's body and mask, up to multiples of the modulus
    lemma_mod_bound(body - g_body, m);
    assert(out[n_out as int] == (body - g_body) % m);
    lemma_congruent_residue(body - g_body, m);
    lemma_output_mask_dot(key, input, destination, n_out);
    lemma_congruent_sub(
        out[n_out as int] as int,
        body - g_body,
        dot(out, destination, n_out),
        -g_dot,
        m,
    );
    // the gadget product's form, and what it is congruent to
    lemma_gadget_form(key.rows(), decomposer, input, destination, n_in);
    lemma_gadget_form_phase(
        key,
        source,
        destination,
        mask_samples,
        noise_samples,
        input,
        n_in,
    );
    lemma_congruent_sub(body, body, form, masked + rounding + noise, m);
    // the input's phase is its body minus its mask times the source key
    lemma_congruent_residue(body - masked, m);
    lemma_congruent_sub(
        lwe_phase(input, source, modulus),
        body - masked,
        rounding + noise,
        rounding + noise,
        m,
    );
    assert(out.len() - 1 == n_out);
    assert(input.len() - 1 == n_in);
}

/// A keyswitch moves the phase by a bounded amount: with every source coefficient at
/// most `key_bound` and every noise sample of the key at most `noise_bound` in
/// magnitude, the phase of the output is the phase of the input plus some `delta`
/// of at most `n * (key_bound * step / 2 + L * (B/2) * noise_bound)` either way.
pub proof fn lemma_keyswitch_noise_growth(
    key: LweKeyswitchKey,
    source: Seq<u64>,
    destination: Seq<u64>,
    mask_samples: Seq<u64>,
    noise_samples: Seq<u64>,
    input: Seq<u64>,
    key_bound: nat,
    noise_bound: nat,
) -> (delta: int)
    requires
        key.wf(),
        key.generated_from(source, destination, mask_samples, noise_samples),
        input.len() == key.input_key_lwe_dimension() + 1,
        forall|i: int| 0 <= i < source.len() ==> #[trigger] source[i] <= key_bound,
        noise_within(
            noise_samples,
            source.len() * key.decomposer().level_count(),
            noise_bound,
            key.ciphertext_modulus().value() as int,
        ),
    ensures
        lwe_phase(keyswitch_result(key, input), destination, key.ciphertext_modulus()) == (
        lwe_phase(input, source, key.ciphertext_modulus()) + delta) % (
        key.ciphertext_modulus().value() as int),
        -(source.len() * (key_bound * key.decomposer().step() + key.decomposer().level_count()
            * key.decomposer().base() * noise_bound)) <= 2 * delta <= source.len() * (key_bound
            * key.decomposer().step() + key.decomposer().level_count() * key.decomposer().base()
            * noise_bound),
{
    key.lemma_wf();
    let decomposer = key.decomposer();
    decomposer.lemma_wf();
    decomposer.modulus().lemma_wf();
    let m = decomposer.modulus().value() as int;
    let n = source.len();
    let step = decomposer.step() as int;
    let base = decomposer.base() as int;
    let levels = decomposer.level_count() as int;
    lemma_keyswitch_phase(key, source, destination, mask_samples, noise_samples, input);
    lemma_rounding_noise_bound(decomposer, source, input, n, key_bound);
    lemma_signed_key_noise(decomposer, input, noise_samples, n, noise_bound);
    let phase = lwe_phase(input, source, key.ciphertext_modulus());
    let rounding = rounding_noise(decomposer, source, input, n);
    let noise = key_noise(decomposer, input, noise_samples, n);
    let signed = signed_key_noise(decomposer, input, noise_samples, n);
    lemma_congruent_sub(phase - rounding, phase - rounding, noise, signed, m);
    assert(n * (key_bound * step + levels * base * noise_bound) == n * key_bound * step + n
        * levels * base * noise_bound) by (nonlinear_arith);
    -rounding - signed
}

/// The most that a keyswitch moves the phase, doubled: the sum over the `n` source
/// coefficients of `key_bound * step + L * B * noise_bound`.
pub open spec fn keyswitch_growth_bound(
    decomposer: SignedDecomposer,
    n: nat,
    key_bound: nat,
    noise_bound: nat,
) -> int {
    n * (key_bound * decomposer.step() + decomposer.level_count() * decomposer.base()
        * noise_bound)
}

/// A keyswitch keeps the message: when the input encrypts `message` with the noise
/// `input_noise`, and that noise together with the most that the keyswitch moves the
/// phase is less than half a message step, the output decrypts under the destination
/// key to the same message.
pub proof fn lemma_keyswitch_recovers_message(
    key: LweKeyswitchKey,
    source: Seq<u64>,
    destination: Seq<u64>,
    mask_samples: Seq<u64>,
    noise_samples: Seq<u64>,
    input: Seq<u64>,
    key_bound: nat,
    noise_bound: nat,
    message: int,
    input_noise: int,
    bits: nat,
)
    requires
        key.wf(),
        key.generated_from(source, destination, mask_samples, noise_samples),
        input.len() == key.input_key_lwe_dimension() + 1,
        forall|i: int| 0 <= i < source.len() ==> #[trigger] source[i] <= key_bound,
        noise_within(
            noise_samples,
            source.len() * key.decomposer().level_count(),
            noise_bound,
            key.ciphertext_modulus().value() as int,
        ),
        valid_message_bits(key.ciphertext_modulus().log2() as nat, bits),
        0 <= message < pow2(bits),
        congruent(
            lwe_phase(input, source, key.ciphertext_modulus()),
            encoded(message, key.ciphertext_modulus().log2() as nat, bits) + input_noise,
            key.ciphertext_modulus().value() as int,
        ),
        2 * input_noise + keyswitch_growth_bound(
            key.decomposer(),
            source.len(),
            key_bound,
            noise_bound,
        ) < message_step(key.ciphertext_modulus().log2() as nat, bits),
        -message_step(key.ciphertext_modulus().log2() as nat, bits) <= 2 * input_noise
            - keyswitch_growth_bound(key.decomposer(), source.len(), key_bound, noise_bound),
    ensures
        decoded(
            lwe_phase(keyswitch_result(key, input), destination, key.ciphertext_modulus()),
            key.ciphertext_modulus().log2() as nat,
            bits,
        ) == message,
{
    key.lemma_wf();
    key.decomposer().lemma_wf();
    let modulus = key.ciphertext_modulus();
    modulus.lemma_wf();
    let m = modulus.value() as int;
    let q = modulus.log2() as nat;
    let delta = lemma_keyswitch_noise_growth(
        key,
        source,
        destination,
        mask_samples,
        noise_samples,
        input,
        key_bound,
        noise_bound,
    );
    let before = lwe_phase(input, source, modulus);
    let after = lwe_phase(keyswitch_result(key, input), destination, modulus);
    let exact = encoded(message, q, bits) + input_noise;
    lemma_congruent_add(before, exact, delta, delta, m);
    lemma_congruent_residue(before + delta, m);
    lemma_decode_recovers(message, input_noise + delta, after, q, bits);
}

} // verus!
