//! What a packed ciphertext decrypts to, exactly.
//!
//! Switched to the GLWE key on its own, an input has a phase whose slot 0 is the input's phase
//! under the source key minus its rounding noise, and whose every slot carries, negated, the
//! key noise that the input picks up from the rows' noise in that slot. Packing multiplies
//! the phase of input `j` by `X^j` and adds the results up. So the slot `t` of the packed
//! ciphertext holds the phase of input `t`, minus its rounding noise, and a signed sum of key
//! noise from all inputs.

use crate::decomposition::SignedDecomposer;
use crate::gadget::{block_product, gadget_product, lemma_row_index};
use crate::glwe::{glwe_encryption, glwe_phase, lemma_glwe_phase_of_encryption, lemma_poly_index};
use crate::lwe::dot;
use crate::lwe_packing_keyswitch::{packed_result, packed_sum, placed_entry, unit_entry};
use crate::lwe_packing_keyswitch_key::{constant_polynomial, LwePackingKeyswitchKey};
use crate::encoding::{
    decoded, encoded, lemma_decode_recovers, message_step, valid_message_bits,
};
use crate::noise::{
    centered, congruent, lemma_congruent_add, lemma_congruent_mul, lemma_congruent_residue,
    lemma_congruent_sub, noise_within, rounding_noise,
};
use crate::ring::{
    entries, lemma_phase_congruent, lemma_phase_linear, lemma_phase_mask_zero,
    lemma_phase_of_entries, lemma_phase_rotated, ring_phase, rotated, rotation_sign,
    rotation_source,
};
use vstd::arithmetic::div_mod::*;
use vstd::arithmetic::power2::pow2;
use vstd::prelude::*;

verus! {

/// The entries of the trivial encryption of the input's body: the body at the body
/// polynomial's constant coefficient, zero elsewhere.
pub open spec fn trivial_entries(key: LwePackingKeyswitchKey, input: Seq<u64>) -> spec_fn(int)
    -> int {
    |f: int|
        if f == key.output_glwe_dimension() * key.output_polynomial_size() {
            input[key.input_key_lwe_dimension() as int] as int
        } else {
            0
        }
}

/// The entries of a block product over the levels `1 ..= m`.
pub open spec fn block_entries(
    rows: Seq<Seq<u64>>,
    decomposer: SignedDecomposer,
    x: int,
    first: int,
    m: nat,
) -> spec_fn(int) -> int {
    |f: int| block_product(rows, decomposer, x, first, f, m)
}

/// The entries of a gadget product over the first `n` mask entries.
pub open spec fn gadget_entries(
    rows: Seq<Seq<u64>>,
    decomposer: SignedDecomposer,
    input: Seq<u64>,
    n: nat,
) -> spec_fn(int) -> int {
    |f: int| gadget_product(rows, decomposer, input, f, n)
}

/// The entries of one input switched to the GLWE key, before they are reduced.
pub open spec fn unit_entries(key: LwePackingKeyswitchKey, input: Seq<u64>) -> spec_fn(int)
    -> int {
    |f: int|
        trivial_entries(key, input)(f) - gadget_product(
            key.rows(),
            key.decomposer(),
            input,
            f,
            key.input_key_lwe_dimension() as nat,
        )
}

/// The entry `f` of the sum of the first `n` units, unit `j` multiplied by `X^j`,
/// before any reduction.
pub open spec fn placed_total(
    key: LwePackingKeyswitchKey,
    inputs: Seq<Seq<u64>>,
    f: int,
    n: nat,
) -> int
    decreases n,
{
    if n == 0 {
        0
    } else {
        placed_total(key, inputs, f, (n - 1) as nat) + rotated(
            unit_entries(key, inputs[n - 1]),
            key.output_polynomial_size() as int,
            n - 1,
        )(f)
    }
}

/// The entries of that sum.
pub open spec fn placed_totals(key: LwePackingKeyswitchKey, inputs: Seq<Seq<u64>>, n: nat)
    -> spec_fn(int) -> int {
    |f: int| placed_total(key, inputs, f, n)
}

/// The key noise that one mask entry picks up in slot `t` over the levels
/// `1 ..= m`: the sum of the digit of `x` at a level times the noise, in that slot,
/// of the row at `first + level - 1`.
pub open spec fn block_packing_noise(
    decomposer: SignedDecomposer,
    x: int,
    noise_samples: Seq<u64>,
    first: int,
    size: int,
    t: int,
    m: nat,
) -> int
    decreases m,
{
    if m == 0 {
        0
    } else {
        block_packing_noise(decomposer, x, noise_samples, first, size, t, (m - 1) as nat)
            + decomposer.digit(x, m) * noise_samples[(first + m - 1) * size + t]
    }
}

/// The key noise in slot `t` of the first `n` mask entries.
pub open spec fn packing_key_noise(
    decomposer: SignedDecomposer,
    input: Seq<u64>,
    noise_samples: Seq<u64>,
    size: int,
    t: int,
    n: nat,
) -> int
    decreases n,
{
    if n == 0 {
        0
    } else {
        packing_key_noise(decomposer, input, noise_samples, size, t, (n - 1) as nat)
            + block_packing_noise(
            decomposer,
            input[n - 1] as int,
            noise_samples,
            (n - 1) * decomposer.level_count(),
            size,
            t,
            decomposer.level_count() as nat,
        )
    }
}

/// The slot `t` of the phase of one input switched to the GLWE key: in slot 0 the
/// input's body minus its mask times the source key, minus the rounding noise; in
/// every slot, minus the key noise of that slot.
pub open spec fn unit_phase(
    key: LwePackingKeyswitchKey,
    source: Seq<u64>,
    noise_samples: Seq<u64>,
    input: Seq<u64>,
    t: int,
) -> int {
    let n = source.len();
    (if t == 0 {
        input[n as int] - dot(input, source, n) - rounding_noise(
            key.decomposer(),
            source,
            input,
            n,
        )
    } else {
        0
    }) - packing_key_noise(
        key.decomposer(),
        input,
        noise_samples,
        key.output_polynomial_size() as int,
        t,
        n,
    )
}

/// The slot `t` of the sum of the phases of the first `n` inputs, the phase of input
/// `j` multiplied by `X^j`.
pub open spec fn packed_phase(
    key: LwePackingKeyswitchKey,
    source: Seq<u64>,
    noise_samples: Seq<u64>,
    inputs: Seq<Seq<u64>>,
    t: int,
    n: nat,
) -> int
    decreases n,
{
    if n == 0 {
        0
    } else {
        packed_phase(key, source, noise_samples, inputs, t, (n - 1) as nat) + rotation_sign(
            n - 1,
            t,
        ) * unit_phase(
            key,
            source,
            noise_samples,
            inputs[n - 1],
            rotation_source(key.output_polynomial_size() as int, n - 1, t),
        )
    }
}

/// The key noise in slot `t` of a packed ciphertext: the sum over the first `n` inputs
/// of each input's key noise, multiplied by `X^j`.
pub open spec fn packed_key_noise(
    key: LwePackingKeyswitchKey,
    noise_samples: Seq<u64>,
    inputs: Seq<Seq<u64>>,
    t: int,
    n: nat,
) -> int
    decreases n,
{
    if n == 0 {
        0
    } else {
        packed_key_noise(key, noise_samples, inputs, t, (n - 1) as nat) + rotation_sign(n - 1, t)
            * packing_key_noise(
            key.decomposer(),
            inputs[n - 1],
            noise_samples,
            key.output_polynomial_size() as int,
            rotation_source(key.output_polynomial_size() as int, n - 1, t),
            key.input_key_lwe_dimension() as nat,
        )
    }
}

/// The slots do not mix the inputs' plaintexts: the packed phase of slot `t` is, when
/// there is an input `t`, that input's body minus its mask times the source key,
/// minus its rounding noise; and in every slot, filled or empty, minus the key noise.
pub proof fn lemma_packed_phase_by_slot(
    key: LwePackingKeyswitchKey,
    source: Seq<u64>,
    noise_samples: Seq<u64>,
    inputs: Seq<Seq<u64>>,
    t: int,
    n: nat,
)
    requires
        source.len() == key.input_key_lwe_dimension(),
        0 <= t < key.output_polynomial_size(),
        n <= key.output_polynomial_size(),
    ensures
        packed_phase(key, source, noise_samples, inputs, t, n) == (if t < n {
            inputs[t][source.len() as int] - dot(inputs[t], source, source.len())
                - rounding_noise(key.decomposer(), source, inputs[t], source.len())
        } else {
            0
        }) - packed_key_noise(key, noise_samples, inputs, t, n),
    decreases n,
{
    if n > 0 {
        let j = (n - 1) as int;
        lemma_packed_phase_by_slot(key, source, noise_samples, inputs, t, (n - 1) as nat);
        let size = key.output_polynomial_size() as int;
        let sign = rotation_sign(j, t);
        let from = rotation_source(size, j, t);
        let noise = packing_key_noise(
            key.decomposer(),
            inputs[j],
            noise_samples,
            size,
            from,
            source.len(),
        );
        let message = inputs[j][source.len() as int] - dot(inputs[j], source, source.len())
            - rounding_noise(key.decomposer(), source, inputs[j], source.len());
        // the unit's slot 0 arrives at slot t exactly when j is t
        assert(from == 0 <==> j == t);
        if j == t {
            assert(1 * (message - noise) == message - 1 * noise) by (nonlinear_arith);
        } else {
            assert(sign * (0 - noise) == 0 - sign * noise) by (nonlinear_arith);
        }
    }
}

/// The sum over the levels `1 ..= m` of the digit of `x` times the phase of the row
/// at `first + level - 1`.
pub open spec fn block_phase(
    rows: Seq<Seq<u64>>,
    decomposer: SignedDecomposer,
    x: int,
    first: int,
    key: Seq<u64>,
    k: nat,
    size: int,
    t: int,
    m: nat,
) -> int
    decreases m,
{
    if m == 0 {
        0
    } else {
        block_phase(rows, decomposer, x, first, key, k, size, t, (m - 1) as nat)
            + decomposer.digit(x, m) * ring_phase(entries(rows[first + m - 1]), key, k, size, t)
    }
}

/// The sum over the first `n` mask entries of each one's block phase.
pub open spec fn gadget_phase(
    rows: Seq<Seq<u64>>,
    decomposer: SignedDecomposer,
    input: Seq<u64>,
    key: Seq<u64>,
    k: nat,
    size: int,
    t: int,
    n: nat,
) -> int
    decreases n,
{
    if n == 0 {
        0
    } else {
        gadget_phase(rows, decomposer, input, key, k, size, t, (n - 1) as nat) + block_phase(
            rows,
            decomposer,
            input[n - 1] as int,
            (n - 1) * decomposer.level_count(),
            key,
            k,
            size,
            t,
            decomposer.level_count() as nat,
        )
    }
}

/// The phase of entries that are zero wherever the phase reads them is zero.
proof fn lemma_phase_of_zero(e: spec_fn(int) -> int, s: Seq<u64>, k: nat, size: int, t: int)
    requires
        0 <= t < size,
        forall|f: int| 0 <= f < (k + 1) * size ==> #[trigger] e(f) == 0,
    ensures
        ring_phase(e, s, k, size, t) == 0,
{
    lemma_poly_index(k as int, t, (k + 1) as int, size);
    assert forall|f: int| 0 <= f < k * size implies #[trigger] e(f) == 0 by {
        assert(k * size <= (k + 1) * size) by (nonlinear_arith)
            requires
                0 <= size,
        ;
    }
    lemma_phase_mask_zero(e, s, k, size, t);
}

/// The phase of a block product is the block phase.
proof fn lemma_block_phase(
    rows: Seq<Seq<u64>>,
    decomposer: SignedDecomposer,
    x: int,
    first: int,
    key: Seq<u64>,
    k: nat,
    size: int,
    t: int,
    m: nat,
)
    requires
        0 <= t < size,
    ensures
        ring_phase(block_entries(rows, decomposer, x, first, m), key, k, size, t) == block_phase(
            rows,
            decomposer,
            x,
            first,
            key,
            k,
            size,
            t,
            m,
        ),
    decreases m,
{
    let now = block_entries(rows, decomposer, x, first, m);
    if m == 0 {
        lemma_phase_of_zero(now, key, k, size, t);
    } else {
        lemma_block_phase(rows, decomposer, x, first, key, k, size, t, (m - 1) as nat);
        let before = block_entries(rows, decomposer, x, first, (m - 1) as nat);
        let row = entries(rows[first + m - 1]);
        let d = decomposer.digit(x, m);
        assert forall|f: int| 0 <= f < (k + 1) * size implies #[trigger] now(f) == before(f) + d
            * row(f) by {}
        lemma_phase_linear(now, before, row, d, key, k, size, t);
    }
}

/// The phase of a gadget product is the gadget phase.
proof fn lemma_gadget_phase(
    rows: Seq<Seq<u64>>,
    decomposer: SignedDecomposer,
    input: Seq<u64>,
    key: Seq<u64>,
    k: nat,
    size: int,
    t: int,
    n: nat,
)
    requires
        0 <= t < size,
    ensures
        ring_phase(gadget_entries(rows, decomposer, input, n), key, k, size, t) == gadget_phase(
            rows,
            decomposer,
            input,
            key,
            k,
            size,
            t,
            n,
        ),
    decreases n,
{
    let now = gadget_entries(rows, decomposer, input, n);
    if n == 0 {
        lemma_phase_of_zero(now, key, k, size, t);
    } else {
        lemma_gadget_phase(rows, decomposer, input, key, k, size, t, (n - 1) as nat);
        let levels = decomposer.level_count() as nat;
        let first = (n - 1) * decomposer.level_count();
        let x = input[n - 1] as int;
        lemma_block_phase(rows, decomposer, x, first, key, k, size, t, levels);
        let before = gadget_entries(rows, decomposer, input, (n - 1) as nat);
        let block = block_entries(rows, decomposer, x, first, levels);
        assert forall|f: int| 0 <= f < (k + 1) * size implies #[trigger] now(f) == before(f) + 1
            * block(f) by {
            assert(1 * block(f) == block(f)) by (nonlinear_arith);
        }
        lemma_phase_linear(now, before, block, 1, key, k, size, t);
        let p = ring_phase(block, key, k, size, t);
        assert(1 * p == p) by (nonlinear_arith);
    }
}

/// The phase of a generated row is congruent, in slot 0, to the scaled source
/// coefficient plus the row's noise, and in every other slot to the row's noise.
proof fn lemma_row_phase(
    key: LwePackingKeyswitchKey,
    source: Seq<u64>,
    destination: Seq<u64>,
    mask_samples: Seq<u64>,
    noise_samples: Seq<u64>,
    i: int,
    level: nat,
    t: int,
)
    requires
        key.wf(),
        key.generated_from(
            source,
            destination,
            key.output_glwe_dimension() as nat,
            key.output_polynomial_size() as int,
            mask_samples,
            noise_samples,
        ),
        0 <= i < source.len(),
        1 <= level <= key.decomposer().level_count(),
        0 <= t < key.output_polynomial_size(),
    ensures
        congruent(
            ring_phase(
                entries(key.row(i, level)),
                destination,
                key.output_glwe_dimension() as nat,
                key.output_polynomial_size() as int,
                t,
            ),
            (if t == 0 {
                source[i] * key.decomposer().scaling_factor(level)
            } else {
                0
            }) + noise_samples[(i * key.decomposer().level_count() + level - 1)
                * key.output_polynomial_size() + t],
            key.ciphertext_modulus().value() as int,
        ),
{
    key.lemma_wf();
    let decomposer = key.decomposer();
    decomposer.lemma_wf();
    let modulus = decomposer.modulus();
    modulus.lemma_wf();
    let m = modulus.value() as int;
    let levels = decomposer.level_count() as int;
    let k = key.output_glwe_dimension() as nat;
    let size = key.output_polynomial_size() as int;
    let r = i * levels + level - 1;
    let row = key.row(i, level);
    let count = source.len() * levels;
    lemma_row_index(i, level - 1, source.len() as int, levels);
    assert(0 <= r < count);
    // the windows of the row's samples lie inside the samples
    assert(0 <= r * (k * size) && r * (k * size) + k * size <= count * (k * size) && 0 <= r
        * size && r * size + size <= count * size && 0 <= k * size) by (nonlinear_arith)
        requires
            0 <= r < count,
            0 <= size,
            0 <= k,
    ;
    let mask_window = mask_samples.subrange(r * (k * size), r * (k * size) + k * size);
    let noise_window = noise_samples.subrange(r * size, r * size + size);
    let plaintext = constant_polynomial(source[i] * decomposer.scaling_factor(level), size);
    assert(row == glwe_encryption(
        destination,
        k,
        size,
        plaintext,
        mask_window,
        noise_window,
        modulus,
    ));
    lemma_glwe_phase_of_encryption(
        destination,
        k,
        size,
        plaintext,
        mask_window,
        noise_window,
        modulus,
        t,
    );
    lemma_phase_of_entries(row, destination, k, size, t, modulus);
    assert(noise_window[t] == noise_samples[r * size + t]);
}

/// The block phase of a mask entry is congruent, in slot 0, to the source coefficient
/// times the entry's partial recomposition, plus the key noise that the entry picks
/// up; in every other slot, to that key noise.
proof fn lemma_block_phase_congruent(
    key: LwePackingKeyswitchKey,
    source: Seq<u64>,
    destination: Seq<u64>,
    mask_samples: Seq<u64>,
    noise_samples: Seq<u64>,
    x: int,
    i: int,
    t: int,
    levels_done: nat,
)
    requires
        key.wf(),
        key.generated_from(
            source,
            destination,
            key.output_glwe_dimension() as nat,
            key.output_polynomial_size() as int,
            mask_samples,
            noise_samples,
        ),
        0 <= i < source.len(),
        0 <= t < key.output_polynomial_size(),
        levels_done <= key.decomposer().level_count(),
    ensures
        congruent(
            block_phase(
                key.rows(),
                key.decomposer(),
                x,
                i * key.decomposer().level_count(),
                destination,
                key.output_glwe_dimension() as nat,
                key.output_polynomial_size() as int,
                t,
                levels_done,
            ),
            (if t == 0 {
                source[i] * key.decomposer().partial_recomposition(x, levels_done)
            } else {
                0
            }) + block_packing_noise(
                key.decomposer(),
                x,
                noise_samples,
                i * key.decomposer().level_count(),
                key.output_polynomial_size() as int,
                t,
                levels_done,
            ),
            key.ciphertext_modulus().value() as int,
        ),
    decreases levels_done,
{
    key.lemma_wf();
    let decomposer = key.decomposer();
    decomposer.lemma_wf();
    decomposer.modulus().lemma_wf();
    let m = decomposer.modulus().value() as int;
    let k = key.output_glwe_dimension() as nat;
    let size = key.output_polynomial_size() as int;
    let first = i * decomposer.level_count();
    if levels_done > 0 {
        let level = levels_done;
        let before = (levels_done - 1) as nat;
        lemma_block_phase_congruent(
            key,
            source,
            destination,
            mask_samples,
            noise_samples,
            x,
            i,
            t,
            before,
        );
        lemma_row_phase(key, source, destination, mask_samples, noise_samples, i, level, t);
        let d = decomposer.digit(x, level);
        let s = source[i] as int;
        let scale = decomposer.scaling_factor(level) as int;
        let e = noise_samples[(first + level - 1) * size + t] as int;
        let phase = ring_phase(entries(key.row(i, level)), destination, k, size, t);
        let plain = if t == 0 {
            s * scale
        } else {
            0
        };
        assert(key.row(i, level) == key.rows()[first + level - 1]);
        lemma_congruent_mul(d, phase, plain + e, m);
        let p = decomposer.partial_recomposition(x, before);
        let known = (if t == 0 {
            s * p
        } else {
            0
        }) + block_packing_noise(decomposer, x, noise_samples, first, size, t, before);
        lemma_congruent_add(
            block_phase(key.rows(), decomposer, x, first, destination, k, size, t, before),
            known,
            d * phase,
            d * (plain + e),
            m,
        );
        if t == 0 {
            assert(s * p + d * (s * scale + e) == s * (p + d * scale) + d * e)
                by (nonlinear_arith);
        } else {
            assert(d * (0 + e) == d * e) by (nonlinear_arith);
        }
    }
}

/// The gadget phase of an input's mask is congruent, in slot 0, to the mask times the
/// source key, plus the rounding noise, plus the key noise; in every other slot, to
/// the key noise.
proof fn lemma_gadget_phase_congruent(
    key: LwePackingKeyswitchKey,
    source: Seq<u64>,
    destination: Seq<u64>,
    mask_samples: Seq<u64>,
    noise_samples: Seq<u64>,
    input: Seq<u64>,
    t: int,
    n: nat,
)
    requires
        key.wf(),
        key.generated_from(
            source,
            destination,
            key.output_glwe_dimension() as nat,
            key.output_polynomial_size() as int,
            mask_samples,
            noise_samples,
        ),
        0 <= t < key.output_polynomial_size(),
        n <= source.len(),
    ensures
        congruent(
            gadget_phase(
                key.rows(),
                key.decomposer(),
                input,
                destination,
                key.output_glwe_dimension() as nat,
                key.output_polynomial_size() as int,
                t,
                n,
            ),
            (if t == 0 {
                dot(input, source, n) + rounding_noise(key.decomposer(), source, input, n)
            } else {
                0
            }) + packing_key_noise(
                key.decomposer(),
                input,
                noise_samples,
                key.output_polynomial_size() as int,
                t,
                n,
            ),
            key.ciphertext_modulus().value() as int,
        ),
    decreases n,
{
    key.lemma_wf();
    let decomposer = key.decomposer();
    decomposer.lemma_wf();
    decomposer.modulus().lemma_wf();
    let m = decomposer.modulus().value() as int;
    let k = key.output_glwe_dimension() as nat;
    let size = key.output_polynomial_size() as int;
    if n > 0 {
        let i = (n - 1) as int;
        let before = (n - 1) as nat;
        let levels = decomposer.level_count() as nat;
        let x = input[i] as int;
        let s = source[i] as int;
        lemma_gadget_phase_congruent(
            key,
            source,
            destination,
            mask_samples,
            noise_samples,
            input,
            t,
            before,
        );
        lemma_block_phase_congruent(
            key,
            source,
            destination,
            mask_samples,
            noise_samples,
            x,
            i,
            t,
            levels,
        );
        let noise = block_packing_noise(decomposer, x, noise_samples, i * levels, size, t, levels);
        let block = block_phase(key.rows(), decomposer, x, i * levels, destination, k, size, t, levels);
        let closest = decomposer.closest_representable(x);
        let settled = (if t == 0 {
            s * closest
        } else {
            0
        }) + noise;
        if t == 0 {
            decomposer.lemma_recomposition(x);
            let recomposed = decomposer.recomposition(x);
            lemma_congruent_mul(s, recomposed, closest, m);
            lemma_congruent_add(s * recomposed, s * closest, noise, noise, m);
        }
        assert(congruent(block, settled, m));
        let known = (if t == 0 {
            dot(input, source, before) + rounding_noise(decomposer, source, input, before)
        } else {
            0
        }) + packing_key_noise(decomposer, input, noise_samples, size, t, before);
        lemma_congruent_add(
            gadget_phase(key.rows(), decomposer, input, destination, k, size, t, before),
            known,
            block,
            settled,
            m,
        );
        assert(s * closest == x * s + s * (closest - x)) by (nonlinear_arith);
    }
}

/// Before reduction, the phase of one input switched to the GLWE key is congruent
/// to its unit phase.
proof fn lemma_unit_phase(
    key: LwePackingKeyswitchKey,
    source: Seq<u64>,
    destination: Seq<u64>,
    mask_samples: Seq<u64>,
    noise_samples: Seq<u64>,
    input: Seq<u64>,
    t: int,
)
    requires
        key.wf(),
        key.generated_from(
            source,
            destination,
            key.output_glwe_dimension() as nat,
            key.output_polynomial_size() as int,
            mask_samples,
            noise_samples,
        ),
        0 <= t < key.output_polynomial_size(),
    ensures
        congruent(
            ring_phase(
                unit_entries(key, input),
                destination,
                key.output_glwe_dimension() as nat,
                key.output_polynomial_size() as int,
                t,
            ),
            unit_phase(key, source, noise_samples, input, t),
            key.ciphertext_modulus().value() as int,
        ),
{
    key.lemma_wf();
    let decomposer = key.decomposer();
    decomposer.lemma_wf();
    decomposer.modulus().lemma_wf();
    let m = decomposer.modulus().value() as int;
    let k = key.output_glwe_dimension() as nat;
    let size = key.output_polynomial_size() as int;
    let n = source.len();
    let unit = unit_entries(key, input);
    let trivial = trivial_entries(key, input);
    let gadget = gadget_entries(key.rows(), decomposer, input, n);
    assert forall|f: int| 0 <= f < (k + 1) * size implies #[trigger] unit(f) == trivial(f) + (-1)
        * gadget(f) by {
        assert((-1) * gadget(f) == -gadget(f)) by (nonlinear_arith);
    }
    lemma_phase_linear(unit, trivial, gadget, -1, destination, k, size, t);
    lemma_trivial_phase(key, input, destination, t);
    lemma_gadget_phase(key.rows(), decomposer, input, destination, k, size, t, n);
    lemma_gadget_phase_congruent(
        key,
        source,
        destination,
        mask_samples,
        noise_samples,
        input,
        t,
        n,
    );
    let trivial_phase = ring_phase(trivial, destination, k, size, t);
    let gadget_phase_now = ring_phase(gadget, destination, k, size, t);
    let settled = (if t == 0 {
        dot(input, source, n) + rounding_noise(decomposer, source, input, n)
    } else {
        0
    }) + packing_key_noise(decomposer, input, noise_samples, size, t, n);
    assert((-1) * gadget_phase_now == -gadget_phase_now) by (nonlinear_arith);
    lemma_congruent_sub(trivial_phase, trivial_phase, gadget_phase_now, settled, m);
}

/// The phase of the trivial encryption of the input's body is the body in slot 0
/// and zero elsewhere.
proof fn lemma_trivial_phase(
    key: LwePackingKeyswitchKey,
    input: Seq<u64>,
    destination: Seq<u64>,
    t: int,
)
    requires
        key.wf(),
        0 <= t < key.output_polynomial_size(),
    ensures
        ring_phase(
            trivial_entries(key, input),
            destination,
            key.output_glwe_dimension() as nat,
            key.output_polynomial_size() as int,
            t,
        ) == (if t == 0 {
            input[key.input_key_lwe_dimension() as int] as int
        } else {
            0
        }),
{
    key.lemma_wf();
    let k = key.output_glwe_dimension() as nat;
    let size = key.output_polynomial_size() as int;
    lemma_phase_mask_zero(trivial_entries(key, input), destination, k, size, t);
}

/// The placed entries of one input are congruent to the unreduced unit multiplied
/// by `X^slot`.
proof fn lemma_placed_entry_congruent(
    key: LwePackingKeyswitchKey,
    input: Seq<u64>,
    slot: int,
    f: int,
)
    requires
        key.wf(),
    ensures
        congruent(
            placed_entry(key, input, slot, f),
            rotated(unit_entries(key, input), key.output_polynomial_size() as int, slot)(f),
            key.ciphertext_modulus().value() as int,
        ),
{
    key.lemma_wf();
    key.decomposer().lemma_wf();
    key.ciphertext_modulus().lemma_wf();
    let m = key.ciphertext_modulus().value() as int;
    let size = key.output_polynomial_size() as int;
    let unit = unit_entries(key, input);
    if f % size >= slot {
        assert(unit_entry(key, input, f - slot) == unit(f - slot) % m);
        lemma_congruent_residue(unit(f - slot), m);
    } else {
        let g = f + size - slot;
        assert(unit_entry(key, input, g) == unit(g) % m);
        lemma_sub_mod_noop_right(0, unit(g), m);
        lemma_congruent_residue(0 - unit(g) % m, m);
    }
}

/// The sum of the placed entries is congruent to the sum of the unreduced units.
proof fn lemma_packed_sum_congruent(
    key: LwePackingKeyswitchKey,
    inputs: Seq<Seq<u64>>,
    f: int,
    n: nat,
)
    requires
        key.wf(),
    ensures
        congruent(
            packed_sum(key, inputs, f, n),
            placed_total(key, inputs, f, n),
            key.ciphertext_modulus().value() as int,
        ),
    decreases n,
{
    key.lemma_wf();
    key.decomposer().lemma_wf();
    key.ciphertext_modulus().lemma_wf();
    let m = key.ciphertext_modulus().value() as int;
    if n > 0 {
        lemma_packed_sum_congruent(key, inputs, f, (n - 1) as nat);
        lemma_placed_entry_congruent(key, inputs[n - 1], n - 1, f);
        lemma_congruent_add(
            packed_sum(key, inputs, f, (n - 1) as nat),
            placed_total(key, inputs, f, (n - 1) as nat),
            placed_entry(key, inputs[n - 1], n - 1, f),
            rotated(unit_entries(key, inputs[n - 1]), key.output_polynomial_size() as int, n - 1)(
                f,
            ),
            m,
        );
    }
}

/// The phase of the sum of the unreduced units is congruent to the packed phase.
proof fn lemma_placed_totals_phase(
    key: LwePackingKeyswitchKey,
    source: Seq<u64>,
    destination: Seq<u64>,
    mask_samples: Seq<u64>,
    noise_samples: Seq<u64>,
    inputs: Seq<Seq<u64>>,
    t: int,
    n: nat,
)
    requires
        key.wf(),
        key.generated_from(
            source,
            destination,
            key.output_glwe_dimension() as nat,
            key.output_polynomial_size() as int,
            mask_samples,
            noise_samples,
        ),
        0 <= t < key.output_polynomial_size(),
        n <= key.output_polynomial_size(),
    ensures
        congruent(
            ring_phase(
                placed_totals(key, inputs, n),
                destination,
                key.output_glwe_dimension() as nat,
                key.output_polynomial_size() as int,
                t,
            ),
            packed_phase(key, source, noise_samples, inputs, t, n),
            key.ciphertext_modulus().value() as int,
        ),
    decreases n,
{
    key.lemma_wf();
    key.decomposer().lemma_wf();
    key.ciphertext_modulus().lemma_wf();
    let m = key.ciphertext_modulus().value() as int;
    let k = key.output_glwe_dimension() as nat;
    let size = key.output_polynomial_size() as int;
    let now = placed_totals(key, inputs, n);
    if n == 0 {
        lemma_phase_of_zero(now, destination, k, size, t);
    } else {
        let j = (n - 1) as int;
        let before = placed_totals(key, inputs, (n - 1) as nat);
        let unit = unit_entries(key, inputs[j]);
        let placed = rotated(unit, size, j);
        lemma_placed_totals_phase(
            key,
            source,
            destination,
            mask_samples,
            noise_samples,
            inputs,
            t,
            (n - 1) as nat,
        );
        assert forall|f: int| 0 <= f < (k + 1) * size implies #[trigger] now(f) == before(f) + 1
            * placed(f) by {
            assert(1 * placed(f) == placed(f)) by (nonlinear_arith);
        }
        lemma_phase_linear(now, before, placed, 1, destination, k, size, t);
        lemma_phase_rotated(unit, destination, k, size, t, j);
        let sign = rotation_sign(j, t);
        let from = rotation_source(size, j, t);
        lemma_unit_phase(key, source, destination, mask_samples, noise_samples, inputs[j], from);
        let plain = ring_phase(unit, destination, k, size, from);
        let settled = unit_phase(key, source, noise_samples, inputs[j], from);
        lemma_congruent_mul(sign, plain, settled, m);
        let moved = ring_phase(placed, destination, k, size, t);
        assert(1 * moved == moved) by (nonlinear_arith);
        lemma_congruent_add(
            ring_phase(before, destination, k, size, t),
            packed_phase(key, source, noise_samples, inputs, t, (n - 1) as nat),
            sign * plain,
            sign * settled,
            m,
        );
    }
}

/// Under the destination key, the slot `t` of the phase of a packed ciphertext is
/// the sum over the inputs of each input's unit phase multiplied by `X^j`: the
/// phase of input `t` minus its rounding noise, and a signed sum of key noise from
/// all inputs.
///
/// It holds for every key whose rows are the encryptions that generation makes, and
/// for every list of no more inputs than the key has slots.
pub proof fn lemma_packing_phase(
    key: LwePackingKeyswitchKey,
    source: Seq<u64>,
    destination: Seq<u64>,
    mask_samples: Seq<u64>,
    noise_samples: Seq<u64>,
    inputs: Seq<Seq<u64>>,
    t: int,
)
    requires
        key.wf(),
        key.generated_from(
            source,
            destination,
            key.output_glwe_dimension() as nat,
            key.output_polynomial_size() as int,
            mask_samples,
            noise_samples,
        ),
        inputs.len() <= key.output_polynomial_size(),
        0 <= t < key.output_polynomial_size(),
    ensures
        glwe_phase(
            packed_result(key, inputs),
            destination,
            key.output_glwe_dimension() as nat,
            key.output_polynomial_size() as int,
            t,
            key.ciphertext_modulus(),
        ) == packed_phase(key, source, noise_samples, inputs, t, inputs.len()) % (
        key.ciphertext_modulus().value() as int),
{
    key.lemma_wf();
    key.decomposer().lemma_wf();
    let modulus = key.ciphertext_modulus();
    modulus.lemma_wf();
    let m = modulus.value() as int;
    let k = key.output_glwe_dimension() as nat;
    let size = key.output_polynomial_size() as int;
    let n = inputs.len();
    let packed = packed_result(key, inputs);
    let reduced = entries(packed);
    let total = placed_totals(key, inputs, n);
    assert forall|f: int| 0 <= f < (k + 1) * size implies (#[trigger] reduced(f)) % m == total(f)
        % m by {
        let sum = packed_sum(key, inputs, f, n);
        lemma_mod_bound(sum, m);
        assert(packed[f] == sum % m);
        lemma_congruent_residue(sum, m);
        lemma_packed_sum_congruent(key, inputs, f, n);
    }
    lemma_phase_congruent(reduced, total, destination, k, size, t, m);
    lemma_placed_totals_phase(
        key,
        source,
        destination,
        mask_samples,
        noise_samples,
        inputs,
        t,
        n,
    );
    lemma_phase_of_entries(packed, destination, k, size, t, modulus);
}

/// The key noise that one mask entry picks up in slot `t`, with the noise taken as
/// signed numbers.
pub open spec fn block_packing_signed_noise(
    decomposer: SignedDecomposer,
    x: int,
    noise_samples: Seq<u64>,
    first: int,
    size: int,
    t: int,
    m: nat,
) -> int
    decreases m,
{
    if m == 0 {
        0
    } else {
        block_packing_signed_noise(decomposer, x, noise_samples, first, size, t, (m - 1) as nat)
            + decomposer.digit(x, m) * centered(
            noise_samples[(first + m - 1) * size + t] as int,
            decomposer.modulus().value() as int,
        )
    }
}

/// The key noise in slot `t` of the first `n` mask entries, with the noise taken as
/// signed numbers.
pub open spec fn packing_signed_key_noise(
    decomposer: SignedDecomposer,
    input: Seq<u64>,
    noise_samples: Seq<u64>,
    size: int,
    t: int,
    n: nat,
) -> int
    decreases n,
{
    if n == 0 {
        0
    } else {
        packing_signed_key_noise(decomposer, input, noise_samples, size, t, (n - 1) as nat)
            + block_packing_signed_noise(
            decomposer,
            input[n - 1] as int,
            noise_samples,
            (n - 1) * decomposer.level_count(),
            size,
            t,
            decomposer.level_count() as nat,
        )
    }
}

/// The key noise in slot `t` of a packed ciphertext, with the noise taken as signed
/// numbers.
pub open spec fn packed_signed_key_noise(
    key: LwePackingKeyswitchKey,
    noise_samples: Seq<u64>,
    inputs: Seq<Seq<u64>>,
    t: int,
    n: nat,
) -> int
    decreases n,
{
    if n == 0 {
        0
    } else {
        packed_signed_key_noise(key, noise_samples, inputs, t, (n - 1) as nat) + rotation_sign(
            n - 1,
            t,
        ) * packing_signed_key_noise(
            key.decomposer(),
            inputs[n - 1],
            noise_samples,
            key.output_polynomial_size() as int,
            rotation_source(key.output_polynomial_size() as int, n - 1, t),
            key.input_key_lwe_dimension() as nat,
        )
    }
}

/// Taking the noise as signed numbers changes a block's key noise in a slot by a
/// multiple of the modulus only, and bounds it by `m * (B/2) * bound`.
proof fn lemma_block_packing_signed_noise(
    decomposer: SignedDecomposer,
    x: int,
    noise_samples: Seq<u64>,
    first: int,
    size: int,
    t: int,
    m: nat,
    bound: nat,
)
    requires
        decomposer.wf(),
        m <= decomposer.level_count(),
        0 <= first,
        0 <= t < size,
        noise_within(
            noise_samples,
            (first + decomposer.level_count()) * size,
            bound,
            decomposer.modulus().value() as int,
        ),
    ensures
        congruent(
            block_packing_noise(decomposer, x, noise_samples, first, size, t, m),
            block_packing_signed_noise(decomposer, x, noise_samples, first, size, t, m),
            decomposer.modulus().value() as int,
        ),
        -(m * decomposer.base() * bound) <= 2 * block_packing_signed_noise(
            decomposer,
            x,
            noise_samples,
            first,
            size,
            t,
            m,
        ) <= m * decomposer.base() * bound,
    decreases m,
{
    decomposer.lemma_wf();
    decomposer.modulus().lemma_wf();
    let modulus = decomposer.modulus().value() as int;
    let base = decomposer.base() as int;
    if m == 0 {
        assert(0 * base * bound == 0) by (nonlinear_arith);
    } else {
        let before = (m - 1) as nat;
        lemma_block_packing_signed_noise(
            decomposer,
            x,
            noise_samples,
            first,
            size,
            t,
            before,
            bound,
        );
        let d = decomposer.digit(x, m);
        let r = first + m - 1;
        let rows = first + decomposer.level_count();
        assert(0 <= r * size + t < rows * size) by (nonlinear_arith)
            requires
                0 <= r < rows,
                0 <= t < size,
        ;
        let e = noise_samples[r * size + t] as int;
        let c = centered(e, modulus);
        decomposer.lemma_digit_range(x, m);
        assert(congruent(e, c, modulus)) by {
            if c != e {
                lemma_mod_multiples_vanish(-1, e, modulus);
            }
        }
        lemma_congruent_mul(d, e, c, modulus);
        lemma_congruent_add(
            block_packing_noise(decomposer, x, noise_samples, first, size, t, before),
            block_packing_signed_noise(decomposer, x, noise_samples, first, size, t, before),
            d * e,
            d * c,
            modulus,
        );
        assert(-(base * bound) <= 2 * (d * c) <= base * bound) by (nonlinear_arith)
            requires
                -base <= 2 * d <= base,
                -(bound as int) <= c <= bound,
                0 <= base,
        ;
        assert(m * base * bound == before * base * bound + base * bound) by (nonlinear_arith)
            requires
                m == before + 1,
        ;
    }
}

/// Taking the noise as signed numbers changes an input's key noise in a slot by a
/// multiple of the modulus only, and bounds it by `n * L * (B/2) * bound`.
proof fn lemma_packing_signed_key_noise(
    decomposer: SignedDecomposer,
    input: Seq<u64>,
    noise_samples: Seq<u64>,
    size: int,
    t: int,
    n: nat,
    bound: nat,
)
    requires
        decomposer.wf(),
        0 <= t < size,
        noise_within(
            noise_samples,
            n * decomposer.level_count() * size,
            bound,
            decomposer.modulus().value() as int,
        ),
    ensures
        congruent(
            packing_key_noise(decomposer, input, noise_samples, size, t, n),
            packing_signed_key_noise(decomposer, input, noise_samples, size, t, n),
            decomposer.modulus().value() as int,
        ),
        -(n * decomposer.level_count() * decomposer.base() * bound) <= 2
            * packing_signed_key_noise(decomposer, input, noise_samples, size, t, n) <= n
            * decomposer.level_count() * decomposer.base() * bound,
    decreases n,
{
    decomposer.lemma_wf();
    decomposer.modulus().lemma_wf();
    let modulus = decomposer.modulus().value() as int;
    let base = decomposer.base() as int;
    let levels = decomposer.level_count() as int;
    if n == 0 {
        assert(0 * levels * base * bound == 0) by (nonlinear_arith);
    } else {
        let before = (n - 1) as nat;
        let first = before * levels;
        assert(0 <= first && (first + levels) * size == n * levels * size && before * levels
            * size <= n * levels * size) by (nonlinear_arith)
            requires
                first == before * levels,
                n == before + 1,
                0 <= levels,
                0 <= size,
        ;
        lemma_packing_signed_key_noise(decomposer, input, noise_samples, size, t, before, bound);
        lemma_block_packing_signed_noise(
            decomposer,
            input[n - 1] as int,
            noise_samples,
            first,
            size,
            t,
            levels as nat,
            bound,
        );
        lemma_congruent_add(
            packing_key_noise(decomposer, input, noise_samples, size, t, before),
            packing_signed_key_noise(decomposer, input, noise_samples, size, t, before),
            block_packing_noise(
                decomposer,
                input[n - 1] as int,
                noise_samples,
                first,
                size,
                t,
                levels as nat,
            ),
            block_packing_signed_noise(
                decomposer,
                input[n - 1] as int,
                noise_samples,
                first,
                size,
                t,
                levels as nat,
            ),
            modulus,
        );
        assert(n * levels * base * bound == before * levels * base * bound + levels * base
            * bound) by (nonlinear_arith)
            requires
                n == before + 1,
        ;
    }
}

/// Taking the noise as signed numbers changes the key noise of a packed slot by a
/// multiple of the modulus only, and bounds it: with every sample at most `bound` in
/// magnitude, it is at most `count * n * L * (B/2) * bound` either way.
pub proof fn lemma_packed_signed_key_noise(
    key: LwePackingKeyswitchKey,
    noise_samples: Seq<u64>,
    inputs: Seq<Seq<u64>>,
    t: int,
    count: nat,
    bound: nat,
)
    requires
        key.wf(),
        0 <= t < key.output_polynomial_size(),
        count <= key.output_polynomial_size(),
        noise_within(
            noise_samples,
            key.input_key_lwe_dimension() * key.decomposer().level_count()
                * key.output_polynomial_size(),
            bound,
            key.ciphertext_modulus().value() as int,
        ),
    ensures
        congruent(
            packed_key_noise(key, noise_samples, inputs, t, count),
            packed_signed_key_noise(key, noise_samples, inputs, t, count),
            key.ciphertext_modulus().value() as int,
        ),
        -(count * (key.input_key_lwe_dimension() * key.decomposer().level_count()
            * key.decomposer().base() * bound)) <= 2 * packed_signed_key_noise(
            key,
            noise_samples,
            inputs,
            t,
            count,
        ) <= count * (key.input_key_lwe_dimension() * key.decomposer().level_count()
            * key.decomposer().base() * bound),
    decreases count,
{
    key.lemma_wf();
    let decomposer = key.decomposer();
    decomposer.lemma_wf();
    decomposer.modulus().lemma_wf();
    let modulus = decomposer.modulus().value() as int;
    let size = key.output_polynomial_size() as int;
    let n = key.input_key_lwe_dimension() as nat;
    let each = n * decomposer.level_count() * decomposer.base() * bound;
    if count == 0 {
        assert(0 * each == 0) by (nonlinear_arith);
    } else {
        let j = (count - 1) as int;
        lemma_packed_signed_key_noise(key, noise_samples, inputs, t, (count - 1) as nat, bound);
        let sign = rotation_sign(j, t);
        let from = rotation_source(size, j, t);
        lemma_packing_signed_key_noise(decomposer, inputs[j], noise_samples, size, from, n, bound);
        let plain = packing_key_noise(decomposer, inputs[j], noise_samples, size, from, n);
        let signed = packing_signed_key_noise(decomposer, inputs[j], noise_samples, size, from, n);
        lemma_congruent_mul(sign, plain, signed, modulus);
        lemma_congruent_add(
            packed_key_noise(key, noise_samples, inputs, t, (count - 1) as nat),
            packed_signed_key_noise(key, noise_samples, inputs, t, (count - 1) as nat),
            sign * plain,
            sign * signed,
            modulus,
        );
        assert(-each <= 2 * (sign * signed) <= each) by (nonlinear_arith)
            requires
                sign == 1 || sign == -1,
                -each <= 2 * signed <= each,
        ;
        assert(count * each == (count - 1) * each + each) by (nonlinear_arith);
    }
}

/// The most that packing moves the phase of a slot, doubled: the rounding of the
/// slot's own input, and the key noise of `count` inputs.
pub open spec fn packing_growth_bound(
    decomposer: SignedDecomposer,
    n: nat,
    count: nat,
    key_bound: nat,
    noise_bound: nat,
) -> int {
    n * key_bound * decomposer.step() + count * (n * decomposer.level_count()
        * decomposer.base() * noise_bound)
}

/// The phase that the slot `t` is meant to hold: the phase of input `t` under the
/// source key, not reduced, or zero where there is no input `t`.
pub open spec fn slot_phase(source: Seq<u64>, inputs: Seq<Seq<u64>>, t: int) -> int {
    if t < inputs.len() {
        inputs[t][source.len() as int] - dot(inputs[t], source, source.len())
    } else {
        0
    }
}

/// Packing moves the phase of each slot by a bounded amount: with every source
/// coefficient at most `key_bound` and every noise sample of the key at most
/// `noise_bound` in magnitude, the phase of slot `t` is the phase of input `t`, or
/// zero in an empty slot, plus some `delta` of at most half the growth bound either
/// way.
pub proof fn lemma_packing_noise_growth(
    key: LwePackingKeyswitchKey,
    source: Seq<u64>,
    destination: Seq<u64>,
    mask_samples: Seq<u64>,
    noise_samples: Seq<u64>,
    inputs: Seq<Seq<u64>>,
    t: int,
    key_bound: nat,
    noise_bound: nat,
) -> (delta: int)
    requires
        key.wf(),
        key.generated_from(
            source,
            destination,
            key.output_glwe_dimension() as nat,
            key.output_polynomial_size() as int,
            mask_samples,
            noise_samples,
        ),
        inputs.len() <= key.output_polynomial_size(),
        0 <= t < key.output_polynomial_size(),
        forall|i: int| 0 <= i < source.len() ==> #[trigger] source[i] <= key_bound,
        noise_within(
            noise_samples,
            source.len() * key.decomposer().level_count() * key.output_polynomial_size(),
            noise_bound,
            key.ciphertext_modulus().value() as int,
        ),
    ensures
        glwe_phase(
            packed_result(key, inputs),
            destination,
            key.output_glwe_dimension() as nat,
            key.output_polynomial_size() as int,
            t,
            key.ciphertext_modulus(),
        ) == (slot_phase(source, inputs, t) + delta) % (key.ciphertext_modulus().value() as int),
        -packing_growth_bound(
            key.decomposer(),
            source.len(),
            inputs.len(),
            key_bound,
            noise_bound,
        ) <= 2 * delta <= packing_growth_bound(
            key.decomposer(),
            source.len(),
            inputs.len(),
            key_bound,
            noise_bound,
        ),
{
    key.lemma_wf();
    let decomposer = key.decomposer();
    decomposer.lemma_wf();
    decomposer.modulus().lemma_wf();
    let m = decomposer.modulus().value() as int;
    let n = source.len();
    let count = inputs.len();
    let step = decomposer.step() as int;
    lemma_packing_phase(key, source, destination, mask_samples, noise_samples, inputs, t);
    lemma_packed_phase_by_slot(key, source, noise_samples, inputs, t, count);
    lemma_packed_signed_key_noise(key, noise_samples, inputs, t, count, noise_bound);
    let rounding = if t < count {
        rounding_noise(decomposer, source, inputs[t], n)
    } else {
        0
    };
    if t < count {
        crate::noise::lemma_rounding_noise_bound(decomposer, source, inputs[t], n, key_bound);
    } else {
        assert(0 <= n * key_bound * step) by (nonlinear_arith)
            requires
                0 <= step,
        ;
    }
    let plain = packed_key_noise(key, noise_samples, inputs, t, count);
    let signed = packed_signed_key_noise(key, noise_samples, inputs, t, count);
    let meant = slot_phase(source, inputs, t);
    lemma_congruent_sub(meant - rounding, meant - rounding, plain, signed, m);
    -rounding - signed
}

/// Packing keeps the messages: when the input `t` encrypts `message` with the noise
/// `input_noise`, and that noise together with the most that packing moves the phase
/// is less than half a message step, the slot `t` of the packed ciphertext decrypts
/// under the destination key to the same message. An empty slot, taken with the
/// message zero and no input noise, decrypts to zero.
pub proof fn lemma_packing_recovers_message(
    key: LwePackingKeyswitchKey,
    source: Seq<u64>,
    destination: Seq<u64>,
    mask_samples: Seq<u64>,
    noise_samples: Seq<u64>,
    inputs: Seq<Seq<u64>>,
    t: int,
    key_bound: nat,
    noise_bound: nat,
    message: int,
    input_noise: int,
    bits: nat,
)
    requires
        key.wf(),
        key.generated_from(
            source,
            destination,
            key.output_glwe_dimension() as nat,
            key.output_polynomial_size() as int,
            mask_samples,
            noise_samples,
        ),
        inputs.len() <= key.output_polynomial_size(),
        0 <= t < key.output_polynomial_size(),
        forall|i: int| 0 <= i < source.len() ==> #[trigger] source[i] <= key_bound,
        noise_within(
            noise_samples,
            source.len() * key.decomposer().level_count() * key.output_polynomial_size(),
            noise_bound,
            key.ciphertext_modulus().value() as int,
        ),
        valid_message_bits(key.ciphertext_modulus().log2() as nat, bits),
        0 <= message < pow2(bits),
        congruent(
            slot_phase(source, inputs, t),
            encoded(message, key.ciphertext_modulus().log2() as nat, bits) + input_noise,
            key.ciphertext_modulus().value() as int,
        ),
        2 * input_noise + packing_growth_bound(
            key.decomposer(),
            source.len(),
            inputs.len(),
            key_bound,
            noise_bound,
        ) < message_step(key.ciphertext_modulus().log2() as nat, bits),
        -message_step(key.ciphertext_modulus().log2() as nat, bits) <= 2 * input_noise
            - packing_growth_bound(
            key.decomposer(),
            source.len(),
            inputs.len(),
            key_bound,
            noise_bound,
        ),
    ensures
        decoded(
            glwe_phase(
                packed_result(key, inputs),
                destination,
                key.output_glwe_dimension() as nat,
                key.output_polynomial_size() as int,
                t,
                key.ciphertext_modulus(),
            ),
            key.ciphertext_modulus().log2() as nat,
            bits,
        ) == message,
{
    key.lemma_wf();
    key.decomposer().lemma_wf();
    let modulus = key.ciphertext_modulus();
    modulus.lemma_wf();
    let m = modulus.value() as int;
    let q = modulus.log2() as nat;
    let delta = lemma_packing_noise_growth(
        key,
        source,
        destination,
        mask_samples,
        noise_samples,
        inputs,
        t,
        key_bound,
        noise_bound,
    );
    let meant = slot_phase(source, inputs, t);
    let after = glwe_phase(
        packed_result(key, inputs),
        destination,
        key.output_glwe_dimension() as nat,
        key.output_polynomial_size() as int,
        t,
        modulus,
    );
    let exact = encoded(message, q, bits) + input_noise;
    lemma_congruent_add(meant, exact, delta, delta, m);
    lemma_congruent_residue(meant + delta, m);
    lemma_decode_recovers(message, input_noise + delta, after, q, bits);
}

} // verus!
