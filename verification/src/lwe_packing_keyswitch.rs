//! The packing keyswitch: a list of LWE ciphertexts in, one GLWE ciphertext out that
//! holds the plaintext of input `j` in slot `j`.
//!
//! Each input is switched on its own to a GLWE ciphertext that holds its plaintext in slot 0:
//! the trivial encryption of the input's body minus the gadget product of the input's mask
//! with the key's rows. That ciphertext is multiplied by `X^j`, which moves the plaintext to
//! slot `j`, and the products are added up. Slots beyond the last input stay empty. The work
//! of one input does not depend on any other input, so the inputs may be done one after
//! the other or all at once; the sum is the same.

use crate::error::KeyswitchError;
use crate::gadget::{gadget_product, rows_view, sub_gadget_product};
use crate::glwe::{zeros, GlweCiphertext};
use crate::lwe::{all_reduced, LweCiphertext};
use crate::lwe_packing_keyswitch_key::LwePackingKeyswitchKey;
use crate::modulus::CiphertextModulus;
use vstd::arithmetic::div_mod::*;
use vstd::prelude::*;

verus! {

/// The ciphertexts as sequences of residues.
pub open spec fn ciphertexts_view(inputs: Seq<LweCiphertext>) -> Seq<Seq<u64>> {
    Seq::new(inputs.len(), |j: int| inputs[j]@)
}

/// The input has the key's source dimension and modulus.
pub open spec fn packing_input_compatible(
    key: LwePackingKeyswitchKey,
    input: LweCiphertext,
) -> bool {
    &&& input.lwe_dimension() == key.input_key_lwe_dimension()
    &&& input.modulus() == key.ciphertext_modulus()
}

/// The output has the key's destination shape and modulus.
pub open spec fn packing_output_compatible(
    key: LwePackingKeyswitchKey,
    output: GlweCiphertext,
) -> bool {
    &&& output.glwe_dimension() == key.output_glwe_dimension()
    &&& output.polynomial_size() == key.output_polynomial_size()
    &&& output.modulus() == key.ciphertext_modulus()
}

/// The entry `f` of one input switched to the GLWE key, its plaintext in slot 0: the
/// input's body at the body's constant coefficient, zero elsewhere, minus the
/// gadget product.
pub open spec fn unit_entry(key: LwePackingKeyswitchKey, input: Seq<u64>, f: int) -> int {
    let n_in = key.input_key_lwe_dimension() as nat;
    let body_start = key.output_glwe_dimension() * key.output_polynomial_size();
    ((if f == body_start {
        input[n_in as int] as int
    } else {
        0
    }) - gadget_product(key.rows(), key.decomposer(), input, f, n_in)) % (
    key.ciphertext_modulus().value() as int)
}

/// The entry `f` of that ciphertext times `X^slot`: each polynomial's coefficients
/// move up by `slot`, and those that pass the degree `N` come back negated.
pub open spec fn placed_entry(
    key: LwePackingKeyswitchKey,
    input: Seq<u64>,
    slot: int,
    f: int,
) -> int {
    let size = key.output_polynomial_size() as int;
    if f % size >= slot {
        unit_entry(key, input, f - slot)
    } else {
        (-unit_entry(key, input, f + size - slot)) % (key.ciphertext_modulus().value() as int)
    }
}

/// One input switched to the GLWE key with its plaintext in `slot`.
pub open spec fn placed_unit(key: LwePackingKeyswitchKey, input: Seq<u64>, slot: int) -> Seq<u64> {
    Seq::new(key.row_len() as nat, |f: int| placed_entry(key, input, slot, f) as u64)
}

/// The entry `f` of the sum of the first `n` inputs, input `j` placed in slot `j`.
pub open spec fn packed_sum(
    key: LwePackingKeyswitchKey,
    inputs: Seq<Seq<u64>>,
    f: int,
    n: nat,
) -> int
    decreases n,
{
    if n == 0 {
        0
    } else {
        packed_sum(key, inputs, f, (n - 1) as nat) + placed_entry(key, inputs[n - 1], n - 1, f)
    }
}

/// The packed ciphertext: entry by entry the residue of the sum over all inputs.
pub open spec fn packed_result(key: LwePackingKeyswitchKey, inputs: Seq<Seq<u64>>) -> Seq<u64> {
    Seq::new(
        key.row_len() as nat,
        |f: int|
            (packed_sum(key, inputs, f, inputs.len()) % (
            key.ciphertext_modulus().value() as int)) as u64,
    )
}

/// Inputs and output fit the key, and there are no more inputs than slots.
pub open spec fn packing_compatible(
    key: LwePackingKeyswitchKey,
    inputs: Seq<LweCiphertext>,
    output: GlweCiphertext,
) -> bool {
    &&& inputs.len() <= key.output_polynomial_size()
    &&& packing_output_compatible(key, output)
    &&& forall|j: int| 0 <= j < inputs.len() ==> packing_input_compatible(key, #[trigger] inputs[j])
}

/// The error that a packing call reports: too many inputs is a parameter error, any
/// other misfit a dimension mismatch.
pub open spec fn packing_error(
    key: LwePackingKeyswitchKey,
    inputs: Seq<LweCiphertext>,
) -> KeyswitchError {
    if inputs.len() > key.output_polynomial_size() {
        KeyswitchError::ParameterError
    } else {
        KeyswitchError::DimensionMismatch
    }
}

/// A placed entry is a reduced residue.
pub proof fn lemma_placed_entry_bound(
    key: LwePackingKeyswitchKey,
    input: Seq<u64>,
    slot: int,
    f: int,
)
    requires
        key.wf(),
    ensures
        0 <= placed_entry(key, input, slot, f) < key.ciphertext_modulus().value(),
{
    key.lemma_wf();
    key.decomposer().lemma_wf();
    key.ciphertext_modulus().lemma_wf();
    let m = key.ciphertext_modulus().value() as int;
    let n_in = key.input_key_lwe_dimension() as nat;
    let size = key.output_polynomial_size() as int;
    let body_start = key.output_glwe_dimension() * key.output_polynomial_size();
    if f % size >= slot {
        let g = f - slot;
        lemma_mod_bound(
            (if g == body_start {
                input[n_in as int] as int
            } else {
                0
            }) - gadget_product(key.rows(), key.decomposer(), input, g, n_in),
            m,
        );
    } else {
        lemma_mod_bound(-unit_entry(key, input, f + size - slot), m);
    }
}

/// The unit of one input: its plaintext in slot 0.
fn switch_to_glwe(key: &LwePackingKeyswitchKey, input: &LweCiphertext) -> (unit: Vec<u64>)
    requires
        packing_input_compatible(*key, *input),
    ensures
        unit@.len() == key.row_len(),
        all_reduced(unit@, key.ciphertext_modulus()),
        forall|f: int| 0 <= f < unit@.len() ==> #[trigger] unit@[f] == unit_entry(*key, input@, f),
{
    let modulus = key.ciphertext_modulus();
    let n_in = input.lwe_dimension();
    let k = key.output_glwe_dimension();
    let size = key.output_polynomial_size();
    let decomposer = key.decomposer();
    let rows = key.as_rows();
    let data = input.as_container();
    proof {
        use_type_invariant(key);
        key.lemma_wf();
        modulus.lemma_wf();
        assert((k + 1) * size == k * size + size) by (nonlinear_arith);
        assert(0 <= k * size) by (nonlinear_arith);
    }
    let body_start = k * size;
    let mut acc = zeros(body_start + size);
    acc.set(body_start, input.body());
    let ghost start = acc@;
    proof {
        assert forall|r: int| 0 <= r < rows@.len() implies (#[trigger] rows@[r])@.len()
            == acc@.len() by {
            assert(rows_view(rows@)[r] == rows@[r]@);
        }
    }
    sub_gadget_product(&mut acc, rows, data, n_in, &decomposer);
    proof {
        assert forall|f: int| 0 <= f < acc@.len() implies #[trigger] acc@[f] == unit_entry(
            *key,
            input@,
            f,
        ) by {
            assert(start[f] == if f == body_start {
                input@[n_in as int]
            } else {
                0
            });
        }
    }
    acc
}

/// The unit of one input, placed in `slot`.
fn switch_to_glwe_slot(key: &LwePackingKeyswitchKey, input: &LweCiphertext, slot: usize) -> (placed:
    Vec<u64>)
    requires
        packing_input_compatible(*key, *input),
        slot < key.output_polynomial_size(),
    ensures
        placed@ == placed_unit(*key, input@, slot as int),
        placed@.len() == key.row_len(),
        all_reduced(placed@, key.ciphertext_modulus()),
{
    let unit = switch_to_glwe(key, input);
    let modulus = key.ciphertext_modulus();
    let k = key.output_glwe_dimension();
    let size = key.output_polynomial_size();
    let len = unit.len();
    proof {
        use_type_invariant(key);
        key.lemma_wf();
        modulus.lemma_wf();
    }
    let mut placed: Vec<u64> = Vec::new();
    let mut p: usize = 0;
    let mut base: usize = 0;
    proof {
        assert(p * size == 0) by (nonlinear_arith)
            requires
                p == 0,
        ;
        assert(k + 1 <= (k + 1) * size) by (nonlinear_arith)
            requires
                size >= 1,
        ;
    }
    while p <= k
        invariant
            p <= k + 1,
            k < usize::MAX,
            size == key.output_polynomial_size(),
            k == key.output_glwe_dimension(),
            slot < size,
            len == unit@.len(),
            len == (k + 1) * size,
            len == key.row_len(),
            base == p * size,
            modulus == key.ciphertext_modulus(),
            modulus.wf(),
            forall|f: int| 0 <= f < len ==> #[trigger] unit@[f] == unit_entry(*key, input@, f),
            all_reduced(unit@, modulus),
            placed@.len() == base,
            forall|f: int|
                0 <= f < base ==> #[trigger] placed@[f] == placed_entry(
                    *key,
                    input@,
                    slot as int,
                    f,
                ),
            all_reduced(placed@, modulus),
        decreases k + 1 - p,
    {
        proof {
            crate::glwe::lemma_poly_index(p as int, 0, k + 1, size as int);
        }
        let mut t: usize = 0;
        while t < size
            invariant
                t <= size,
                p <= k,
                size == key.output_polynomial_size(),
                k == key.output_glwe_dimension(),
                slot < size,
                len == unit@.len(),
                len == (k + 1) * size,
                base == p * size,
                base + size <= len,
                modulus == key.ciphertext_modulus(),
                modulus.wf(),
                forall|f: int| 0 <= f < len ==> #[trigger] unit@[f] == unit_entry(*key, input@, f),
                all_reduced(unit@, modulus),
                placed@.len() == base + t,
                forall|f: int|
                    0 <= f < base + t ==> #[trigger] placed@[f] == placed_entry(
                        *key,
                        input@,
                        slot as int,
                        f,
                    ),
                all_reduced(placed@, modulus),
            decreases size - t,
        {
            proof {
                lemma_fundamental_div_mod_converse(
                    (base + t) as int,
                    size as int,
                    p as int,
                    t as int,
                );
            }
            let value = if t >= slot {
                unit[base + t - slot]
            } else {
                let v = modulus.sub_mod(0, unit[base + t + (size - slot)]);
                v
            };
            placed.push(value);
            t = t + 1;
        }
        base = base + size;
        p = p + 1;
    }
    proof {
        assert(placed@ =~= placed_unit(*key, input@, slot as int));
    }
    placed
}

/// Adds `rhs` to `acc`, entry by entry.
fn add_assign_residues(acc: &mut Vec<u64>, rhs: &Vec<u64>, modulus: &CiphertextModulus)
    requires
        old(acc)@.len() == rhs@.len(),
    ensures
        final(acc)@.len() == old(acc)@.len(),
        forall|f: int|
            0 <= f < old(acc)@.len() ==> #[trigger] final(acc)@[f] == (old(acc)@[f] + rhs@[f]) % (
            modulus.value() as int),
        all_reduced(final(acc)@, *modulus),
{
    let n = acc.len();
    let mut f: usize = 0;
    while f < n
        invariant
            f <= n,
            n == acc@.len(),
            n == rhs@.len(),
            n == old(acc)@.len(),
            forall|g: int|
                0 <= g < f ==> #[trigger] acc@[g] == (old(acc)@[g] + rhs@[g]) % (
                modulus.value() as int),
            forall|g: int| 0 <= g < f ==> (#[trigger] acc@[g]) < modulus.value(),
            forall|g: int| f <= g < n ==> acc@[g] == old(acc)@[g],
        decreases n - f,
    {
        let v = modulus.add_mod(acc[f], rhs[f]);
        acc.set(f, v);
        f = f + 1;
    }
}

/// Whether every input fits the key.
pub fn inputs_fit(key: &LwePackingKeyswitchKey, inputs: &Vec<LweCiphertext>) -> (b: bool)
    ensures
        b == forall|j: int|
            0 <= j < inputs@.len() ==> packing_input_compatible(*key, #[trigger] inputs@[j]),
{
    let modulus = key.ciphertext_modulus();
    let n_in = key.input_key_lwe_dimension();
    let mut j: usize = 0;
    while j < inputs.len()
        invariant
            j <= inputs@.len(),
            modulus == key.ciphertext_modulus(),
            n_in == key.input_key_lwe_dimension(),
            forall|i: int| 0 <= i < j ==> packing_input_compatible(*key, #[trigger] inputs@[i]),
        decreases inputs@.len() - j,
    {
        if inputs[j].lwe_dimension() != n_in || !inputs[j].modulus().same_as(&modulus) {
            return false;
        }
        j = j + 1;
    }
    true
}

/// Whether the output fits the key.
pub fn output_fits(key: &LwePackingKeyswitchKey, output: &GlweCiphertext) -> (b: bool)
    ensures
        b == packing_output_compatible(*key, *output),
{
    output.glwe_dimension() == key.output_glwe_dimension() && output.polynomial_size()
        == key.output_polynomial_size() && output.modulus().same_as(&key.ciphertext_modulus())
}

/// Decides whether a packing keyswitch is served: refused with a parameter error when
/// there are more inputs than slots, else with a dimension mismatch when an input or
/// the output does not fit the key.
pub fn check_packing_keyswitch(
    key: &LwePackingKeyswitchKey,
    inputs: &Vec<LweCiphertext>,
    output: &GlweCiphertext,
) -> (r: Result<(), KeyswitchError>)
    ensures
        r is Ok <==> packing_compatible(*key, inputs@, *output),
        r is Err ==> r->Err_0 == packing_error(*key, inputs@),
{
    if inputs.len() > key.output_polynomial_size() {
        return Err(KeyswitchError::ParameterError);
    }
    if !output_fits(key, output) || !inputs_fit(key, inputs) {
        return Err(KeyswitchError::DimensionMismatch);
    }
    Ok(())
}

/// Switches one input to the GLWE key with its plaintext in `slot`: the work of one
/// input of a packing keyswitch.
///
/// Refused with a parameter error when there is no such slot, and with a dimension
/// mismatch when the input does not fit the key.
pub fn keyswitch_lwe_ciphertext_into_glwe_slot(
    key: &LwePackingKeyswitchKey,
    input: &LweCiphertext,
    slot: usize,
) -> (r: Result<GlweCiphertext, KeyswitchError>)
    ensures
        r is Ok <==> slot < key.output_polynomial_size() && packing_input_compatible(
            *key,
            *input,
        ),
        r is Err ==> r->Err_0 == (if slot >= key.output_polynomial_size() {
            KeyswitchError::ParameterError
        } else {
            KeyswitchError::DimensionMismatch
        }),
        r is Ok ==> r->Ok_0.wf() && packing_output_compatible(*key, r->Ok_0) && r->Ok_0@
            == placed_unit(*key, input@, slot as int),
{
    if slot >= key.output_polynomial_size() {
        return Err(KeyswitchError::ParameterError);
    }
    if input.lwe_dimension() != key.input_key_lwe_dimension() || !input.modulus().same_as(
        &key.ciphertext_modulus(),
    ) {
        return Err(KeyswitchError::DimensionMismatch);
    }
    let placed = switch_to_glwe_slot(key, input, slot);
    proof {
        use_type_invariant(key);
        key.lemma_wf();
    }
    Ok(
        GlweCiphertext::from_reduced(
            placed,
            key.output_glwe_dimension(),
            key.output_polynomial_size(),
            key.ciphertext_modulus(),
        ),
    )
}

/// Adds `rhs` to `lhs`, entry by entry; refused, with `lhs` untouched, when the two
/// differ in shape or modulus.
pub fn glwe_ciphertext_add_assign(lhs: &mut GlweCiphertext, rhs: &GlweCiphertext) -> (r: Result<
    (),
    KeyswitchError,
>)
    ensures
        r is Ok <==> old(lhs).glwe_dimension() == rhs.glwe_dimension() && old(
            lhs,
        ).polynomial_size() == rhs.polynomial_size() && old(lhs).modulus() == rhs.modulus(),
        r is Err ==> r->Err_0 == KeyswitchError::DimensionMismatch && *final(lhs) == *old(lhs),
        r is Ok ==> {
            &&& final(lhs).wf()
            &&& final(lhs).glwe_dimension() == old(lhs).glwe_dimension()
            &&& final(lhs).polynomial_size() == old(lhs).polynomial_size()
            &&& final(lhs).modulus() == old(lhs).modulus()
            &&& final(lhs)@.len() == old(lhs)@.len()
            &&& forall|f: int|
                0 <= f < old(lhs)@.len() ==> #[trigger] final(lhs)@[f] == (old(lhs)@[f]
                    + rhs@[f]) % (rhs.modulus().value() as int)
        },
{
    if lhs.glwe_dimension() != rhs.glwe_dimension() || lhs.polynomial_size()
        != rhs.polynomial_size() || !lhs.modulus().same_as(&rhs.modulus()) {
        return Err(KeyswitchError::DimensionMismatch);
    }
    let modulus = rhs.modulus();
    let current = lhs.as_container();
    let other = rhs.as_container();
    proof {
        lhs.lemma_wf();
        rhs.lemma_wf();
    }
    let n = current.len();
    let mut sum: Vec<u64> = Vec::new();
    let mut f: usize = 0;
    while f < n
        invariant
            f <= n,
            n == current@.len(),
            n == other@.len(),
            sum@.len() == f,
            forall|g: int|
                0 <= g < f ==> #[trigger] sum@[g] == (current@[g] + other@[g]) % (
                modulus.value() as int),
            forall|g: int| 0 <= g < f ==> (#[trigger] sum@[g]) < modulus.value(),
        decreases n - f,
    {
        let v = modulus.add_mod(current[f], other[f]);
        sum.push(v);
        f = f + 1;
    }
    lhs.replace(sum);
    Ok(())
}

/// Switches the inputs to the GLWE key and packs them: input `j` goes to slot `j`,
/// and the slots beyond the last input stay empty. The inputs are done one after
/// the other.
///
/// Refused, with `output` untouched, when there are more inputs than slots or when
/// an input or the output does not fit the key.
pub fn keyswitch_lwe_ciphertext_list_and_pack_in_glwe_ciphertext(
    key: &LwePackingKeyswitchKey,
    inputs: &Vec<LweCiphertext>,
    output: &mut GlweCiphertext,
) -> (r: Result<(), KeyswitchError>)
    ensures
        r is Ok <==> packing_compatible(*key, inputs@, *old(output)),
        r is Err ==> r->Err_0 == packing_error(*key, inputs@) && *final(output) == *old(output),
        r is Ok ==> {
            &&& final(output).wf()
            &&& packing_output_compatible(*key, *final(output))
            &&& final(output)@ == packed_result(*key, ciphertexts_view(inputs@))
        },
{
    let size = key.output_polynomial_size();
    let count = inputs.len();
    match check_packing_keyswitch(key, inputs, output) {
        Ok(()) => {},
        Err(e) => {
            return Err(e);
        },
    }
    let modulus = key.ciphertext_modulus();
    let ghost view = ciphertexts_view(inputs@);
    let ghost m = modulus.value() as int;
    let len = output.as_container().len();
    proof {
        use_type_invariant(key);
        key.lemma_wf();
        output.lemma_wf();
        modulus.lemma_wf();
    }
    let mut acc = zeros(len);
    let mut j: usize = 0;
    proof {
        assert forall|f: int| 0 <= f < len implies #[trigger] acc@[f] == packed_sum(
            *key,
            view,
            f,
            0,
        ) % m by {
            lemma_small_mod(0, m as nat);
        }
    }
    while j < count
        invariant
            j <= count,
            count == inputs@.len(),
            count <= size,
            size == key.output_polynomial_size(),
            view == ciphertexts_view(inputs@),
            modulus == key.ciphertext_modulus(),
            modulus.wf(),
            m == modulus.value(),
            m > 0,
            key.wf(),
            len == key.row_len(),
            acc@.len() == len,
            forall|i: int|
                0 <= i < inputs@.len() ==> packing_input_compatible(*key, #[trigger] inputs@[i]),
            forall|f: int|
                0 <= f < len ==> #[trigger] acc@[f] == packed_sum(*key, view, f, j as nat) % m,
            all_reduced(acc@, modulus),
        decreases count - j,
    {
        let placed = switch_to_glwe_slot(key, &inputs[j], j);
        add_assign_residues(&mut acc, &placed, &modulus);
        proof {
            assert forall|f: int| 0 <= f < len implies #[trigger] acc@[f] == packed_sum(
                *key,
                view,
                f,
                (j + 1) as nat,
            ) % m by {
                let done = packed_sum(*key, view, f, j as nat);
                let term = placed_entry(*key, view[j as int], j as int, f);
                lemma_placed_entry_bound(*key, view[j as int], j as int, f);
                modulus.lemma_wf();
                assert(placed@[f] == placed_unit(*key, view[j as int], j as int)[f]);
                assert(placed@[f] == term);
                lemma_add_mod_noop(done, term, m);
                lemma_small_mod(term as nat, m as nat);
            }
        }
        j = j + 1;
    }
    proof {
        assert forall|f: int| 0 <= f < len implies acc@[f] == packed_result(*key, view)[f] by {
            lemma_mod_bound(packed_sum(*key, view, f, count as nat), m);
        }
        assert(acc@ =~= packed_result(*key, view));
    }
    output.replace(acc);
    Ok(())
}

/// The same packing keyswitch, arranged for doing the inputs all at once: every
/// input is first switched and placed on its own, and the results are added up at
/// the end. The output is the same as that of the one-after-the-other form, entry
/// for entry.
pub fn par_keyswitch_lwe_ciphertext_list_and_pack_in_glwe_ciphertext(
    key: &LwePackingKeyswitchKey,
    inputs: &Vec<LweCiphertext>,
    output: &mut GlweCiphertext,
) -> (r: Result<(), KeyswitchError>)
    ensures
        r is Ok <==> packing_compatible(*key, inputs@, *old(output)),
        r is Err ==> r->Err_0 == packing_error(*key, inputs@) && *final(output) == *old(output),
        r is Ok ==> {
            &&& final(output).wf()
            &&& packing_output_compatible(*key, *final(output))
            &&& final(output)@ == packed_result(*key, ciphertexts_view(inputs@))
        },
{
    let size = key.output_polynomial_size();
    let count = inputs.len();
    match check_packing_keyswitch(key, inputs, output) {
        Ok(()) => {},
        Err(e) => {
            return Err(e);
        },
    }
    let modulus = key.ciphertext_modulus();
    let ghost view = ciphertexts_view(inputs@);
    let _ = output.as_container();
    proof {
        use_type_invariant(key);
        key.lemma_wf();
        output.lemma_wf();
        modulus.lemma_wf();
    }
    let mut units: Vec<GlweCiphertext> = Vec::new();
    let mut j: usize = 0;
    while j < count
        invariant
            j <= count,
            count == inputs@.len(),
            count <= size,
            size == key.output_polynomial_size(),
            view == ciphertexts_view(inputs@),
            forall|i: int|
                0 <= i < inputs@.len() ==> packing_input_compatible(*key, #[trigger] inputs@[i]),
            units@.len() == j,
            forall|i: int|
                0 <= i < j ==> (#[trigger] units@[i]).wf() && packing_output_compatible(
                    *key,
                    units@[i],
                ) && units@[i]@ == placed_unit(*key, view[i], i),
        decreases count - j,
    {
        let placed = switch_to_glwe_slot(key, &inputs[j], j);
        let unit = GlweCiphertext::from_reduced(
            placed,
            key.output_glwe_dimension(),
            size,
            key.ciphertext_modulus(),
        );
        units.push(unit);
        j = j + 1;
    }
    let sum = sum_placed_units(key, &units, Ghost(view));
    output.replace(sum);
    Ok(())
}

/// Adds up the placed units of the inputs.
fn sum_placed_units(
    key: &LwePackingKeyswitchKey,
    units: &Vec<GlweCiphertext>,
    Ghost(view): Ghost<Seq<Seq<u64>>>,
) -> (sum: Vec<u64>)
    requires
        units@.len() == view.len(),
        forall|i: int|
            0 <= i < units@.len() ==> (#[trigger] units@[i]).wf() && packing_output_compatible(
                *key,
                units@[i],
            ) && units@[i]@ == placed_unit(*key, view[i], i),
    ensures
        sum@ == packed_result(*key, view),
        all_reduced(sum@, key.ciphertext_modulus()),
{
    let modulus = key.ciphertext_modulus();
    let k = key.output_glwe_dimension();
    let size = key.output_polynomial_size();
    let count = units.len();
    let ghost m = modulus.value() as int;
    proof {
        use_type_invariant(key);
        key.lemma_wf();
        modulus.lemma_wf();
        assert((k + 1) * size == k * size + size) by (nonlinear_arith);
        assert(0 <= k * size) by (nonlinear_arith);
    }
    let len = k * size + size;
    let mut acc = zeros(len);
    let mut j: usize = 0;
    proof {
        assert forall|f: int| 0 <= f < len implies #[trigger] acc@[f] == packed_sum(
            *key,
            view,
            f,
            0,
        ) % m by {
            lemma_small_mod(0, m as nat);
        }
    }
    while j < count
        invariant
            j <= count,
            count == units@.len(),
            count == view.len(),
            modulus == key.ciphertext_modulus(),
            modulus.wf(),
            m == modulus.value(),
            m > 0,
            key.wf(),
            len == key.row_len(),
            acc@.len() == len,
            forall|i: int|
                0 <= i < units@.len() ==> (#[trigger] units@[i]).wf() && packing_output_compatible(
                    *key,
                    units@[i],
                ) && units@[i]@ == placed_unit(*key, view[i], i),
            forall|f: int|
                0 <= f < len ==> #[trigger] acc@[f] == packed_sum(*key, view, f, j as nat) % m,
            all_reduced(acc@, modulus),
        decreases count - j,
    {
        let placed = units[j].as_container();
        proof {
            units@[j as int].lemma_wf();
        }
        add_assign_residues(&mut acc, placed, &modulus);
        proof {
            assert forall|f: int| 0 <= f < len implies #[trigger] acc@[f] == packed_sum(
                *key,
                view,
                f,
                (j + 1) as nat,
            ) % m by {
                let done = packed_sum(*key, view, f, j as nat);
                let term = placed_entry(*key, view[j as int], j as int, f);
                lemma_placed_entry_bound(*key, view[j as int], j as int, f);
                modulus.lemma_wf();
                assert(placed@[f] == placed_unit(*key, view[j as int], j as int)[f]);
                assert(placed@[f] == term);
                lemma_add_mod_noop(done, term, m);
                lemma_small_mod(term as nat, m as nat);
            }
        }
        j = j + 1;
    }
    proof {
        assert forall|f: int| 0 <= f < len implies acc@[f] == packed_result(*key, view)[f] by {
            lemma_mod_bound(packed_sum(*key, view, f, count as nat), m);
        }
        assert(acc@ =~= packed_result(*key, view));
    }
    acc
}

} // verus!
