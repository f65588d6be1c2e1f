//! The scalar keyswitch: one LWE ciphertext in, one LWE ciphertext under the
//! destination key out.
//!
//! The output starts as the trivial encryption of the input's body: a zero mask and that
//! body. Every mask entry of the input is then decomposed into signed digits, and each digit
//! times its row of the key is subtracted.

use crate::error::KeyswitchError;
use crate::gadget::{gadget_product, rows_view, sub_gadget_product};
use crate::lwe::LweCiphertext;
use crate::lwe_keyswitch_key::LweKeyswitchKey;
use vstd::arithmetic::div_mod::*;
use vstd::prelude::*;

verus! {

/// The input has the key's source dimension, the output has its destination
/// dimension, and all three share one modulus.
pub open spec fn keyswitch_compatible(
    key: LweKeyswitchKey,
    input: LweCiphertext,
    output: LweCiphertext,
) -> bool {
    &&& input.lwe_dimension() == key.input_key_lwe_dimension()
    &&& input.modulus() == key.ciphertext_modulus()
    &&& output.lwe_dimension() == key.output_key_lwe_dimension()
    &&& output.modulus() == key.ciphertext_modulus()
}

/// The entries of the keyswitched ciphertext: the trivial encryption of the input's
/// body minus the gadget product of the input's mask with the key's rows.
pub open spec fn keyswitch_result(key: LweKeyswitchKey, input: Seq<u64>) -> Seq<u64> {
    let n_in = key.input_key_lwe_dimension() as nat;
    let n_out = key.output_key_lwe_dimension() as int;
    let m = key.ciphertext_modulus().value() as int;
    Seq::new(
        (n_out + 1) as nat,
        |k: int|
            (((if k == n_out {
                input[n_in as int] as int
            } else {
                0
            }) - gadget_product(key.rows(), key.decomposer(), input, k, n_in)) % m) as u64,
    )
}

/// Switches `input` to the destination key of `key` and writes the result to `output`.
///
/// Refused, with `output` untouched, when the three do not fit together.
pub fn keyswitch_lwe_ciphertext(
    key: &LweKeyswitchKey,
    input: &LweCiphertext,
    output: &mut LweCiphertext,
) -> (r: Result<(), KeyswitchError>)
    ensures
        r is Ok <==> keyswitch_compatible(*key, *input, *old(output)),
        r is Err ==> r->Err_0 == KeyswitchError::DimensionMismatch && *final(output) == *old(
            output,
        ),
        r is Ok ==> final(output)@ == keyswitch_result(*key, input@) && final(output).modulus()
            == key.ciphertext_modulus() && final(output).wf(),
{
    let modulus = key.ciphertext_modulus();
    let n_in = key.input_key_lwe_dimension();
    let n_out = key.output_key_lwe_dimension();
    if input.lwe_dimension() != n_in || !input.modulus().same_as(&modulus)
        || output.lwe_dimension() != n_out || !output.modulus().same_as(&modulus) {
        return Err(KeyswitchError::DimensionMismatch);
    }
    let decomposer = key.decomposer();
    let rows = key.as_rows();
    let data = input.as_container();
    let body = input.body();
    let mut acc: Vec<u64> = Vec::new();
    let mut k: usize = 0;
    while k < n_out
        invariant
            k <= n_out,
            acc@.len() == k,
            forall|j: int| 0 <= j < k ==> acc@[j] == 0,
        decreases n_out - k,
    {
        acc.push(0);
        k = k + 1;
    }
    acc.push(body);
    let ghost start = acc@;
    proof {
        key.lemma_wf();
        modulus.lemma_wf();
        assert forall|r: int| 0 <= r < rows@.len() implies (#[trigger] rows@[r])@.len()
            == acc@.len() by {
            assert(rows_view(rows@)[r] == rows@[r]@);
        }
    }
    sub_gadget_product(&mut acc, rows, data, n_in, &decomposer);
    proof {
        let m = modulus.value() as int;
        assert forall|j: int| 0 <= j < n_out + 1 implies acc@[j] == keyswitch_result(
            *key,
            input@,
        )[j] by {
            let g = gadget_product(key.rows(), key.decomposer(), input@, j, n_in as nat);
            assert(acc@[j] == (start[j] - g) % m);
            lemma_mod_bound(start[j] - g, m);
        }
        assert(acc@ =~= keyswitch_result(*key, input@));
    }
    output.replace(acc);
    Ok(())
}

} // verus!
