//! Messages in the high bits of a residue.
//!
//! A message of `b` bits is encrypted as the multiple `message * (M / 2^b)` of the message
//! step. The phase of a ciphertext is that multiple plus the noise, and rounding the phase to
//! the closest multiple of the step gives the message back as long as the noise is less than
//! half a step.

use crate::error::KeyswitchError;
use crate::modulus::{lemma_pow2_bounds, pow2_u128, CiphertextModulus};
use vstd::arithmetic::div_mod::*;
use vstd::arithmetic::mul::*;
use vstd::arithmetic::power2::*;
use vstd::prelude::*;

verus! {

/// The distance `M / 2^bits` between the encodings of two neighbouring messages, for
/// the modulus `M = 2^q`.
pub open spec fn message_step(q: nat, bits: nat) -> int {
    pow2((q - bits) as nat) as int
}

/// The encoding of a message: the message times the step.
pub open spec fn encoded(message: int, q: nat, bits: nat) -> int {
    message * message_step(q, bits)
}

/// The message that a phase rounds to: the index of the closest multiple of the step,
/// a tie going up, modulo the number of messages.
pub open spec fn decoded(phase: int, q: nat, bits: nat) -> int {
    ((phase + message_step(q, bits) / 2) / message_step(q, bits)) % (pow2(bits) as int)
}

/// The message space fits the modulus: between one bit and all the bits of the modulus.
pub open spec fn valid_message_bits(q: nat, bits: nat) -> bool {
    1 <= bits <= q
}

/// The encoding of `message` as a residue; refused when the message space does not
/// fit the modulus or the message is not in the message space.
pub fn encode_message(message: u64, message_bits: u32, modulus: &CiphertextModulus) -> (r: Result<
    u64,
    KeyswitchError,
>)
    ensures
        r is Ok <==> valid_message_bits(modulus.log2() as nat, message_bits as nat) && message
            < pow2(message_bits as nat),
        r is Err ==> r->Err_0 == KeyswitchError::ParameterError,
        r is Ok ==> r->Ok_0 == encoded(message as int, modulus.log2() as nat, message_bits as nat)
            && r->Ok_0 < modulus.value(),
{
    let q = modulus.log2();
    if message_bits < 1 || message_bits > q {
        return Err(KeyswitchError::ParameterError);
    }
    let messages = pow2_u128(message_bits);
    if message as u128 >= messages {
        return Err(KeyswitchError::ParameterError);
    }
    let step = pow2_u128(q - message_bits);
    proof {
        modulus.lemma_wf();
        lemma_pow2_bounds(message_bits as nat);
        lemma_pow2_bounds((q - message_bits) as nat);
        lemma_pow2_adds(message_bits as nat, (q - message_bits) as nat);
        assert(0 <= message * step <= (messages - 1) * step) by (nonlinear_arith)
            requires
                0 <= message < messages,
                0 <= step,
        ;
        assert((messages - 1) * step == messages * step - step) by (nonlinear_arith);
    }
    Ok((message as u128 * step) as u64)
}

/// The message that `phase` rounds to; refused when the message space does not fit
/// the modulus.
pub fn decode_message(phase: u64, message_bits: u32, modulus: &CiphertextModulus) -> (r: Result<
    u64,
    KeyswitchError,
>)
    ensures
        r is Ok <==> valid_message_bits(modulus.log2() as nat, message_bits as nat),
        r is Err ==> r->Err_0 == KeyswitchError::ParameterError,
        r is Ok ==> r->Ok_0 == decoded(phase as int, modulus.log2() as nat, message_bits as nat)
            && r->Ok_0 < pow2(message_bits as nat),
{
    let q = modulus.log2();
    if message_bits < 1 || message_bits > q {
        return Err(KeyswitchError::ParameterError);
    }
    let messages = pow2_u128(message_bits);
    let step = pow2_u128(q - message_bits);
    proof {
        lemma_pow2_bounds(message_bits as nat);
        lemma_pow2_bounds((q - message_bits) as nat);
    }
    let index = (phase as u128 + step / 2) / step;
    let message = index % messages;
    Ok(message as u64)
}

/// Rounding recovers the message when the noise is less than half a step: a phase
/// that is the encoding of `message` plus `noise`, up to a multiple of the modulus,
/// decodes to `message`.
pub proof fn lemma_decode_recovers(message: int, noise: int, phase: int, q: nat, bits: nat)
    requires
        valid_message_bits(q, bits),
        0 <= message < pow2(bits),
        -message_step(q, bits) <= 2 * noise < message_step(q, bits),
        phase % (pow2(q) as int) == (encoded(message, q, bits) + noise) % (pow2(q) as int),
    ensures
        decoded(phase, q, bits) == message,
{
    let step = message_step(q, bits);
    let messages = pow2(bits) as int;
    let modulus = pow2(q) as int;
    lemma_pow2_pos((q - bits) as nat);
    lemma_pow2_pos(bits);
    lemma_pow2_pos(q);
    lemma_pow2_adds((q - bits) as nat, bits);
    assert(modulus == step * messages);
    let exact = message * step + noise;
    // the phase and the exact value differ by a multiple of the modulus
    lemma_fundamental_div_mod(phase, modulus);
    lemma_fundamental_div_mod(exact, modulus);
    let k = phase / modulus - exact / modulus;
    assert(phase - exact == modulus * k) by (nonlinear_arith)
        requires
            phase == modulus * (phase / modulus) + phase % modulus,
            exact == modulus * (exact / modulus) + exact % modulus,
            phase % modulus == exact % modulus,
            k == phase / modulus - exact / modulus,
    ;
    // half a step, added to the noise, lies within one step
    let half = step / 2;
    if bits < q {
        lemma_pow2_unfold((q - bits) as nat);
    } else {
        lemma2_to64();
    }
    let rest = noise + half;
    assert(0 <= rest < step);
    let index = message + k * messages;
    assert(phase + half == index * step + rest) by (nonlinear_arith)
        requires
            phase - (message * step + noise) == (step * messages) * k,
            index == message + k * messages,
            rest == noise + half,
    ;
    lemma_fundamental_div_mod_converse(phase + half, step, index, rest);
    lemma_mod_multiples_vanish(k, message, messages);
    lemma_small_mod(message as nat, messages as nat);
    lemma_mul_is_commutative(k, messages);
}

} // verus!
