use keyswitch::dispersion::Variance;
use keyswitch::encoding::{decode_message, encode_message};
use keyswitch::error::KeyswitchError;
use keyswitch::glwe::{decrypt_glwe_ciphertext, GlweCiphertext, GlweSecretKey};
use keyswitch::lwe::{encrypt_lwe_ciphertext, LweCiphertext, LweSecretKey};
use keyswitch::lwe_packing_keyswitch::{
    check_packing_keyswitch, inputs_fit, output_fits,
    glwe_ciphertext_add_assign, keyswitch_lwe_ciphertext_into_glwe_slot,
    keyswitch_lwe_ciphertext_list_and_pack_in_glwe_ciphertext,
    par_keyswitch_lwe_ciphertext_list_and_pack_in_glwe_ciphertext,
};
use keyswitch::lwe_packing_keyswitch_key::LwePackingKeyswitchKey;
use keyswitch::modulus::CiphertextModulus;

/// A small deterministic generator, enough to draw test keys and samples.
struct Draw(u64);

impl Draw {
    fn next(&mut self) -> u64 {
        self.0 = self.0.wrapping_add(0x9E37_79B9_7F4A_7C15);
        let mut z = self.0;
        z = (z ^ (z >> 30)).wrapping_mul(0xBF58_476D_1CE4_E5B9);
        z = (z ^ (z >> 27)).wrapping_mul(0x94D0_49BB_1331_11EB);
        z ^ (z >> 31)
    }

    fn bits(&mut self, n: usize) -> Vec<u64> {
        (0..n).map(|_| self.next() & 1).collect()
    }

    fn uniform(&mut self, n: usize) -> Vec<u64> {
        (0..n).map(|_| self.next()).collect()
    }

    fn noise(&mut self, bits: u32) -> u64 {
        let magnitude = self.next() >> (64 - bits);
        if self.next() & 1 == 1 {
            magnitude.wrapping_neg()
        } else {
            magnitude
        }
    }

    fn noises(&mut self, n: usize, bits: u32) -> Vec<u64> {
        (0..n).map(|_| self.noise(bits)).collect()
    }
}

struct Setting {
    source: LweSecretKey,
    destination: GlweSecretKey,
    key: LwePackingKeyswitchKey,
    modulus: CiphertextModulus,
    glwe_dimension: usize,
    polynomial_size: usize,
}

fn setting(g: &mut Draw, n_in: usize, glwe_dimension: usize, polynomial_size: usize) -> Setting {
    let modulus = CiphertextModulus::new_native();
    let (base_log, levels) = (4usize, 3usize);
    let source = LweSecretKey::from_container(g.bits(n_in));
    let destination =
        GlweSecretKey::from_container(g.bits(glwe_dimension * polynomial_size), polynomial_size)
            .unwrap();
    let masks = g.uniform(n_in * levels * glwe_dimension * polynomial_size);
    let noises = g.noises(n_in * levels * polynomial_size, 20);
    let key = LwePackingKeyswitchKey::generate(
        &source,
        &destination,
        base_log,
        levels,
        Variance(-50), modulus,
        &masks,
        &noises,
    )
    .unwrap();
    Setting { source, destination, key, modulus, glwe_dimension, polynomial_size }
}

fn encrypt_messages(g: &mut Draw, s: &Setting, messages: &[u64]) -> Vec<LweCiphertext> {
    messages
        .iter()
        .map(|m| {
            let mask = g.uniform(s.source.lwe_dimension());
            let noise = g.noise(20);
            encrypt_lwe_ciphertext(
                &s.source,
                encode_message(*m, 4, &s.modulus).unwrap(),
                &mask,
                noise,
                s.modulus,
            )
            .unwrap()
        })
        .collect()
}

#[test]
fn packing_eight_scalars_recovers_each_slot() {
    let mut g = Draw(11);
    let s = setting(&mut g, 16, 1, 8);
    let messages: Vec<u64> = vec![3, 0, 15, 7, 8, 1, 12, 5];
    let inputs = encrypt_messages(&mut g, &s, &messages);
    let mut output = GlweCiphertext::new(s.glwe_dimension, s.polynomial_size, s.modulus).unwrap();
    keyswitch_lwe_ciphertext_list_and_pack_in_glwe_ciphertext(&s.key, &inputs, &mut output)
        .unwrap();
    let phases = decrypt_glwe_ciphertext(&s.destination, &output).unwrap();
    assert_eq!(phases.len(), 8);
    for (slot, message) in messages.iter().enumerate() {
        assert_eq!(decode_message(phases[slot], 4, &s.modulus), Ok(*message));
    }
}

#[test]
fn packing_fewer_inputs_leaves_the_other_slots_empty() {
    let mut g = Draw(12);
    let s = setting(&mut g, 16, 2, 8);
    let messages: Vec<u64> = vec![9, 4, 14];
    let inputs = encrypt_messages(&mut g, &s, &messages);
    let mut output = GlweCiphertext::new(s.glwe_dimension, s.polynomial_size, s.modulus).unwrap();
    keyswitch_lwe_ciphertext_list_and_pack_in_glwe_ciphertext(&s.key, &inputs, &mut output)
        .unwrap();
    let phases = decrypt_glwe_ciphertext(&s.destination, &output).unwrap();
    for slot in 0..8 {
        let expected = if slot < 3 { messages[slot] } else { 0 };
        assert_eq!(decode_message(phases[slot], 4, &s.modulus), Ok(expected));
    }
}

#[test]
fn sequential_and_parallel_packing_agree_bit_for_bit() {
    let mut g = Draw(13);
    let s = setting(&mut g, 12, 2, 4);
    let inputs = encrypt_messages(&mut g, &s, &[1, 2, 3, 4]);
    let mut one = GlweCiphertext::new(s.glwe_dimension, s.polynomial_size, s.modulus).unwrap();
    let mut two = GlweCiphertext::new(s.glwe_dimension, s.polynomial_size, s.modulus).unwrap();
    keyswitch_lwe_ciphertext_list_and_pack_in_glwe_ciphertext(&s.key, &inputs, &mut one).unwrap();
    par_keyswitch_lwe_ciphertext_list_and_pack_in_glwe_ciphertext(&s.key, &inputs, &mut two)
        .unwrap();
    assert_eq!(one.as_container(), two.as_container());
    // the same again from the single units, added up by hand
    let mut sum = GlweCiphertext::new(s.glwe_dimension, s.polynomial_size, s.modulus).unwrap();
    for (slot, input) in inputs.iter().enumerate() {
        let unit = keyswitch_lwe_ciphertext_into_glwe_slot(&s.key, input, slot).unwrap();
        glwe_ciphertext_add_assign(&mut sum, &unit).unwrap();
    }
    assert_eq!(one.as_container(), sum.as_container());
}

#[test]
fn packing_rejects_more_inputs_than_slots() {
    let mut g = Draw(14);
    let s = setting(&mut g, 6, 1, 2);
    let inputs = encrypt_messages(&mut g, &s, &[1, 2, 3]);
    let mut output = GlweCiphertext::new(s.glwe_dimension, s.polynomial_size, s.modulus).unwrap();
    assert_eq!(
        keyswitch_lwe_ciphertext_list_and_pack_in_glwe_ciphertext(&s.key, &inputs, &mut output),
        Err(KeyswitchError::ParameterError)
    );
    assert_eq!(
        par_keyswitch_lwe_ciphertext_list_and_pack_in_glwe_ciphertext(&s.key, &inputs, &mut output),
        Err(KeyswitchError::ParameterError)
    );
    assert!(output.as_container().iter().all(|x| *x == 0));
}

#[test]
fn packing_rejects_an_input_of_wrong_dimension() {
    let mut g = Draw(15);
    let s = setting(&mut g, 6, 1, 4);
    let mut inputs = encrypt_messages(&mut g, &s, &[1, 2]);
    inputs.push(LweCiphertext::new(5, s.modulus).unwrap());
    let mut output = GlweCiphertext::new(s.glwe_dimension, s.polynomial_size, s.modulus).unwrap();
    assert_eq!(
        keyswitch_lwe_ciphertext_list_and_pack_in_glwe_ciphertext(&s.key, &inputs, &mut output),
        Err(KeyswitchError::DimensionMismatch)
    );
}

#[test]
fn packed_phase_is_the_sum_of_the_shifted_unit_phases() {
    let mut g = Draw(16);
    let bits = 36u32;
    let modulus = CiphertextModulus::try_new_power_of_2(bits).unwrap();
    let (n_in, k, size, base_log, levels) = (7usize, 2usize, 4usize, 3usize, 3usize);
    let source_bits = g.bits(n_in);
    let source = LweSecretKey::from_container(source_bits.clone());
    let destination = GlweSecretKey::from_container(g.bits(k * size), size).unwrap();
    let masks = g.uniform(n_in * levels * k * size);
    let noises: Vec<u64> = (0..n_in * levels * size).map(|_| g.next() % 8).collect();
    let key = LwePackingKeyswitchKey::generate(
        &source,
        &destination,
        base_log,
        levels,
        Variance(-50), modulus,
        &masks,
        &noises,
    )
    .unwrap();
    let decomposer = key.decomposer();
    let inputs: Vec<LweCiphertext> = (0..3)
        .map(|j| {
            encrypt_lwe_ciphertext(&source, (j as u64 + 1) << 32, &g.uniform(n_in), 2, modulus)
                .unwrap()
        })
        .collect();
    let mut output = GlweCiphertext::new(k, size, modulus).unwrap();
    keyswitch_lwe_ciphertext_list_and_pack_in_glwe_ciphertext(&key, &inputs, &mut output).unwrap();
    let phases = decrypt_glwe_ciphertext(&destination, &output).unwrap();
    let step: i128 = 1 << (bits as usize - base_log * levels);
    let unit_phase = |input: &LweCiphertext, slot: usize| -> i128 {
        let data = input.as_container();
        let mut phase: i128 = 0;
        if slot == 0 {
            phase += data[n_in] as i128;
        }
        for i in 0..n_in {
            let a = data[i] as i128;
            if slot == 0 {
                let closest = ((a + step / 2) / step) * step;
                phase -= a * source_bits[i] as i128;
                phase -= source_bits[i] as i128 * (closest - a);
            }
            let digits = decomposer.decompose(data[i]);
            for level in 0..levels {
                phase -= digits[level] as i128 * noises[(i * levels + level) * size + slot] as i128;
            }
        }
        phase
    };
    for t in 0..size {
        let mut expected: i128 = 0;
        for (j, input) in inputs.iter().enumerate() {
            if t >= j {
                expected += unit_phase(input, t - j);
            } else {
                expected -= unit_phase(input, t + size - j);
            }
        }
        assert_eq!(phases[t], expected.rem_euclid(1i128 << bits) as u64);
    }
}

#[test]
fn packing_places_the_body_of_input_j_at_coefficient_j() {
    // a source key without coefficients: the key has no rows, and an input is its body alone
    let modulus = CiphertextModulus::try_new_power_of_2(8).unwrap();
    let source = LweSecretKey::from_container(vec![]);
    let destination = GlweSecretKey::from_container(vec![1, 0, 1, 1], 4).unwrap();
    let key = LwePackingKeyswitchKey::generate(&source, &destination, 2, 2, Variance(-50), modulus, &vec![], &vec![])
        .unwrap();
    assert_eq!(key.row_count(), 0);
    let inputs: Vec<LweCiphertext> = [5u64, 7, 9]
        .iter()
        .map(|body| LweCiphertext::from_container(vec![*body], modulus).unwrap())
        .collect();
    let mut output = GlweCiphertext::from_container(vec![1; 8], 4, modulus).unwrap();
    keyswitch_lwe_ciphertext_list_and_pack_in_glwe_ciphertext(&key, &inputs, &mut output).unwrap();
    assert_eq!(output.as_container(), &vec![0, 0, 0, 0, 5, 7, 9, 0]);
    let unit = keyswitch_lwe_ciphertext_into_glwe_slot(&key, &inputs[0], 2).unwrap();
    assert_eq!(unit.as_container(), &vec![0, 0, 0, 0, 0, 0, 5, 0]);
    assert_eq!(
        keyswitch_lwe_ciphertext_into_glwe_slot(&key, &inputs[0], 4).err(),
        Some(KeyswitchError::ParameterError)
    );
    let misfit = LweCiphertext::new(1, modulus).unwrap();
    assert_eq!(
        keyswitch_lwe_ciphertext_into_glwe_slot(&key, &misfit, 0).err(),
        Some(KeyswitchError::DimensionMismatch)
    );
}

#[test]
fn multiplying_by_a_power_of_x_negates_what_passes_the_degree() {
    // one source coefficient, one level, noiseless rows with a known mask
    let modulus = CiphertextModulus::try_new_power_of_2(8).unwrap();
    let source = LweSecretKey::from_container(vec![1]);
    let destination = GlweSecretKey::from_container(vec![0, 0], 2).unwrap();
    // the row: mask (3, 4), body 1 * 2^(8 - 2) = 64 in slot 0
    let key =
        LwePackingKeyswitchKey::generate(&source, &destination, 2, 1, Variance(-50), modulus, &vec![3, 4], &vec![0, 0])
            .unwrap();
    // the mask entry 64 has the digit 1: the unit is (0, 0 | 10, 0) - (3, 4 | 64, 0)
    let input = LweCiphertext::from_container(vec![64, 10], modulus).unwrap();
    let unit = keyswitch_lwe_ciphertext_into_glwe_slot(&key, &input, 0).unwrap();
    assert_eq!(unit.as_container(), &vec![253, 252, 202, 0]);
    // times X: (a, b) becomes (-b, a)
    let moved = keyswitch_lwe_ciphertext_into_glwe_slot(&key, &input, 1).unwrap();
    assert_eq!(moved.as_container(), &vec![4, 253, 0, 202]);
    let mut sum = GlweCiphertext::new(1, 2, modulus).unwrap();
    glwe_ciphertext_add_assign(&mut sum, &unit).unwrap();
    glwe_ciphertext_add_assign(&mut sum, &moved).unwrap();
    assert_eq!(sum.as_container(), &vec![1, 249, 202, 202]);
    let other = GlweCiphertext::new(1, 4, modulus).unwrap();
    assert_eq!(
        glwe_ciphertext_add_assign(&mut sum, &other),
        Err(KeyswitchError::DimensionMismatch)
    );
    assert_eq!(sum.as_container(), &vec![1, 249, 202, 202]);
}

#[test]
fn checking_a_packing_keyswitch_gives_the_error_of_the_call() {
    let mut g = Draw(17);
    let s = setting(&mut g, 6, 1, 2);
    let output = GlweCiphertext::new(s.glwe_dimension, s.polynomial_size, s.modulus).unwrap();
    let two = encrypt_messages(&mut g, &s, &[1, 2]);
    assert_eq!(check_packing_keyswitch(&s.key, &two, &output), Ok(()));
    assert!(inputs_fit(&s.key, &two));
    assert!(output_fits(&s.key, &output));
    let three = encrypt_messages(&mut g, &s, &[1, 2, 3]);
    assert_eq!(
        check_packing_keyswitch(&s.key, &three, &output),
        Err(KeyswitchError::ParameterError)
    );
    let other = GlweCiphertext::new(2, s.polynomial_size, s.modulus).unwrap();
    assert!(!output_fits(&s.key, &other));
    assert_eq!(
        check_packing_keyswitch(&s.key, &two, &other),
        Err(KeyswitchError::DimensionMismatch)
    );
    let misfit = vec![LweCiphertext::new(5, s.modulus).unwrap()];
    assert!(!inputs_fit(&s.key, &misfit));
}

#[test]
fn packing_keeps_the_messages_when_the_bound_on_the_noise_is_below_half_a_step() {
    let mut g = Draw(42);
    let modulus = CiphertextModulus::new_native();
    let (n_in, k, size, base_log, levels, message_bits) = (6usize, 2usize, 8usize, 4usize, 8usize, 4u32);
    let noise_bits = 20u32;
    let count = 5usize;
    // twice the most that a slot's phase moves, for a binary key
    let step: u128 = 1 << (64 - base_log * levels);
    let key_noise = (n_in * levels) as u128 * (1 << base_log) * (1u128 << noise_bits);
    let growth = n_in as u128 * step + count as u128 * key_noise;
    assert!(2 * (1u128 << noise_bits) + growth < 1 << (64 - message_bits));
    let source = LweSecretKey::from_container(g.bits(n_in));
    let destination = GlweSecretKey::from_container(g.bits(k * size), size).unwrap();
    let key = LwePackingKeyswitchKey::generate(
        &source,
        &destination,
        base_log,
        levels,
        Variance(-2 * (64 - noise_bits as i64)),
        modulus,
        &g.uniform(n_in * levels * k * size),
        &g.noises(n_in * levels * size, noise_bits),
    )
    .unwrap();
    for trial in 0..40u64 {
        let messages: Vec<u64> = (0..count as u64).map(|j| (trial + 3 * j) % 16).collect();
        let inputs: Vec<LweCiphertext> = messages
            .iter()
            .map(|m| {
                encrypt_lwe_ciphertext(
                    &source,
                    encode_message(*m, message_bits, &modulus).unwrap(),
                    &g.uniform(n_in),
                    g.noise(noise_bits),
                    modulus,
                )
                .unwrap()
            })
            .collect();
        let mut output = GlweCiphertext::new(k, size, modulus).unwrap();
        keyswitch_lwe_ciphertext_list_and_pack_in_glwe_ciphertext(&key, &inputs, &mut output)
            .unwrap();
        let phases = decrypt_glwe_ciphertext(&destination, &output).unwrap();
        for slot in 0..size {
            let expected = if slot < count { messages[slot] } else { 0 };
            assert_eq!(decode_message(phases[slot], message_bits, &modulus), Ok(expected));
        }
    }
}
