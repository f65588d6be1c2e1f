use keyswitch::dispersion::Variance;
use keyswitch::encoding::{decode_message, encode_message};
use keyswitch::error::KeyswitchError;
use keyswitch::lwe::{decrypt_lwe_ciphertext, encrypt_lwe_ciphertext, LweCiphertext, LweSecretKey};
use keyswitch::lwe_keyswitch::keyswitch_lwe_ciphertext;
use keyswitch::lwe_keyswitch_key::LweKeyswitchKey;
use keyswitch::modulus::CiphertextModulus;

/// A small deterministic generator, enough to draw test keys and samples.
struct Generator(u64);

impl Generator {
    fn next(&mut self) -> u64 {
        self.0 = self.0.wrapping_add(0x9E37_79B9_7F4A_7C15);
        let mut z = self.0;
        z = (z ^ (z >> 30)).wrapping_mul(0xBF58_476D_1CE4_E5B9);
        z = (z ^ (z >> 27)).wrapping_mul(0x94D0_49BB_1331_11EB);
        z ^ (z >> 31)
    }

    fn binary_key(&mut self, n: usize) -> LweSecretKey {
        LweSecretKey::from_container((0..n).map(|_| self.next() & 1).collect())
    }

    fn uniform(&mut self, n: usize) -> Vec<u64> {
        (0..n).map(|_| self.next()).collect()
    }

    /// A centred noise value of at most `bits` bits, as a residue modulo 2^64.
    fn noise(&mut self, bits: u32) -> u64 {
        let magnitude = self.next() >> (64 - bits);
        if self.next() & 1 == 1 {
            magnitude.wrapping_neg()
        } else {
            magnitude
        }
    }

    fn noises(&mut self, n: usize, bits: u32) -> Vec<u64> {
        (0..n).map(|_| self.noise(bits)).collect()
    }
}

fn scalar_trials(seed: u64, trials: usize) {
    let mut g = Generator(seed);
    let modulus = CiphertextModulus::new_native();
    let (n1, n2, base_log, levels) = (512usize, 256usize, 4usize, 3usize);
    let source = g.binary_key(n1);
    let destination = g.binary_key(n2);
    let masks = g.uniform(n1 * levels * n2);
    let noises = g.noises(n1 * levels, 20);
    let key =
        LweKeyswitchKey::generate(&source, &destination, base_log, levels, Variance(-50), modulus, &masks, &noises)
            .unwrap();
    let message_bits = 4;
    for t in 0..trials {
        let message = (t as u64) % (1 << message_bits);
        let mask = g.uniform(n1);
        let noise = g.noise(20);
        let input =
            encrypt_lwe_ciphertext(
                &source,
                encode_message(message, message_bits, &modulus).unwrap(),
                &mask,
                noise,
                modulus,
            )
                .unwrap();
        let mut output = LweCiphertext::new(n2, modulus).unwrap();
        keyswitch_lwe_ciphertext(&key, &input, &mut output).unwrap();
        let phase = decrypt_lwe_ciphertext(&destination, &output).unwrap();
        assert_eq!(decode_message(phase, message_bits, &modulus), Ok(message));
    }
}

// A thousand trials in all, over every message of the message space, cut in four
// so that each part stays short.

#[test]
fn scalar_keyswitch_recovers_every_message_trials_1_to_250() {
    scalar_trials(1, 250);
}

#[test]
fn scalar_keyswitch_recovers_every_message_trials_251_to_500() {
    scalar_trials(2, 250);
}

#[test]
fn scalar_keyswitch_recovers_every_message_trials_501_to_750() {
    scalar_trials(3, 250);
}

#[test]
fn scalar_keyswitch_recovers_every_message_trials_751_to_1000() {
    scalar_trials(4, 250);
}

#[test]
fn keyswitch_rejects_output_of_wrong_dimension_and_leaves_it_untouched() {
    let mut g = Generator(8);
    let modulus = CiphertextModulus::new_native();
    let source = g.binary_key(8);
    let destination = g.binary_key(4);
    let key = LweKeyswitchKey::generate(
        &source,
        &destination,
        4,
        3,
        Variance(-50), modulus,
        &g.uniform(8 * 3 * 4),
        &g.noises(8 * 3, 10),
    )
    .unwrap();
    let input = encrypt_lwe_ciphertext(&source, 1 << 60, &g.uniform(8), 0, modulus).unwrap();
    let mut output = LweCiphertext::from_container(vec![1, 2, 3, 4, 5, 6], modulus).unwrap();
    assert_eq!(
        keyswitch_lwe_ciphertext(&key, &input, &mut output),
        Err(KeyswitchError::DimensionMismatch)
    );
    assert_eq!(output.as_container(), &vec![1, 2, 3, 4, 5, 6]);
}

#[test]
fn keyswitch_rejects_input_of_another_modulus() {
    let mut g = Generator(9);
    let modulus = CiphertextModulus::new_native();
    let small = CiphertextModulus::try_new_power_of_2(32).unwrap();
    let source = g.binary_key(8);
    let destination = g.binary_key(4);
    let key = LweKeyswitchKey::generate(
        &source,
        &destination,
        4,
        3,
        Variance(-50), modulus,
        &g.uniform(8 * 3 * 4),
        &g.noises(8 * 3, 10),
    )
    .unwrap();
    let input = LweCiphertext::new(8, small).unwrap();
    let mut output = LweCiphertext::new(4, modulus).unwrap();
    assert_eq!(
        keyswitch_lwe_ciphertext(&key, &input, &mut output),
        Err(KeyswitchError::DimensionMismatch)
    );
}

/// The residue of a signed number modulo 2^bits.
fn residue(x: i128, bits: u32) -> u64 {
    x.rem_euclid(1i128 << bits) as u64
}

#[test]
fn keyswitch_output_is_the_trivial_encryption_minus_the_digits_times_the_rows() {
    // modulus 2^16, base 4, two levels, two source coefficients, one destination coefficient
    let modulus = CiphertextModulus::try_new_power_of_2(16).unwrap();
    let source = LweSecretKey::from_container(vec![1, 0]);
    let destination = LweSecretKey::from_container(vec![1]);
    let masks = vec![100, 200, 300, 400];
    let noises = vec![1, 2, 3, 4];
    let key = LweKeyswitchKey::generate(&source, &destination, 2, 2, Variance(-50), modulus, &masks, &noises)
        .unwrap();
    assert_eq!(key.row_count(), 4);
    // rows: the mask, then mask * 1 + coefficient * 2^(16 - 2 * level) + noise
    let rows: [[i128; 2]; 4] =
        [[100, 100 + 16384 + 1], [200, 200 + 4096 + 2], [300, 300 + 3], [400, 400 + 4]];
    // input mask (20000, 50000), body 7
    let input = LweCiphertext::from_container(vec![20000, 50000, 7], modulus).unwrap();
    // step 2^12: 20000 rounds to index 5 = 1 * 4 + 1, digits (1, 1);
    // 50000 rounds to index 12 = 3 * 4 + 0, digits (-1, 0) after the carry leaves
    let digits: [i128; 4] = [1, 1, -1, 0];
    let mut expected_mask: i128 = 0;
    let mut expected_body: i128 = 7;
    for r in 0..4 {
        expected_mask -= digits[r] * rows[r][0];
        expected_body -= digits[r] * rows[r][1];
    }
    let mut output = LweCiphertext::new(1, modulus).unwrap();
    keyswitch_lwe_ciphertext(&key, &input, &mut output).unwrap();
    assert_eq!(
        output.as_container(),
        &vec![residue(expected_mask, 16), residue(expected_body, 16)]
    );
    assert_eq!(output.as_container(), &vec![0, 45063]);
}

#[test]
fn keyswitch_phase_is_input_phase_minus_rounding_and_key_noise() {
    let mut g = Generator(21);
    let bits = 40u32;
    let modulus = CiphertextModulus::try_new_power_of_2(bits).unwrap();
    let (n1, n2, base_log, levels) = (10usize, 6usize, 3usize, 4usize);
    let source = g.binary_key(n1);
    let destination = g.binary_key(n2);
    let masks = g.uniform(n1 * levels * n2);
    let noises: Vec<u64> = (0..n1 * levels).map(|_| g.next() % 16).collect();
    let key =
        LweKeyswitchKey::generate(&source, &destination, base_log, levels, Variance(-50), modulus, &masks, &noises)
            .unwrap();
    let decomposer = key.decomposer();
    let input = encrypt_lwe_ciphertext(&source, 5 << 36, &g.uniform(n1), 3, modulus).unwrap();
    let mut output = LweCiphertext::new(n2, modulus).unwrap();
    keyswitch_lwe_ciphertext(&key, &input, &mut output).unwrap();
    let phase_in = decrypt_lwe_ciphertext(&source, &input).unwrap() as i128;
    let phase_out = decrypt_lwe_ciphertext(&destination, &output).unwrap();
    let step: i128 = 1 << (bits as usize - base_log * levels);
    let mut rounding: i128 = 0;
    let mut key_noise: i128 = 0;
    for i in 0..n1 {
        let a = input.as_container()[i] as i128;
        let closest = ((a + step / 2) / step) * step;
        rounding += source.as_container()[i] as i128 * (closest - a);
        let digits = decomposer.decompose(input.as_container()[i]);
        for j in 0..levels {
            key_noise += digits[j] as i128 * noises[i * levels + j] as i128;
        }
    }
    assert_eq!(phase_out, residue(phase_in - rounding - key_noise, bits));
}

#[test]
fn keyswitch_rejects_input_of_wrong_dimension() {
    let mut g = Generator(7);
    let modulus = CiphertextModulus::new_native();
    let source = g.binary_key(8);
    let destination = g.binary_key(4);
    let key = LweKeyswitchKey::generate(
        &source,
        &destination,
        4,
        3,
        Variance(-50), modulus,
        &g.uniform(8 * 3 * 4),
        &g.noises(8 * 3, 10),
    )
    .unwrap();
    let input = LweCiphertext::new(7, modulus).unwrap();
    let mut output = LweCiphertext::new(4, modulus).unwrap();
    assert_eq!(
        keyswitch_lwe_ciphertext(&key, &input, &mut output),
        Err(KeyswitchError::DimensionMismatch)
    );
}

#[test]
fn keyswitch_keeps_the_message_when_the_bound_on_the_noise_is_below_half_a_step() {
    let mut g = Generator(41);
    let modulus = CiphertextModulus::new_native();
    let (n1, n2, base_log, levels, message_bits) = (8usize, 5usize, 4usize, 8usize, 4u32);
    let noise_bits = 20u32;
    // twice the most that the phase moves: n * (step + L * B * noise), for a binary key
    let step: u128 = 1 << (64 - base_log * levels);
    let growth = n1 as u128 * (step + levels as u128 * (1 << base_log) * (1u128 << noise_bits));
    let message_step: u128 = 1 << (64 - message_bits);
    assert!(2 * (1u128 << noise_bits) + growth < message_step);
    let source = g.binary_key(n1);
    let destination = g.binary_key(n2);
    let key = LweKeyswitchKey::generate(
        &source,
        &destination,
        base_log,
        levels,
        Variance(-2 * (64 - noise_bits as i64)),
        modulus,
        &g.uniform(n1 * levels * n2),
        &g.noises(n1 * levels, noise_bits),
    )
    .unwrap();
    for trial in 0..200u64 {
        let message = trial % 16;
        let input = encrypt_lwe_ciphertext(
            &source,
            encode_message(message, message_bits, &modulus).unwrap(),
            &g.uniform(n1),
            g.noise(noise_bits),
            modulus,
        )
        .unwrap();
        let mut output = LweCiphertext::new(n2, modulus).unwrap();
        keyswitch_lwe_ciphertext(&key, &input, &mut output).unwrap();
        let phase = decrypt_lwe_ciphertext(&destination, &output).unwrap();
        assert_eq!(decode_message(phase, message_bits, &modulus), Ok(message));
    }
}
