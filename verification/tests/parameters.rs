use keyswitch::dispersion::Variance;
use keyswitch::decomposition::SignedDecomposer;
use keyswitch::error::KeyswitchError;
use keyswitch::glwe::GlweSecretKey;
use keyswitch::lwe::LweSecretKey;
use keyswitch::lwe_keyswitch_key::LweKeyswitchKey;
use keyswitch::lwe_packing_keyswitch_key::LwePackingKeyswitchKey;
use keyswitch::modulus::{pow2_u128, CiphertextModulus};

fn generate(
    base_log: usize,
    levels: usize,
    modulus: CiphertextModulus,
    masks: usize,
    noises: usize,
) -> Result<LweKeyswitchKey, KeyswitchError> {
    let source = LweSecretKey::from_container(vec![1, 0, 1]);
    let destination = LweSecretKey::from_container(vec![0, 1]);
    LweKeyswitchKey::generate(
        &source,
        &destination,
        base_log,
        levels,
        Variance(-50), modulus,
        &vec![0; masks],
        &vec![0; noises],
    )
}

#[test]
fn generation_fails_when_base_to_the_levels_exceeds_the_modulus() {
    let modulus = CiphertextModulus::try_new_power_of_2(32).unwrap();
    // 2^(4 * 9) > 2^32
    assert_eq!(generate(4, 9, modulus, 3 * 9 * 2, 3 * 9).err(), Some(KeyswitchError::ParameterError));
    // 2^(4 * 8) == 2^32 is still accepted
    assert!(generate(4, 8, modulus, 3 * 8 * 2, 3 * 8).is_ok());
    // 2^(11 * 3) > 2^32
    assert_eq!(
        generate(11, 3, modulus, 3 * 3 * 2, 3 * 3).err(),
        Some(KeyswitchError::ParameterError)
    );
}

#[test]
fn generation_fails_when_the_level_count_is_zero() {
    let modulus = CiphertextModulus::new_native();
    assert_eq!(generate(4, 0, modulus, 0, 0).err(), Some(KeyswitchError::ParameterError));
}

#[test]
fn generation_fails_when_the_base_is_one() {
    let modulus = CiphertextModulus::new_native();
    assert_eq!(generate(0, 3, modulus, 3 * 3 * 2, 3 * 3).err(), Some(KeyswitchError::ParameterError));
}

#[test]
fn generation_fails_when_the_samples_do_not_match_the_rows() {
    let modulus = CiphertextModulus::new_native();
    assert!(generate(4, 3, modulus, 3 * 3 * 2, 3 * 3).is_ok());
    assert_eq!(
        generate(4, 3, modulus, 3 * 3 * 2 - 1, 3 * 3).err(),
        Some(KeyswitchError::ParameterError)
    );
    assert_eq!(
        generate(4, 3, modulus, 3 * 3 * 2, 3 * 3 + 1).err(),
        Some(KeyswitchError::ParameterError)
    );
}

#[test]
fn generated_key_reports_its_parameters() {
    let modulus = CiphertextModulus::try_new_power_of_2(48).unwrap();
    let key = generate(5, 4, modulus, 3 * 4 * 2, 3 * 4).unwrap();
    assert_eq!(key.input_key_lwe_dimension(), 3);
    assert_eq!(key.output_key_lwe_dimension(), 2);
    assert_eq!(key.row_count(), 12);
    assert_eq!(key.decomposer().base_log(), 5);
    assert_eq!(key.decomposer().level_count(), 4);
    assert_eq!(key.ciphertext_modulus().log2(), 48);
}

#[test]
fn packing_key_generation_validates_like_the_scalar_one() {
    let modulus = CiphertextModulus::try_new_power_of_2(32).unwrap();
    let source = LweSecretKey::from_container(vec![1, 0, 1]);
    let destination = GlweSecretKey::from_container(vec![1, 0, 0, 1, 1, 1, 0, 0], 4).unwrap();
    let make = |base_log: usize, levels: usize, masks: usize, noises: usize| {
        LwePackingKeyswitchKey::generate(
            &source,
            &destination,
            base_log,
            levels,
            Variance(-50), modulus,
            &vec![0; masks],
            &vec![0; noises],
        )
    };
    let key = make(4, 3, 3 * 3 * 8, 3 * 3 * 4).unwrap();
    assert_eq!(key.row_count(), 9);
    assert_eq!(key.output_glwe_dimension(), 2);
    assert_eq!(key.output_polynomial_size(), 4);
    assert_eq!(key.input_key_lwe_dimension(), 3);
    assert_eq!(make(4, 0, 0, 0).err(), Some(KeyswitchError::ParameterError));
    assert_eq!(make(4, 9, 3 * 9 * 8, 3 * 9 * 4).err(), Some(KeyswitchError::ParameterError));
    assert_eq!(make(4, 3, 3 * 3 * 8, 3 * 3 * 4 + 1).err(), Some(KeyswitchError::ParameterError));
    assert_eq!(make(4, 3, 3 * 3 * 8 - 1, 3 * 3 * 4).err(), Some(KeyswitchError::ParameterError));
}

#[test]
fn modulus_exponent_must_be_between_one_and_sixty_four() {
    assert_eq!(
        CiphertextModulus::try_new_power_of_2(0).err(),
        Some(KeyswitchError::ParameterError)
    );
    assert_eq!(
        CiphertextModulus::try_new_power_of_2(65).err(),
        Some(KeyswitchError::ParameterError)
    );
    let m = CiphertextModulus::try_new_power_of_2(1).unwrap();
    assert_eq!(m.value(), 2);
    let m = CiphertextModulus::try_new_power_of_2(64).unwrap();
    assert_eq!(m.value(), 1u128 << 64);
    assert!(m.same_as(&CiphertextModulus::new_native()));
    assert!(!m.same_as(&CiphertextModulus::try_new_power_of_2(63).unwrap()));
    assert_eq!(CiphertextModulus::new_native().log2(), 64);
}

#[test]
fn powers_of_two() {
    assert_eq!(pow2_u128(0), 1);
    assert_eq!(pow2_u128(10), 1024);
    assert_eq!(pow2_u128(64), 18446744073709551616);
    assert_eq!(pow2_u128(127), 1u128 << 127);
}

#[test]
fn residue_arithmetic_gives_exact_values() {
    let m = CiphertextModulus::try_new_power_of_2(8).unwrap();
    assert_eq!(m.reduce(1000), 232);
    assert!(m.contains(255));
    assert!(!m.contains(256));
    assert_eq!(m.add_mod(200, 100), 44);
    assert_eq!(m.sub_mod(3, 5), 254);
    assert_eq!(m.sub_mod(3, 600), 171);
    assert_eq!(m.mul_mod(17, 31), 15);
    assert_eq!(m.sub_scalar_mul(10, 3, 5), 251);
    assert_eq!(m.sub_scalar_mul(10, -3, 5), 25);
    assert_eq!(m.sub_scalar_mul(10, i64::MIN, 1), 10);
    let native = CiphertextModulus::new_native();
    assert_eq!(native.add_mod(u64::MAX, 2), 1);
    assert_eq!(native.sub_mod(0, 1), u64::MAX);
    assert_eq!(native.mul_mod(u64::MAX, u64::MAX), 1);
    assert_eq!(native.sub_scalar_mul(0, i64::MIN, 3), 1 << 63);
    assert_eq!(native.sub_scalar_mul(5, -1, u64::MAX), 4);
}

#[test]
fn decomposer_refuses_parameters_that_do_not_fit() {
    let m = CiphertextModulus::try_new_power_of_2(8).unwrap();
    assert_eq!(SignedDecomposer::new(2, 5, m).err(), Some(KeyswitchError::ParameterError));
    assert_eq!(SignedDecomposer::new(0, 1, m).err(), Some(KeyswitchError::ParameterError));
    assert_eq!(SignedDecomposer::new(1, 0, m).err(), Some(KeyswitchError::ParameterError));
    assert_eq!(SignedDecomposer::new(9, 1, m).err(), Some(KeyswitchError::ParameterError));
    assert_eq!(
        SignedDecomposer::new(usize::MAX, usize::MAX, m).err(),
        Some(KeyswitchError::ParameterError)
    );
    assert!(SignedDecomposer::new(2, 4, m).is_ok());
    assert!(SignedDecomposer::new(8, 1, m).is_ok());
    let native = CiphertextModulus::new_native();
    assert!(SignedDecomposer::new(64, 1, native).is_ok());
    assert!(SignedDecomposer::new(1, 64, native).is_ok());
    assert_eq!(SignedDecomposer::new(5, 13, native).err(), Some(KeyswitchError::ParameterError));
}
