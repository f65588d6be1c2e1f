use keyswitch::dispersion::{
    DispersionParameter, LogStandardDev, ModularLogStandardDev, ModularStandardDev,
    ModularVariance, StandardDev, Variance,
};
use keyswitch::error::KeyswitchError;
use keyswitch::glwe::GlweSecretKey;
use keyswitch::lwe::LweSecretKey;
use keyswitch::lwe_keyswitch_key::LweKeyswitchKey;
use keyswitch::lwe_packing_keyswitch_key::LwePackingKeyswitchKey;
use keyswitch::modulus::CiphertextModulus;

fn modulus(bits: u32) -> CiphertextModulus {
    CiphertextModulus::try_new_power_of_2(bits).unwrap()
}

#[test]
fn log_standard_dev_of_two_to_the_minus_25() {
    let params = LogStandardDev::from_log_standard_dev(-25);
    assert_eq!(params.get_standard_dev(), Some(StandardDev(-25)));
    assert_eq!(params.get_log_standard_dev(), Some(LogStandardDev(-25)));
    assert_eq!(params.get_variance(), Variance(-50));
    let m = modulus(32);
    assert_eq!(
        params.get_modular_standard_dev(&m),
        Some(ModularStandardDev { log2_value: 32 - 25, log2_modulus: 32 })
    );
    assert_eq!(
        params.get_modular_log_standard_dev(&m),
        Some(ModularLogStandardDev { value: 32 - 25, log2_modulus: 32 })
    );
    assert_eq!(
        params.get_modular_variance(&m),
        ModularVariance { log2_value: 14, log2_modulus: 32 }
    );
    let modular_params = LogStandardDev::from_modular_log_standard_dev(22, 32).unwrap();
    assert_eq!(modular_params.get_standard_dev(), Some(StandardDev(-10)));
}

#[test]
fn standard_dev_of_two_to_the_minus_25() {
    let params = StandardDev::from_standard_dev(-25);
    assert_eq!(params.get_standard_dev(), Some(StandardDev(-25)));
    assert_eq!(params.get_log_standard_dev(), Some(LogStandardDev(-25)));
    assert_eq!(params.get_variance(), Variance(-50));
    let m = modulus(32);
    assert_eq!(
        params.get_modular_standard_dev(&m),
        Some(ModularStandardDev { log2_value: 7, log2_modulus: 32 })
    );
    assert_eq!(
        params.get_modular_log_standard_dev(&m),
        Some(ModularLogStandardDev { value: 7, log2_modulus: 32 })
    );
    assert_eq!(
        params.get_modular_variance(&m),
        ModularVariance { log2_value: 14, log2_modulus: 32 }
    );
    assert_eq!(StandardDev::from_modular_standard_dev(7, 32), Ok(StandardDev(-25)));
}

#[test]
fn variance_of_two_to_the_minus_50() {
    let params = Variance::from_variance(-50);
    assert_eq!(params.get_standard_dev(), Some(StandardDev(-25)));
    assert_eq!(params.get_log_standard_dev(), Some(LogStandardDev(-25)));
    assert_eq!(params.get_variance(), Variance(-50));
    let m = modulus(32);
    assert_eq!(
        params.get_modular_standard_dev(&m),
        Some(ModularStandardDev { log2_value: 7, log2_modulus: 32 })
    );
    assert_eq!(
        params.get_modular_log_standard_dev(&m),
        Some(ModularLogStandardDev { value: 7, log2_modulus: 32 })
    );
    assert_eq!(
        params.get_modular_variance(&m),
        ModularVariance { log2_value: 14, log2_modulus: 32 }
    );
    assert_eq!(Variance::from_modular_variance(14, 32), Ok(Variance(-50)));
}

#[test]
fn a_variance_with_an_odd_exponent_has_no_standard_dev() {
    let odd = Variance::from_variance(-49);
    let m = CiphertextModulus::new_native();
    assert_eq!(odd.get_standard_dev(), None);
    assert_eq!(odd.get_log_standard_dev(), None);
    assert_eq!(odd.get_modular_standard_dev(&m), None);
    assert_eq!(odd.get_modular_log_standard_dev(&m), None);
    assert_eq!(odd.get_modular_variance(&m), ModularVariance { log2_value: 79, log2_modulus: 64 });
    assert_eq!(Variance(7).get_standard_dev(), None);
    assert_eq!(Variance(-1).get_standard_dev(), None);
    assert_eq!(Variance(i64::MAX).get_standard_dev(), None);
}

#[test]
fn standard_dev_to_variance_and_back_for_small_and_moderate_values() {
    for exponent in [-60, -10, -1, 0, 1, 31, i32::MIN, i32::MAX] {
        let sigma = StandardDev::from_standard_dev(exponent);
        let variance = sigma.get_variance();
        assert_eq!(variance, Variance(2 * exponent as i64));
        assert_eq!(variance.get_standard_dev(), Some(sigma));
        let log_sigma = LogStandardDev::from_log_standard_dev(exponent);
        assert_eq!(log_sigma.get_variance().get_log_standard_dev(), Some(log_sigma));
    }
}

#[test]
fn conversions_at_the_edges_of_the_exponents() {
    let m = CiphertextModulus::new_native();
    // an even exponent whose half does not fit 32 bits
    let wide = Variance(1 << 40);
    assert_eq!(wide.get_standard_dev(), None);
    assert_eq!(wide.get_log_standard_dev(), None);
    assert_eq!(
        wide.get_modular_standard_dev(&m),
        Some(ModularStandardDev { log2_value: (1 << 39) + 64, log2_modulus: 64 })
    );
    assert_eq!(
        Variance(i64::MAX).get_modular_variance(&m),
        ModularVariance { log2_value: i64::MAX as i128 + 128, log2_modulus: 64 }
    );
    assert_eq!(
        Variance(i64::MIN).get_modular_variance(&m),
        ModularVariance { log2_value: i64::MIN as i128 + 128, log2_modulus: 64 }
    );
    assert_eq!(
        Variance(i64::MIN).get_modular_standard_dev(&m),
        Some(ModularStandardDev { log2_value: i64::MIN / 2 + 64, log2_modulus: 64 })
    );
    assert_eq!(Variance(i64::MIN).get_standard_dev(), None);
    assert_eq!(Variance(-(1i64 << 32)).get_standard_dev(), Some(StandardDev(i32::MIN)));
    assert_eq!(Variance((1i64 << 32) - 2).get_standard_dev(), Some(StandardDev(i32::MAX)));
    assert_eq!(Variance(1i64 << 32).get_standard_dev(), None);
}

#[test]
fn modular_constructors_refuse_exponents_that_do_not_fit() {
    assert_eq!(
        LogStandardDev::from_modular_log_standard_dev(i32::MIN, 1),
        Err(KeyswitchError::ParameterError)
    );
    assert_eq!(
        LogStandardDev::from_modular_log_standard_dev(i32::MIN, 0),
        Ok(LogStandardDev(i32::MIN))
    );
    assert_eq!(
        LogStandardDev::from_modular_log_standard_dev(i32::MAX, u32::MAX),
        Ok(LogStandardDev(i32::MIN))
    );
    assert_eq!(
        StandardDev::from_modular_standard_dev(-5, u32::MAX),
        Err(KeyswitchError::ParameterError)
    );
    assert_eq!(StandardDev::from_modular_standard_dev(40, 64), Ok(StandardDev(-24)));
    assert_eq!(
        Variance::from_modular_variance(i64::MIN, 1),
        Err(KeyswitchError::ParameterError)
    );
    assert_eq!(Variance::from_modular_variance(i64::MIN + 2, 1), Ok(Variance(i64::MIN)));
    assert_eq!(Variance::from_modular_variance(0, u32::MAX), Ok(Variance(-2 * (u32::MAX as i64))));
}

#[test]
fn a_key_returns_the_dispersion_it_was_generated_with() {
    let m = modulus(32);
    let source = LweSecretKey::from_container(vec![1, 0, 1]);
    let destination = LweSecretKey::from_container(vec![0, 1]);
    let key = LweKeyswitchKey::generate(
        &source,
        &destination,
        4,
        3,
        LogStandardDev::from_log_standard_dev(-25),
        m,
        &vec![0; 18],
        &vec![0; 9],
    )
    .unwrap();
    assert_eq!(key.noise_variance(), Variance(-50));
    assert_eq!(key.modular_noise_variance(), ModularVariance { log2_value: 14, log2_modulus: 32 });
    let ring = GlweSecretKey::from_container(vec![1, 0, 0, 1], 2).unwrap();
    let packing = LwePackingKeyswitchKey::generate(
        &source,
        &ring,
        4,
        3,
        StandardDev::from_standard_dev(-20),
        m,
        &vec![0; 36],
        &vec![0; 18],
    )
    .unwrap();
    assert_eq!(packing.noise_variance(), Variance(-40));
    assert_eq!(
        packing.modular_noise_variance(),
        ModularVariance { log2_value: 24, log2_modulus: 32 }
    );
}

#[test]
fn a_key_gives_its_rows_in_storage_order() {
    let m = modulus(16);
    let source = LweSecretKey::from_container(vec![1, 0]);
    let destination = LweSecretKey::from_container(vec![1]);
    let key = LweKeyswitchKey::generate(
        &source,
        &destination,
        2,
        2,
        Variance(-20),
        m,
        &vec![100, 200, 300, 400],
        &vec![1, 2, 3, 4],
    )
    .unwrap();
    assert_eq!(
        key.as_rows(),
        &vec![vec![100, 16485], vec![200, 4298], vec![300, 303], vec![400, 404]]
    );
}
