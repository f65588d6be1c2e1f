use keyswitch::encoding::{decode_message, encode_message};
use keyswitch::error::KeyswitchError;
use keyswitch::modulus::CiphertextModulus;

#[test]
fn encoding_puts_the_message_in_the_high_bits() {
    let m = CiphertextModulus::try_new_power_of_2(8).unwrap();
    assert_eq!(encode_message(5, 3, &m), Ok(160));
    assert_eq!(encode_message(7, 3, &m), Ok(224));
    assert_eq!(encode_message(0, 3, &m), Ok(0));
    assert_eq!(encode_message(255, 8, &m), Ok(255));
    assert_eq!(encode_message(8, 3, &m), Err(KeyswitchError::ParameterError));
    assert_eq!(encode_message(1, 0, &m), Err(KeyswitchError::ParameterError));
    assert_eq!(encode_message(1, 9, &m), Err(KeyswitchError::ParameterError));
    let native = CiphertextModulus::new_native();
    assert_eq!(encode_message(9, 4, &native), Ok(9 << 60));
    assert_eq!(encode_message(u64::MAX, 64, &native), Ok(u64::MAX));
}

#[test]
fn decoding_rounds_to_the_closest_message() {
    let m = CiphertextModulus::try_new_power_of_2(8).unwrap();
    // the step is 32: 160 is the message 5
    assert_eq!(decode_message(160, 3, &m), Ok(5));
    assert_eq!(decode_message(160 + 15, 3, &m), Ok(5));
    assert_eq!(decode_message(160 - 16, 3, &m), Ok(5));
    // a tie goes up
    assert_eq!(decode_message(160 + 16, 3, &m), Ok(6));
    assert_eq!(decode_message(160 - 17, 3, &m), Ok(4));
    // just below the modulus is the message 0 with a negative noise
    assert_eq!(decode_message(250, 3, &m), Ok(0));
    assert_eq!(decode_message(239, 3, &m), Ok(7));
    assert_eq!(decode_message(77, 8, &m), Ok(77));
    assert_eq!(decode_message(1, 0, &m), Err(KeyswitchError::ParameterError));
    assert_eq!(decode_message(1, 9, &m), Err(KeyswitchError::ParameterError));
    let native = CiphertextModulus::new_native();
    assert_eq!(decode_message((9 << 60) + 12345, 4, &native), Ok(9));
    assert_eq!(decode_message(u64::MAX, 4, &native), Ok(0));
    assert_eq!(decode_message(u64::MAX, 64, &native), Ok(u64::MAX));
}

#[test]
fn decoding_undoes_encoding_under_every_noise_below_half_a_step() {
    let m = CiphertextModulus::try_new_power_of_2(10).unwrap();
    for bits in 1..=10u32 {
        let step: i64 = 1 << (10 - bits);
        for message in 0..(1u64 << bits) {
            let exact = encode_message(message, bits, &m).unwrap() as i64;
            let mut noise = -(step / 2);
            while 2 * noise < step {
                let phase = (exact + noise).rem_euclid(1024) as u64;
                assert_eq!(decode_message(phase, bits, &m), Ok(message));
                noise += 1;
            }
        }
    }
}
