use keyswitch::decomposition::SignedDecomposer;
use keyswitch::modulus::CiphertextModulus;

#[test]
fn digits_of_known_values() {
    // modulus 2^8, base 4, three levels: the representable values are the multiples of 4
    let m = CiphertextModulus::try_new_power_of_2(8).unwrap();
    let d = SignedDecomposer::new(2, 3, m).unwrap();
    assert_eq!(d.decompose(77), vec![1, 1, -1]);
    assert_eq!(d.closest_representable_residue(77), 76);
    assert_eq!(d.decompose(130), vec![-2, 0, 1]);
    assert_eq!(d.closest_representable_residue(130), 132);
    // 255 rounds up to the modulus itself, which is zero
    assert_eq!(d.decompose(255), vec![0, 0, 0]);
    assert_eq!(d.closest_representable_residue(255), 0);
    assert_eq!(d.decompose(0), vec![0, 0, 0]);
    // a tie goes up: 2 is as far from 0 as from 4
    assert_eq!(d.decompose(2), vec![0, 0, 1]);
    assert_eq!(d.decompose(1), vec![0, 0, 0]);
    assert_eq!(d.base_log(), 2);
    assert_eq!(d.level_count(), 3);
    assert_eq!(d.modulus().log2(), 8);
}

fn check_every_residue(bits: u32, base_log: usize, levels: usize) {
    let m = CiphertextModulus::try_new_power_of_2(bits).unwrap();
    let d = SignedDecomposer::new(base_log, levels, m).unwrap();
    let modulus: i128 = 1 << bits;
    let step: i128 = 1 << (bits as usize - base_log * levels);
    let half_base: i64 = 1 << (base_log - 1);
    for x in 0..(modulus as u64) {
        let digits = d.decompose(x);
        assert_eq!(digits.len(), levels);
        let mut sum: i128 = 0;
        for (j, digit) in digits.iter().enumerate() {
            assert!(-half_base <= *digit && *digit < half_base);
            sum += *digit as i128 * (1i128 << (bits as usize - base_log * (j + 1)));
        }
        let closest = ((x as i128 + step / 2) / step) * step;
        assert!((closest - x as i128).abs() * 2 <= step);
        assert_eq!(sum.rem_euclid(modulus), closest.rem_euclid(modulus));
        assert_eq!(d.closest_representable_residue(x) as i128, closest.rem_euclid(modulus));
    }
}

#[test]
fn digits_recompose_to_the_closest_representable_value_for_every_residue() {
    check_every_residue(8, 2, 3);
    check_every_residue(8, 2, 4);
    check_every_residue(10, 3, 2);
    check_every_residue(9, 1, 5);
    check_every_residue(6, 6, 1);
    check_every_residue(12, 4, 3);
}

#[test]
fn digits_over_the_native_modulus() {
    let d = SignedDecomposer::new(4, 3, CiphertextModulus::new_native()).unwrap();
    // step 2^52; u64::MAX rounds up to 2^64, which is zero
    assert_eq!(d.decompose(u64::MAX), vec![0, 0, 0]);
    assert_eq!(d.decompose(1 << 63), vec![-8, 0, 0]);
    assert_eq!(d.decompose(7 << 60), vec![7, 0, 0]);
    // 7.5 * 2^60: the middle digit 8 becomes -8 and carries, so does the first
    assert_eq!(d.decompose((7 << 60) + (1 << 59)), vec![-8, -8, 0]);
    assert_eq!(d.decompose((6 << 60) + (1 << 59)), vec![7, -8, 0]);
    assert_eq!(d.decompose(3 << 52), vec![0, 0, 3]);
    assert_eq!(d.closest_representable_residue((5 << 52) + 17), 5 << 52);
    let widest = SignedDecomposer::new(64, 1, CiphertextModulus::new_native()).unwrap();
    assert_eq!(widest.decompose(u64::MAX), vec![-1]);
    assert_eq!(widest.decompose(1 << 63), vec![i64::MIN]);
    assert_eq!(widest.decompose((1 << 63) - 1), vec![i64::MAX]);
}
