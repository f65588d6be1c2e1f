use keyswitch::error::KeyswitchError;
use keyswitch::glwe::{
    decrypt_glwe_ciphertext, encrypt_glwe_ciphertext, mask_key_product_mod, zeros, GlweCiphertext,
    GlweSecretKey,
};
use keyswitch::lwe::{
    decrypt_lwe_ciphertext, dot_mod, encrypt_lwe_ciphertext, LweCiphertext, LweSecretKey,
};
use keyswitch::modulus::CiphertextModulus;

#[test]
fn lwe_encryption_has_the_reduced_mask_and_the_body() {
    let m = CiphertextModulus::try_new_power_of_2(10).unwrap();
    let key = LweSecretKey::from_container(vec![1, 0, 1]);
    let ct = encrypt_lwe_ciphertext(&key, 512, &vec![1030, 7, 1000], 5, m).unwrap();
    // mask 6, 7, 1000; body 6 + 1000 + 512 + 5 = 1523 = 499 mod 1024
    assert_eq!(ct.as_container(), &vec![6, 7, 1000, 499]);
    assert_eq!(ct.lwe_dimension(), 3);
    assert_eq!(ct.body(), 499);
    assert_eq!(ct.modulus().log2(), 10);
    assert_eq!(decrypt_lwe_ciphertext(&key, &ct), Ok(517));
    let copy = ct.duplicate();
    assert_eq!(copy.as_container(), ct.as_container());
}

#[test]
fn lwe_encryption_and_decryption_check_the_dimension() {
    let m = CiphertextModulus::new_native();
    let key = LweSecretKey::from_container(vec![1, 0, 1]);
    assert_eq!(
        encrypt_lwe_ciphertext(&key, 1, &vec![1, 2], 0, m).err(),
        Some(KeyswitchError::DimensionMismatch)
    );
    let ct = LweCiphertext::new(2, m).unwrap();
    assert_eq!(decrypt_lwe_ciphertext(&key, &ct), Err(KeyswitchError::DimensionMismatch));
}

#[test]
fn lwe_ciphertext_construction() {
    let m = CiphertextModulus::try_new_power_of_2(4).unwrap();
    assert_eq!(LweCiphertext::new(3, m).unwrap().as_container(), &vec![0, 0, 0, 0]);
    assert_eq!(LweCiphertext::new(0, m).unwrap().as_container(), &vec![0]);
    assert_eq!(LweCiphertext::new(usize::MAX, m).err(), Some(KeyswitchError::ParameterError));
    assert_eq!(
        LweCiphertext::from_container(vec![], m).err(),
        Some(KeyswitchError::ParameterError)
    );
    assert_eq!(
        LweCiphertext::from_container(vec![1, 16], m).err(),
        Some(KeyswitchError::ParameterError)
    );
    let ct = LweCiphertext::from_container(vec![1, 15], m).unwrap();
    assert_eq!(ct.lwe_dimension(), 1);
    assert_eq!(ct.body(), 15);
}

#[test]
fn dot_product_modulo() {
    let m = CiphertextModulus::try_new_power_of_2(8).unwrap();
    assert_eq!(dot_mod(&vec![1, 2, 3], &vec![100, 100, 100], 3, &m), 88);
    assert_eq!(dot_mod(&vec![1, 2, 3], &vec![100, 100, 100], 2, &m), 44);
    assert_eq!(dot_mod(&vec![1, 2, 3], &vec![100, 100, 100], 0, &m), 0);
    let native = CiphertextModulus::new_native();
    assert_eq!(dot_mod(&vec![u64::MAX, 2], &vec![u64::MAX, 3], 2, &native), 7);
}

#[test]
fn product_modulo_x_to_the_n_plus_one() {
    let m = CiphertextModulus::try_new_power_of_2(8).unwrap();
    // (1 + 2X) * (3 + 4X) = 3 + 10X + 8X^2 = (3 - 8) + 10X
    let a = vec![1, 2];
    let s = vec![3, 4];
    assert_eq!(mask_key_product_mod(&a, &s, 1, 2, 0, &m), 251);
    assert_eq!(mask_key_product_mod(&a, &s, 1, 2, 1, &m), 10);
    // two polynomials: add (5 + 6X) * (0 + 1X) = 5X + 6X^2 = -6 + 5X
    let a = vec![1, 2, 5, 6];
    let s = vec![3, 4, 0, 1];
    assert_eq!(mask_key_product_mod(&a, &s, 2, 2, 0, &m), 245);
    assert_eq!(mask_key_product_mod(&a, &s, 2, 2, 1, &m), 15);
    assert_eq!(mask_key_product_mod(&a, &s, 0, 2, 1, &m), 0);
}

#[test]
fn glwe_encryption_and_phase() {
    let m = CiphertextModulus::try_new_power_of_2(8).unwrap();
    let key = GlweSecretKey::from_container(vec![3, 4, 0, 1], 2).unwrap();
    assert_eq!(key.glwe_dimension(), 2);
    assert_eq!(key.polynomial_size(), 2);
    let ct = encrypt_glwe_ciphertext(&key, &vec![100, 50], &vec![257, 2, 5, 6], &vec![1, 2], m)
        .unwrap();
    // body: (245 + 100 + 1, 15 + 50 + 2)
    assert_eq!(ct.as_container(), &vec![1, 2, 5, 6, 90, 67]);
    assert_eq!(ct.glwe_dimension(), 2);
    assert_eq!(ct.polynomial_size(), 2);
    assert_eq!(decrypt_glwe_ciphertext(&key, &ct), Ok(vec![101, 52]));
    let other = GlweSecretKey::from_container(vec![3, 4], 2).unwrap();
    assert_eq!(decrypt_glwe_ciphertext(&other, &ct), Err(KeyswitchError::DimensionMismatch));
    assert_eq!(
        encrypt_glwe_ciphertext(&key, &vec![100], &vec![257, 2, 5, 6], &vec![1, 2], m).err(),
        Some(KeyswitchError::DimensionMismatch)
    );
    assert_eq!(
        encrypt_glwe_ciphertext(&key, &vec![100, 50], &vec![257, 2, 5], &vec![1, 2], m).err(),
        Some(KeyswitchError::DimensionMismatch)
    );
    assert_eq!(
        encrypt_glwe_ciphertext(&key, &vec![100, 50], &vec![257, 2, 5, 6], &vec![1], m).err(),
        Some(KeyswitchError::DimensionMismatch)
    );
}

#[test]
fn glwe_construction() {
    let m = CiphertextModulus::try_new_power_of_2(4).unwrap();
    assert_eq!(
        GlweSecretKey::from_container(vec![1, 2, 3], 2).err(),
        Some(KeyswitchError::ParameterError)
    );
    assert_eq!(
        GlweSecretKey::from_container(vec![1, 2], 0).err(),
        Some(KeyswitchError::ParameterError)
    );
    assert_eq!(GlweSecretKey::from_container(vec![], 4).unwrap().glwe_dimension(), 0);
    let ct = GlweCiphertext::new(1, 3, m).unwrap();
    assert_eq!(ct.as_container(), &zeros(6));
    assert_eq!(GlweCiphertext::new(1, 0, m).err(), Some(KeyswitchError::ParameterError));
    assert_eq!(GlweCiphertext::new(usize::MAX, 1, m).err(), Some(KeyswitchError::ParameterError));
    assert_eq!(
        GlweCiphertext::new(usize::MAX / 2, 4, m).err(),
        Some(KeyswitchError::ParameterError)
    );
    let ct = GlweCiphertext::from_container(vec![1, 2, 3, 4, 5, 6], 2, m).unwrap();
    assert_eq!(ct.glwe_dimension(), 2);
    assert_eq!(
        GlweCiphertext::from_container(vec![1, 2, 3], 2, m).err(),
        Some(KeyswitchError::ParameterError)
    );
    assert_eq!(
        GlweCiphertext::from_container(vec![1, 16], 2, m).err(),
        Some(KeyswitchError::ParameterError)
    );
    assert_eq!(
        GlweCiphertext::from_container(vec![], 2, m).err(),
        Some(KeyswitchError::ParameterError)
    );
}
