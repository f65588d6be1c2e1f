//! Keyswitching for LWE ciphertexts over a power-of-two ciphertext modulus.
//!
//! A keyswitch re-encrypts a ciphertext under another secret key, and possibly another
//! dimension, without decrypting it. It costs some noise, and the choice of the decomposition
//! base and level count trades that noise against the size of the key.
//!
//! The modules, leaves first:
//!
//! - [`error`]: the failures that are reported.
//! - [`modulus`]: the moduli `2^q` and arithmetic on residues.
//! - [`dispersion`]: noise dispersions in their three forms, held exactly by exponents.
//! - [`encoding`]: messages in the high bits of a residue, and rounding a phase to one.
//! - [`decomposition`]: rounding a residue and writing it with signed digits.
//! - [`lwe`], [`glwe`]: secret keys and ciphertexts, encryption from given samples, phases.
//! - [`gadget`]: the product of a decomposed mask with the rows of a key.
//! - [`lwe_keyswitch_key`], [`lwe_packing_keyswitch_key`]: the keys and their generation.
//! - [`lwe_keyswitch`]: one ciphertext switched to another LWE key.
//! - [`lwe_packing_keyswitch`]: a list of ciphertexts switched to a GLWE key and packed.
//! - [`batch`]: many independent transforms under one contract, whatever the backend.
//! - [`noise`], [`packing_noise`]: what the outputs decrypt to, exactly, and when the
//!   message is kept.
//! - [`sums`], [`ring`]: sums and polynomial products that the noise accounting rests on.
//!
//! Randomness is never drawn here: generation and encryption take the samples that the
//! caller drew, so every function returns the same output for the same arguments.

pub mod batch;
pub mod decomposition;
pub mod dispersion;
pub mod encoding;
pub mod error;
pub mod gadget;
pub mod glwe;
pub mod lwe;
pub mod lwe_keyswitch;
pub mod lwe_keyswitch_key;
pub mod lwe_packing_keyswitch;
pub mod lwe_packing_keyswitch_key;
pub mod modulus;
pub mod noise;
pub mod packing_noise;
pub mod ring;
pub mod sums;
