//! Power-of-two ciphertext moduli and arithmetic on residues.
//!
//! A ciphertext modulus is `2^q` with `1 <= q <= 64`. A residue is stored in a `u64` and is
//! always reduced, that is, smaller than the modulus.

use crate::error::KeyswitchError;
use vstd::arithmetic::div_mod::*;
use vstd::arithmetic::mul::*;
use vstd::arithmetic::power2::*;
use vstd::bits::lemma_u64_low_bits_mask_is_mod;
use vstd::prelude::*;

verus! {

/// The largest supported exponent: residues are held in 64-bit words.
pub const MAX_MODULUS_LOG2: u32 = 64;

/// `2^e <= 2^64` for every exponent up to 64, and `2^e >= 2` from exponent 1 on.
pub proof fn lemma_pow2_bounds(e: nat)
    requires
        e <= 64,
    ensures
        1 <= pow2(e) <= 0x1_0000_0000_0000_0000,
        e >= 1 ==> pow2(e) >= 2,
        e <= 63 ==> pow2(e) <= 0x8000_0000_0000_0000,
{
    lemma2_to64();
    lemma2_to64_rest();
    lemma_pow2_pos(e);
    if e < 64 {
        lemma_pow2_strictly_increases(e, 64);
    }
    if e < 63 {
        lemma_pow2_strictly_increases(e, 63);
    }
    if e >= 1 {
        if e > 1 {
            lemma_pow2_strictly_increases(1, e);
        }
    }
}

/// `2^a <= 2^b` exactly when `a <= b`.
pub proof fn lemma_pow2_order(a: nat, b: nat)
    ensures
        a <= b <==> pow2(a) <= pow2(b),
{
    if a < b {
        lemma_pow2_strictly_increases(a, b);
    } else if b < a {
        lemma_pow2_strictly_increases(b, a);
    }
}

/// `2^e <= 2^127` for every exponent up to 127: the powers that a 128-bit word holds.
pub proof fn lemma_pow2_fits_u128(e: nat)
    requires
        e <= 127,
    ensures
        1 <= pow2(e) <= 0x8000_0000_0000_0000_0000_0000_0000_0000,
{
    lemma2_to64();
    lemma2_to64_rest();
    lemma_pow2_pos(e);
    lemma_pow2_adds(64, 63);
    assert(pow2(127) == 0x8000_0000_0000_0000_0000_0000_0000_0000) by {
        assert(0x1_0000_0000_0000_0000int * 0x8000_0000_0000_0000int
            == 0x8000_0000_0000_0000_0000_0000_0000_0000int) by (nonlinear_arith);
    }
    if e < 127 {
        lemma_pow2_strictly_increases(e, 127);
    }
}

/// Computes `2^e` for every power that a 128-bit word holds, `e <= 127`.
pub fn pow2_u128(e: u32) -> (r: u128)
    requires
        e <= 127,
    ensures
        r == pow2(e as nat),
{
    let mut r: u128 = 1;
    let mut i: u32 = 0;
    proof {
        lemma2_to64();
    }
    while i < e
        invariant
            i <= e <= 127,
            r == pow2(i as nat),
        decreases e - i,
    {
        proof {
            lemma_pow2_fits_u128(i as nat);
            lemma_pow2_fits_u128((i + 1) as nat);
            lemma_pow2_unfold((i + 1) as nat);
        }
        r = r * 2;
        i = i + 1;
    }
    r
}

/// The low 64 bits of a number are its residue modulo `2^64`.
proof fn lemma_low_word(x: u128)
    by (bit_vector)
    ensures
        ((x as u64) as u128) == x % 0x1_0000_0000_0000_0000u128,
{
}

/// A ciphertext modulus `2^q`, `1 <= q <= 64`.
#[derive(Clone, Copy, Debug)]
pub struct CiphertextModulus {
    log2: u32,
    value: u128,
    mask: u64,
}

impl CiphertextModulus {
    /// The exponent is between 1 and 64, the stored value is the power it names, and
    /// the stored mask has exactly the bits below that power.
    #[verifier::type_invariant]
    pub closed spec fn wf(self) -> bool {
        &&& 1 <= self.log2 <= MAX_MODULUS_LOG2
        &&& self.value == pow2(self.log2 as nat)
        &&& self.mask == self.value - 1
    }

    /// The exponent `q`.
    pub closed spec fn spec_log2(&self) -> u32 {
        self.log2
    }

    /// The modulus `2^q` as a number.
    pub closed spec fn spec_value(&self) -> u128 {
        self.value
    }

    /// What validity says of the exponent and of the value.
    pub proof fn lemma_wf(self)
        requires
            self.wf(),
        ensures
            1 <= self.log2() <= 64,
            self.value() == pow2(self.log2() as nat),
            2 <= self.value() <= 0x1_0000_0000_0000_0000,
    {
        lemma_pow2_bounds(self.log2 as nat);
    }

    /// The modulus `2^64` of plain 64-bit words.
    pub fn new_native() -> (m: Self)
        ensures
            m.wf(),
            m.log2() == 64,
            m.value() == 0x1_0000_0000_0000_0000,
    {
        proof {
            lemma2_to64();
        }
        CiphertextModulus {
            log2: 64,
            value: 0x1_0000_0000_0000_0000u128,
            mask: 0xffff_ffff_ffff_ffffu64,
        }
    }

    /// The modulus `2^exponent`; refused unless `1 <= exponent <= 64`.
    pub fn try_new_power_of_2(exponent: u32) -> (r: Result<Self, KeyswitchError>)
        ensures
            (1 <= exponent <= 64) ==> r is Ok && r->Ok_0.wf() && r->Ok_0.log2() == exponent
                && r->Ok_0.value() == pow2(exponent as nat),
            !(1 <= exponent <= 64) ==> r == Err::<Self, KeyswitchError>(
                KeyswitchError::ParameterError,
            ),
    {
        if exponent < 1 || exponent > MAX_MODULUS_LOG2 {
            return Err(KeyswitchError::ParameterError);
        }
        let value = pow2_u128(exponent);
        proof {
            lemma_pow2_bounds(exponent as nat);
        }
        Ok(CiphertextModulus { log2: exponent, value, mask: (value - 1) as u64 })
    }

    /// The exponent `q`.
    #[verifier::when_used_as_spec(spec_log2)]
    pub fn log2(&self) -> (q: u32)
        ensures
            q == self.log2(),
            1 <= q <= 64,
            self.wf(),
    {
        proof {
            use_type_invariant(self);
        }
        self.log2
    }

    /// The modulus `2^q` as a number.
    #[verifier::when_used_as_spec(spec_value)]
    pub fn value(&self) -> (v: u128)
        ensures
            v == self.value(),
            v == pow2(self.log2() as nat),
            2 <= v <= 0x1_0000_0000_0000_0000,
            self.wf(),
    {
        proof {
            use_type_invariant(self);
            self.lemma_wf();
        }
        self.value
    }

    /// Whether two moduli are the same.
    pub fn same_as(&self, other: &Self) -> (b: bool)
        ensures
            b == (*self == *other),
    {
        proof {
            use_type_invariant(self);
            use_type_invariant(other);
        }
        self.log2 == other.log2
    }

    /// Whether `x` is a reduced residue.
    pub fn contains(&self, x: u64) -> (b: bool)
        ensures
            b == (x < self.value()),
    {
        (x as u128) < self.value()
    }

    /// The residue of `x`.
    pub fn reduce(&self, x: u128) -> (r: u64)
        ensures
            r == x % self.value(),
            r < self.value(),
    {
        // the modulus is a power of two: keep the bits below it
        #[verifier::truncate]
        let low = x as u64;
        let r = low & self.mask;
        proof {
            use_type_invariant(self);
            let q = self.log2 as nat;
            lemma_pow2_bounds(q);
            lemma2_to64();
            lemma_low_word(x);
            if q == 64 {
                assert(low & 0xffff_ffff_ffff_ffffu64 == low) by (bit_vector);
            } else {
                lemma_u64_low_bits_mask_is_mod(low, q);
                // 2^q divides 2^64
                lemma_pow2_adds(q, (64 - q) as nat);
                lemma_pow2_pos((64 - q) as nat);
                lemma_mod_mod(x as int, pow2(q) as int, pow2((64 - q) as nat) as int);
            }
        }
        r
    }

    /// The residue of `a + b`.
    pub fn add_mod(&self, a: u64, b: u64) -> (r: u64)
        ensures
            r == (a + b) % (self.value() as int),
            r < self.value(),
    {
        self.reduce(a as u128 + b as u128)
    }

    /// The residue of `a - b`.
    pub fn sub_mod(&self, a: u64, b: u64) -> (r: u64)
        ensures
            r == (a - b) % (self.value() as int),
            r < self.value(),
    {
        let m = self.value();
        let b_red = self.reduce(b as u128) as u128;
        let r = self.reduce(a as u128 + (m - b_red));
        proof {
            let mi = m as int;
            // a + (m - b % m) is a - b plus a multiple of m
            lemma_fundamental_div_mod(b as int, mi);
            let q = b as int / mi;
            assert(a + (mi - b_red) == (a - b) + (q + 1) * mi) by {
                lemma_mul_is_distributive_add_other_way(mi, q, 1);
                lemma_mul_is_commutative(mi, q);
            }
            lemma_mod_multiples_vanish(q + 1, a - b, mi);
        }
        r
    }

    /// The residue of `a * b`.
    pub fn mul_mod(&self, a: u64, b: u64) -> (r: u64)
        ensures
            r == (a * b) % (self.value() as int),
            r < self.value(),
    {
        proof {
            lemma_mul_upper_bound(a as int, u64::MAX as int, b as int, u64::MAX as int);
            lemma_mul_nonnegative(a as int, b as int);
        }
        self.reduce(a as u128 * b as u128)
    }

    /// The residue of `acc - scalar * x`, for a signed scalar.
    pub fn sub_scalar_mul(&self, acc: u64, scalar: i64, x: u64) -> (r: u64)
        ensures
            r == (acc - scalar * x) % (self.value() as int),
            r < self.value(),
    {
        let m = self.value();
        if scalar >= 0 {
            let p = self.mul_mod(scalar as u64, x);
            let r = self.sub_mod(acc, p);
            proof {
                lemma_sub_mod_noop_right(acc as int, scalar * x, m as int);
            }
            r
        } else {
            // -scalar is at most 2^63 and fits a u64
            let magnitude: u64 = ((-(scalar + 1)) as u64) + 1;
            let p = self.mul_mod(magnitude, x);
            let r = self.add_mod(acc, p);
            proof {
                assert(magnitude == -scalar);
                assert(magnitude * x == -(scalar * x)) by (nonlinear_arith)
                    requires
                        magnitude == -scalar,
                ;
                lemma_add_mod_noop_right(acc as int, magnitude * x, m as int);
            }
            r
        }
    }
}

} // verus!
