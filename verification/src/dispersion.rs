//! Noise dispersions whose standard deviation is a power of two.
//!
//! The noise of an encryption is given by the standard deviation `sigma` of a gaussian
//! distribution. Here `sigma = 2^p` for an integer `p`, mostly a negative one, and the same
//! quantity is held in one of three forms, each by its exponent:
//!
//! + `sigma = 2^e` in [`StandardDev`], held by `e`;
//! + `p = log2(sigma)` in [`LogStandardDev`], held by `p`;
//! + `sigma^2 = 2^e` in [`Variance`], held by `e`.
//!
//! Over a ciphertext modulus `M = 2^q` each form has a modular counterpart, scaled by the
//! modulus: `sigma * M = 2^(p + q)`, its logarithm `p + q`, and `(sigma * M)^2 = 2^(2p + 2q)`.
//!
//! Every form is determined by the exponent of the variance, and every conversion is exact. A
//! variance with an odd exponent has no standard deviation among the powers of two; the
//! conversions to a standard deviation say so by returning nothing.

use crate::error::KeyswitchError;
use crate::modulus::CiphertextModulus;
use vstd::arithmetic::power2::*;
use vstd::prelude::*;

verus! {

/// A dispersion held by the base-2 logarithm `p` of the standard deviation `2^p`.
#[derive(Debug, Copy, Clone, PartialEq, Eq, Structural)]
pub struct LogStandardDev(pub i32);

/// The logarithm `p + q` of a standard deviation scaled by the modulus `2^q`.
#[derive(Debug, Copy, Clone, PartialEq, Eq, Structural)]
pub struct ModularLogStandardDev {
    pub value: i64,
    pub log2_modulus: u32,
}

/// A dispersion held by the exponent `e` of the standard deviation `2^e`.
#[derive(Debug, Copy, Clone, PartialEq, Eq, Structural)]
pub struct StandardDev(pub i32);

/// A standard deviation scaled by the modulus `2^q`, held by the exponent of the
/// product.
#[derive(Debug, Copy, Clone, PartialEq, Eq, Structural)]
pub struct ModularStandardDev {
    pub log2_value: i64,
    pub log2_modulus: u32,
}

/// A dispersion held by the exponent `e` of the variance `2^e`.
#[derive(Debug, Copy, Clone, PartialEq, Eq, Structural)]
pub struct Variance(pub i64);

/// A variance scaled by the square of the modulus `2^q`, held by the exponent of the
/// product. The exponent is wide enough for any variance and any modulus.
#[derive(Debug, Copy, Clone, PartialEq, Eq, Structural)]
pub struct ModularVariance {
    pub log2_value: i128,
    pub log2_modulus: u32,
}

/// Whether the variance `2^log2_variance` has a standard deviation that is a power
/// of two with a 32-bit exponent.
pub open spec fn has_standard_dev(log2_variance: int) -> bool {
    log2_variance % 2 == 0 && i32::MIN <= log2_variance / 2 <= i32::MAX
}

/// The variance `2^log2_variance`.
pub open spec fn variance_of(log2_variance: int) -> Variance {
    Variance(log2_variance as i64)
}

/// The standard deviation of the variance `2^log2_variance`: the square root, where
/// it is a power of two.
pub open spec fn standard_dev_of(log2_variance: int) -> Option<StandardDev> {
    if has_standard_dev(log2_variance) {
        Some(StandardDev((log2_variance / 2) as i32))
    } else {
        None
    }
}

/// The logarithm of the standard deviation of the variance `2^log2_variance`.
pub open spec fn log_standard_dev_of(log2_variance: int) -> Option<LogStandardDev> {
    if has_standard_dev(log2_variance) {
        Some(LogStandardDev((log2_variance / 2) as i32))
    } else {
        None
    }
}

/// The standard deviation of the variance `2^log2_variance` times the modulus `2^q`.
pub open spec fn modular_standard_dev_of(log2_variance: int, q: u32) -> Option<
    ModularStandardDev,
> {
    if log2_variance % 2 == 0 {
        Some(ModularStandardDev { log2_value: (log2_variance / 2 + q) as i64, log2_modulus: q })
    } else {
        None
    }
}

/// The logarithm of that product.
pub open spec fn modular_log_standard_dev_of(log2_variance: int, q: u32) -> Option<
    ModularLogStandardDev,
> {
    if log2_variance % 2 == 0 {
        Some(ModularLogStandardDev { value: (log2_variance / 2 + q) as i64, log2_modulus: q })
    } else {
        None
    }
}

/// The variance `2^log2_variance` times the square of the modulus `2^q`.
pub open spec fn modular_variance_of(log2_variance: int, q: u32) -> ModularVariance {
    ModularVariance { log2_value: (log2_variance + 2 * q) as i128, log2_modulus: q }
}

/// A dispersion, in any of its forms.
pub trait DispersionParameter: Copy {
    /// The exponent of the variance: the variance is `2^log2_variance`.
    spec fn log2_variance(&self) -> int;

    /// The standard deviation `sigma`, where it is a power of two.
    fn get_standard_dev(&self) -> (r: Option<StandardDev>)
        ensures
            r is Some <==> has_standard_dev(self.log2_variance()),
            r is Some ==> 2 * r->Some_0.0 == self.log2_variance(),
            r == standard_dev_of(self.log2_variance()),
    ;

    /// The variance `sigma^2`.
    fn get_variance(&self) -> (v: Variance)
        ensures
            v.0 == self.log2_variance(),
            v == variance_of(self.log2_variance()),
    ;

    /// The logarithm `log2(sigma)`, where it is an integer.
    fn get_log_standard_dev(&self) -> (r: Option<LogStandardDev>)
        ensures
            r is Some <==> has_standard_dev(self.log2_variance()),
            r is Some ==> 2 * r->Some_0.0 == self.log2_variance(),
            r == log_standard_dev_of(self.log2_variance()),
    ;

    /// The standard deviation scaled by the modulus, `sigma * M`, where `sigma` is a
    /// power of two.
    fn get_modular_standard_dev(&self, modulus: &CiphertextModulus) -> (r: Option<
        ModularStandardDev,
    >)
        ensures
            r is Some <==> self.log2_variance() % 2 == 0,
            r is Some ==> 2 * r->Some_0.log2_value == self.log2_variance() + 2 * modulus.log2()
                && r->Some_0.log2_modulus == modulus.log2(),
            r == modular_standard_dev_of(self.log2_variance(), modulus.log2()),
    ;

    /// The variance scaled by the modulus, `(sigma * M)^2`.
    fn get_modular_variance(&self, modulus: &CiphertextModulus) -> (r: ModularVariance)
        ensures
            r.log2_value == self.log2_variance() + 2 * modulus.log2(),
            r.log2_modulus == modulus.log2(),
            r == modular_variance_of(self.log2_variance(), modulus.log2()),
    ;

    /// The logarithm of the scaled standard deviation, `log2(M) + log2(sigma)`, where
    /// it is an integer.
    fn get_modular_log_standard_dev(&self, modulus: &CiphertextModulus) -> (r: Option<
        ModularLogStandardDev,
    >)
        ensures
            r is Some <==> self.log2_variance() % 2 == 0,
            r is Some ==> 2 * r->Some_0.value == self.log2_variance() + 2 * modulus.log2()
                && r->Some_0.log2_modulus == modulus.log2(),
            r == modular_log_standard_dev_of(self.log2_variance(), modulus.log2()),
    ;
}

/// Half of an exponent, where it is even.
fn half_exponent(e: i64) -> (r: Option<i64>)
    ensures
        r is Some <==> e % 2 == 0,
        r is Some ==> 2 * r->Some_0 == e && r->Some_0 == e / 2,
{
    // moved up by 2^63, an even number, the exponent is not negative
    let raised: u128 = (e as i128 + 0x8000_0000_0000_0000i128) as u128;
    if raised % 2 != 0 {
        return None;
    }
    let half = (raised / 2) as i128 - 0x4000_0000_0000_0000i128;
    Some(half as i64)
}

/// The standard deviation's exponent of the variance `2^e`, where there is one.
fn standard_dev_exponent(e: i64) -> (r: Option<i32>)
    ensures
        r is Some <==> has_standard_dev(e as int),
        r is Some ==> r->Some_0 == e / 2,
{
    match half_exponent(e) {
        Some(half) => {
            if half < -0x8000_0000i64 || half > 0x7fff_ffffi64 {
                None
            } else {
                Some(half as i32)
            }
        },
        None => None,
    }
}

/// The conversions of the variance `2^e`, shared by the three forms.
fn standard_dev_from_variance(e: i64) -> (r: Option<StandardDev>)
    ensures
        r == standard_dev_of(e as int),
{
    match standard_dev_exponent(e) {
        Some(half) => Some(StandardDev(half)),
        None => None,
    }
}

fn log_standard_dev_from_variance(e: i64) -> (r: Option<LogStandardDev>)
    ensures
        r == log_standard_dev_of(e as int),
{
    match standard_dev_exponent(e) {
        Some(half) => Some(LogStandardDev(half)),
        None => None,
    }
}

fn modular_exponent_from_variance(e: i64, q: u32) -> (r: Option<i64>)
    requires
        q <= 64,
    ensures
        r is Some <==> e % 2 == 0,
        r is Some ==> r->Some_0 == e / 2 + q,
{
    match half_exponent(e) {
        Some(half) => Some(half + q as i64),
        None => None,
    }
}

fn modular_variance_from_variance(e: i64, q: u32) -> (r: ModularVariance)
    requires
        q <= 64,
    ensures
        r == modular_variance_of(e as int, q),
{
    ModularVariance { log2_value: e as i128 + 2 * (q as i128), log2_modulus: q }
}

impl LogStandardDev {
    /// The dispersion with the standard deviation `2^log_std`.
    pub fn from_log_standard_dev(log_std: i32) -> (r: Self)
        ensures
            r.0 == log_std,
    {
        LogStandardDev(log_std)
    }

    /// The dispersion whose standard deviation, scaled by the modulus
    /// `2^log2_modulus`, is `2^log_std`; refused when its exponent
    /// `log_std - log2_modulus` is below the least 32-bit number.
    pub fn from_modular_log_standard_dev(log_std: i32, log2_modulus: u32) -> (r: Result<
        Self,
        KeyswitchError,
    >)
        ensures
            r is Ok <==> i32::MIN <= log_std - log2_modulus,
            r is Ok ==> r->Ok_0.0 == log_std - log2_modulus,
            r is Err ==> r->Err_0 == KeyswitchError::ParameterError,
    {
        let exponent = log_std as i64 - log2_modulus as i64;
        if exponent < -0x8000_0000i64 {
            Err(KeyswitchError::ParameterError)
        } else {
            Ok(LogStandardDev(exponent as i32))
        }
    }
}

impl DispersionParameter for LogStandardDev {
    open spec fn log2_variance(&self) -> int {
        2 * self.0
    }

    fn get_standard_dev(&self) -> (r: Option<StandardDev>) {
        Some(StandardDev(self.0))
    }

    fn get_variance(&self) -> (v: Variance) {
        Variance(2 * (self.0 as i64))
    }

    fn get_log_standard_dev(&self) -> (r: Option<LogStandardDev>) {
        Some(LogStandardDev(self.0))
    }

    fn get_modular_standard_dev(&self, modulus: &CiphertextModulus) -> (r: Option<
        ModularStandardDev,
    >) {
        let q = modulus.log2();
        Some(ModularStandardDev { log2_value: self.0 as i64 + q as i64, log2_modulus: q })
    }

    fn get_modular_variance(&self, modulus: &CiphertextModulus) -> (r: ModularVariance) {
        modular_variance_from_variance(2 * (self.0 as i64), modulus.log2())
    }

    fn get_modular_log_standard_dev(&self, modulus: &CiphertextModulus) -> (r: Option<
        ModularLogStandardDev,
    >) {
        let q = modulus.log2();
        Some(ModularLogStandardDev { value: self.0 as i64 + q as i64, log2_modulus: q })
    }
}

impl StandardDev {
    /// The dispersion with the standard deviation `2^log2_std`.
    pub fn from_standard_dev(log2_std: i32) -> (r: Self)
        ensures
            r.0 == log2_std,
    {
        StandardDev(log2_std)
    }

    /// The dispersion whose standard deviation, scaled by the modulus
    /// `2^log2_modulus`, is `2^log2_std`; refused when its exponent
    /// `log2_std - log2_modulus` is below the least 32-bit number.
    pub fn from_modular_standard_dev(log2_std: i32, log2_modulus: u32) -> (r: Result<
        Self,
        KeyswitchError,
    >)
        ensures
            r is Ok <==> i32::MIN <= log2_std - log2_modulus,
            r is Ok ==> r->Ok_0.0 == log2_std - log2_modulus,
            r is Err ==> r->Err_0 == KeyswitchError::ParameterError,
    {
        let exponent = log2_std as i64 - log2_modulus as i64;
        if exponent < -0x8000_0000i64 {
            Err(KeyswitchError::ParameterError)
        } else {
            Ok(StandardDev(exponent as i32))
        }
    }
}

impl DispersionParameter for StandardDev {
    open spec fn log2_variance(&self) -> int {
        2 * self.0
    }

    fn get_standard_dev(&self) -> (r: Option<StandardDev>) {
        Some(StandardDev(self.0))
    }

    fn get_variance(&self) -> (v: Variance) {
        Variance(2 * (self.0 as i64))
    }

    fn get_log_standard_dev(&self) -> (r: Option<LogStandardDev>) {
        Some(LogStandardDev(self.0))
    }

    fn get_modular_standard_dev(&self, modulus: &CiphertextModulus) -> (r: Option<
        ModularStandardDev,
    >) {
        let q = modulus.log2();
        Some(ModularStandardDev { log2_value: self.0 as i64 + q as i64, log2_modulus: q })
    }

    fn get_modular_variance(&self, modulus: &CiphertextModulus) -> (r: ModularVariance) {
        modular_variance_from_variance(2 * (self.0 as i64), modulus.log2())
    }

    fn get_modular_log_standard_dev(&self, modulus: &CiphertextModulus) -> (r: Option<
        ModularLogStandardDev,
    >) {
        let q = modulus.log2();
        Some(ModularLogStandardDev { value: self.0 as i64 + q as i64, log2_modulus: q })
    }
}

impl Variance {
    /// The dispersion with the variance `2^log2_var`.
    pub fn from_variance(log2_var: i64) -> (r: Self)
        ensures
            r.0 == log2_var,
    {
        Variance(log2_var)
    }

    /// The dispersion whose variance, scaled by the square of the modulus
    /// `2^log2_modulus`, is `2^log2_var`; refused when its exponent
    /// `log2_var - 2 * log2_modulus` is below the least 64-bit number.
    pub fn from_modular_variance(log2_var: i64, log2_modulus: u32) -> (r: Result<
        Self,
        KeyswitchError,
    >)
        ensures
            r is Ok <==> i64::MIN <= log2_var - 2 * log2_modulus,
            r is Ok ==> r->Ok_0.0 == log2_var - 2 * log2_modulus,
            r is Err ==> r->Err_0 == KeyswitchError::ParameterError,
    {
        let exponent = log2_var as i128 - 2 * (log2_modulus as i128);
        if exponent < -0x8000_0000_0000_0000i128 {
            Err(KeyswitchError::ParameterError)
        } else {
            Ok(Variance(exponent as i64))
        }
    }
}

impl DispersionParameter for Variance {
    open spec fn log2_variance(&self) -> int {
        self.0 as int
    }

    fn get_standard_dev(&self) -> (r: Option<StandardDev>) {
        standard_dev_from_variance(self.0)
    }

    fn get_variance(&self) -> (v: Variance) {
        Variance(self.0)
    }

    fn get_log_standard_dev(&self) -> (r: Option<LogStandardDev>) {
        log_standard_dev_from_variance(self.0)
    }

    fn get_modular_standard_dev(&self, modulus: &CiphertextModulus) -> (r: Option<
        ModularStandardDev,
    >) {
        let q = modulus.log2();
        match modular_exponent_from_variance(self.0, q) {
            Some(log2_value) => Some(ModularStandardDev { log2_value, log2_modulus: q }),
            None => None,
        }
    }

    fn get_modular_variance(&self, modulus: &CiphertextModulus) -> (r: ModularVariance) {
        modular_variance_from_variance(self.0, modulus.log2())
    }

    fn get_modular_log_standard_dev(&self, modulus: &CiphertextModulus) -> (r: Option<
        ModularLogStandardDev,
    >) {
        let q = modulus.log2();
        match modular_exponent_from_variance(self.0, q) {
            Some(value) => Some(ModularLogStandardDev { value, log2_modulus: q }),
            None => None,
        }
    }
}

/// The forms agree with one another. For a standard deviation `sigma = 2^e` and a
/// modulus `M = 2^q`: the variance is `sigma^2`, with the exponent `2e`; the modular
/// standard deviation is `sigma * M`, with the exponent `e + q`; and the modular
/// logarithm of the standard deviation is `log2(M) + log2(sigma) = q + e`. Read as
/// numbers, where the exponents allow it: `2^(2e) = 2^e * 2^e`, and
/// `2^(e + q) * 2^(-e) = M`.
pub proof fn lemma_dispersion_forms(sigma: StandardDev, modulus: CiphertextModulus)
    requires
        modulus.wf(),
    ensures
        variance_of(sigma.log2_variance()).0 == 2 * sigma.0,
        modular_standard_dev_of(sigma.log2_variance(), modulus.log2()) == Some(
            ModularStandardDev {
                log2_value: (sigma.0 + modulus.log2()) as i64,
                log2_modulus: modulus.log2(),
            },
        ),
        modular_log_standard_dev_of(sigma.log2_variance(), modulus.log2()) == Some(
            ModularLogStandardDev {
                value: (modulus.log2() + sigma.0) as i64,
                log2_modulus: modulus.log2(),
            },
        ),
        modular_variance_of(sigma.log2_variance(), modulus.log2()).log2_value == 2 * (sigma.0
            + modulus.log2()),
        sigma.0 >= 0 ==> pow2((2 * sigma.0) as nat) == pow2(sigma.0 as nat) * pow2(sigma.0 as nat),
        sigma.0 <= 0 <= sigma.0 + modulus.log2() ==> pow2((sigma.0 + modulus.log2()) as nat)
            * pow2((-sigma.0) as nat) == modulus.value(),
{
    modulus.lemma_wf();
    if sigma.0 >= 0 {
        lemma_pow2_adds(sigma.0 as nat, sigma.0 as nat);
    }
    if sigma.0 <= 0 <= sigma.0 + modulus.log2() {
        lemma_pow2_adds((sigma.0 + modulus.log2()) as nat, (-sigma.0) as nat);
    }
}

/// A standard deviation, taken to its variance and back, is the standard deviation
/// it was.
pub proof fn lemma_standard_dev_round_trip(sigma: StandardDev)
    ensures
        standard_dev_of(variance_of(sigma.log2_variance()).log2_variance()) == Some(sigma),
{
}

/// The logarithm of a standard deviation, taken to its variance and back, is the
/// logarithm it was.
pub proof fn lemma_log_standard_dev_round_trip(log_sigma: LogStandardDev)
    ensures
        log_standard_dev_of(variance_of(log_sigma.log2_variance()).log2_variance()) == Some(
            log_sigma,
        ),
        standard_dev_of(log_sigma.log2_variance()) == Some(StandardDev(log_sigma.0)),
{
}

/// A variance that has a standard deviation, taken to it and back, is the variance
/// it was; and no form holds more than the variance does.
pub proof fn lemma_variance_round_trip(variance: Variance)
    requires
        has_standard_dev(variance.log2_variance()),
    ensures
        variance_of(standard_dev_of(variance.log2_variance())->Some_0.log2_variance())
            == variance,
        variance_of(log_standard_dev_of(variance.log2_variance())->Some_0.log2_variance())
            == variance,
{
}

/// Scaling by a modulus and back gives the dispersion it was.
pub proof fn lemma_modular_round_trip(sigma: StandardDev, q: u32)
    requires
        q <= 64,
    ensures
        modular_standard_dev_of(sigma.log2_variance(), q)->Some_0.log2_value - q == sigma.0,
        modular_log_standard_dev_of(sigma.log2_variance(), q)->Some_0.value - q == sigma.0,
        modular_variance_of(sigma.log2_variance(), q).log2_value - 2 * q
            == sigma.log2_variance(),
{
}

} // verus!
