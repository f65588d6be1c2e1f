//! LWE secret keys and ciphertexts.
//!
//! A ciphertext of dimension `n` holds `n + 1` residues: the mask `a_0 .. a_{n-1}` and then the
//! body `b`. Under a key `s` its phase is `b - sum(a_k * s_k)` modulo `M`: the encrypted
//! plaintext plus the noise.

use crate::error::KeyswitchError;
use crate::modulus::CiphertextModulus;
use vstd::arithmetic::div_mod::*;
use vstd::prelude::*;

verus! {

/// The sum of `a[k] * s[k]` over `k < n`.
pub open spec fn dot(a: Seq<u64>, s: Seq<u64>, n: nat) -> int
    decreases n,
{
    if n == 0 {
        0
    } else {
        dot(a, s, (n - 1) as nat) + a[n - 1] * s[n - 1]
    }
}

/// Every entry of `data` is a reduced residue.
pub open spec fn all_reduced(data: Seq<u64>, modulus: CiphertextModulus) -> bool {
    forall|k: int| 0 <= k < data.len() ==> (#[trigger] data[k]) < modulus.value()
}

/// The mask that the samples give: each sample reduced.
pub open spec fn reduced_mask(samples: Seq<u64>, modulus: CiphertextModulus) -> Seq<u64> {
    Seq::new(samples.len(), |k: int| (samples[k] as int % (modulus.value() as int)) as u64)
}

/// The phase of the ciphertext `data` under `key`: body minus mask times key.
pub open spec fn lwe_phase(data: Seq<u64>, key: Seq<u64>, modulus: CiphertextModulus) -> int {
    (data.last() - dot(data, key, (data.len() - 1) as nat)) % (modulus.value() as int)
}

/// The encryption of `plaintext` under `key` with the given mask samples and noise:
/// the reduced mask, then the body `mask * key + plaintext + noise`.
pub open spec fn lwe_encryption(
    key: Seq<u64>,
    plaintext: int,
    mask_samples: Seq<u64>,
    noise: int,
    modulus: CiphertextModulus,
) -> Seq<u64> {
    let mask = reduced_mask(mask_samples, modulus);
    mask.push(
        ((dot(mask, key, key.len()) + plaintext + noise) % (modulus.value() as int)) as u64,
    )
}

/// The dot product depends only on the entries below `n`.
pub proof fn lemma_dot_prefix(a1: Seq<u64>, a2: Seq<u64>, s: Seq<u64>, n: nat)
    requires
        n <= a1.len(),
        n <= a2.len(),
        forall|k: int| 0 <= k < n ==> a1[k] == a2[k],
    ensures
        dot(a1, s, n) == dot(a2, s, n),
    decreases n,
{
    if n > 0 {
        lemma_dot_prefix(a1, a2, s, (n - 1) as nat);
    }
}

/// The phase of an encryption is the plaintext plus the noise.
pub proof fn lemma_phase_of_encryption(
    key: Seq<u64>,
    plaintext: int,
    mask_samples: Seq<u64>,
    noise: int,
    modulus: CiphertextModulus,
)
    requires
        modulus.wf(),
        mask_samples.len() == key.len(),
    ensures
        lwe_phase(lwe_encryption(key, plaintext, mask_samples, noise, modulus), key, modulus) == (
        plaintext + noise) % (modulus.value() as int),
{
    modulus.lemma_wf();
    let m = modulus.value() as int;
    let mask = reduced_mask(mask_samples, modulus);
    let data = lwe_encryption(key, plaintext, mask_samples, noise, modulus);
    let d = dot(mask, key, key.len());
    lemma_dot_prefix(data, mask, key, key.len());
    let x = d + plaintext + noise;
    lemma_mod_bound(x, m);
    assert(data.last() == x % m);
    assert(data.len() - 1 == key.len());
    lemma_sub_mod_noop_right(x % m, d, m);
    lemma_sub_mod_noop(x, d, m);
}

/// The residue of the sum of `a[k] * s[k]` over `k < n`.
pub fn dot_mod(a: &Vec<u64>, s: &Vec<u64>, n: usize, modulus: &CiphertextModulus) -> (r: u64)
    requires
        n <= a@.len(),
        n <= s@.len(),
    ensures
        r == dot(a@, s@, n as nat) % (modulus.value() as int),
{
    let m = modulus.value();
    let mut acc: u64 = 0;
    let mut k: usize = 0;
    proof {
        lemma_small_mod(0, m as nat);
    }
    while k < n
        invariant
            k <= n,
            n <= a@.len(),
            n <= s@.len(),
            m == modulus.value(),
            modulus.wf(),
            acc == dot(a@, s@, k as nat) % (m as int),
        decreases n - k,
    {
        let p = modulus.mul_mod(a[k], s[k]);
        let next = modulus.add_mod(acc, p);
        proof {
            modulus.lemma_wf();
            lemma_add_mod_noop(dot(a@, s@, k as nat), a@[k as int] * s@[k as int], m as int);
        }
        acc = next;
        k = k + 1;
    }
    acc
}

/// An LWE secret key: its coefficients, in order. It has no printed form, so that
/// no coefficient reaches a log.
#[derive(Clone)]
pub struct LweSecretKey {
    data: Vec<u64>,
}

impl View for LweSecretKey {
    type V = Seq<u64>;

    closed spec fn view(&self) -> Seq<u64> {
        self.data@
    }
}

impl LweSecretKey {
    /// The key with the given coefficients.
    pub fn from_container(data: Vec<u64>) -> (key: Self)
        ensures
            key@ == data@,
    {
        LweSecretKey { data }
    }

    /// The number of coefficients.
    pub fn lwe_dimension(&self) -> (n: usize)
        ensures
            n == self@.len(),
    {
        self.data.len()
    }

    /// The coefficients.
    pub fn as_container(&self) -> (data: &Vec<u64>)
        ensures
            data@ == self@,
    {
        &self.data
    }
}

/// An LWE ciphertext: the mask, then the body, all reduced modulo its modulus.
#[derive(Debug)]
pub struct LweCiphertext {
    data: Vec<u64>,
    modulus: CiphertextModulus,
}

impl View for LweCiphertext {
    type V = Seq<u64>;

    closed spec fn view(&self) -> Seq<u64> {
        self.data@
    }
}

impl LweCiphertext {
    /// There is a body, and every entry is reduced.
    #[verifier::type_invariant]
    pub closed spec fn wf(self) -> bool {
        &&& self.modulus.wf()
        &&& self.data@.len() >= 1
        &&& all_reduced(self.data@, self.modulus)
    }

    /// The modulus.
    pub closed spec fn spec_modulus(&self) -> CiphertextModulus {
        self.modulus
    }

    /// The dimension: the length of the mask.
    pub open spec fn spec_lwe_dimension(&self) -> usize {
        (self@.len() - 1) as usize
    }

    /// The mask.
    pub open spec fn mask(&self) -> Seq<u64> {
        self@.take(self@.len() - 1)
    }

    /// The body.
    pub open spec fn spec_body(&self) -> u64 {
        self@.last()
    }

    /// What validity says of the entries.
    pub proof fn lemma_wf(self)
        requires
            self.wf(),
        ensures
            self.modulus().wf(),
            self@.len() >= 1,
            all_reduced(self@, self.modulus()),
    {
    }

    /// The ciphertext of the given dimension whose entries are all zero.
    pub fn new(lwe_dimension: usize, modulus: CiphertextModulus) -> (r: Result<
        Self,
        KeyswitchError,
    >)
        ensures
            lwe_dimension < usize::MAX <==> r is Ok,
            r is Err ==> r->Err_0 == KeyswitchError::ParameterError,
            r is Ok ==> r->Ok_0.wf() && r->Ok_0.modulus() == modulus && r->Ok_0@ == Seq::new(
                (lwe_dimension + 1) as nat,
                |k: int| 0u64,
            ),
    {
        if lwe_dimension == usize::MAX {
            return Err(KeyswitchError::ParameterError);
        }
        let _ = modulus.value();
        let mut data: Vec<u64> = Vec::new();
        let mut k: usize = 0;
        while k <= lwe_dimension
            invariant
                k <= lwe_dimension + 1,
                lwe_dimension < usize::MAX,
                data@.len() == k,
                forall|j: int| 0 <= j < k ==> data@[j] == 0,
            decreases lwe_dimension + 1 - k,
        {
            data.push(0);
            k = k + 1;
        }
        assert(data@ =~= Seq::new((lwe_dimension + 1) as nat, |k: int| 0u64));
        Ok(LweCiphertext { data, modulus })
    }

    /// The ciphertext with the given entries, mask first and body last; refused
    /// when there is no entry or when one is not reduced.
    pub fn from_container(data: Vec<u64>, modulus: CiphertextModulus) -> (r: Result<
        Self,
        KeyswitchError,
    >)
        ensures
            (data@.len() >= 1 && all_reduced(data@, modulus)) <==> r is Ok,
            r is Err ==> r->Err_0 == KeyswitchError::ParameterError,
            r is Ok ==> r->Ok_0.wf() && r->Ok_0.modulus() == modulus && r->Ok_0@ == data@,
    {
        let n = data.len();
        if n == 0 {
            return Err(KeyswitchError::ParameterError);
        }
        let mut k: usize = 0;
        while k < n
            invariant
                k <= n,
                n == data@.len(),
                forall|j: int| 0 <= j < k ==> (#[trigger] data@[j]) < modulus.value(),
            decreases n - k,
        {
            if !modulus.contains(data[k]) {
                return Err(KeyswitchError::ParameterError);
            }
            k = k + 1;
        }
        let _ = modulus.value();
        Ok(LweCiphertext { data, modulus })
    }

    /// The ciphertext with the given entries, known to be reduced.
    pub(crate) fn from_reduced(data: Vec<u64>, modulus: CiphertextModulus) -> (ct: Self)
        requires
            data@.len() >= 1,
            all_reduced(data@, modulus),
        ensures
            ct.wf(),
            ct@ == data@,
            ct.modulus() == modulus,
    {
        let _ = modulus.value();
        LweCiphertext { data, modulus }
    }

    /// Replaces the entries, keeping the dimension and the modulus.
    pub(crate) fn replace(&mut self, data: Vec<u64>)
        requires
            data@.len() == old(self)@.len(),
            all_reduced(data@, old(self).modulus()),
        ensures
            final(self).wf(),
            final(self)@ == data@,
            final(self).modulus() == old(self).modulus(),
    {
        proof {
            use_type_invariant(&*self);
        }
        self.data = data;
    }

    /// The modulus.
    #[verifier::when_used_as_spec(spec_modulus)]
    pub fn modulus(&self) -> (m: CiphertextModulus)
        ensures
            m == self.modulus(),
            m.wf(),
    {
        proof {
            use_type_invariant(self);
        }
        self.modulus
    }

    /// The dimension: the length of the mask.
    #[verifier::when_used_as_spec(spec_lwe_dimension)]
    pub fn lwe_dimension(&self) -> (n: usize)
        ensures
            n == self.lwe_dimension(),
            n + 1 == self@.len(),
    {
        proof {
            use_type_invariant(self);
        }
        self.data.len() - 1
    }

    /// The body.
    #[verifier::when_used_as_spec(spec_body)]
    pub fn body(&self) -> (b: u64)
        ensures
            b == self.body(),
            b < self.modulus().value(),
    {
        proof {
            use_type_invariant(self);
        }
        self.data[self.data.len() - 1]
    }

    /// The entries: the mask, then the body.
    pub fn as_container(&self) -> (data: &Vec<u64>)
        ensures
            data@ == self@,
            data@.len() >= 1,
            all_reduced(data@, self.modulus()),
            self.wf(),
    {
        proof {
            use_type_invariant(self);
        }
        &self.data
    }

    /// A copy of this ciphertext.
    pub fn duplicate(&self) -> (ct: Self)
        ensures
            ct.wf(),
            ct@ == self@,
            ct.modulus() == self.modulus(),
    {
        proof {
            use_type_invariant(self);
        }
        let n = self.data.len();
        let mut data: Vec<u64> = Vec::new();
        let mut k: usize = 0;
        while k < n
            invariant
                k <= n,
                n == self.data@.len(),
                data@.len() == k,
                forall|j: int| 0 <= j < k ==> data@[j] == self.data@[j],
            decreases n - k,
        {
            data.push(self.data[k]);
            k = k + 1;
        }
        assert(data@ =~= self.data@);
        LweCiphertext { data, modulus: self.modulus }
    }
}

/// Encrypts `plaintext` under `key` with the mask samples and the noise that the
/// caller drew; refused when there is not one mask sample for each key coefficient.
pub fn encrypt_lwe_ciphertext(
    key: &LweSecretKey,
    plaintext: u64,
    mask_samples: &Vec<u64>,
    noise: u64,
    modulus: CiphertextModulus,
) -> (r: Result<LweCiphertext, KeyswitchError>)
    ensures
        (mask_samples@.len() == key@.len() && key@.len() < usize::MAX) <==> r is Ok,
        r is Err ==> r->Err_0 == KeyswitchError::DimensionMismatch,
        r is Ok ==> r->Ok_0.wf() && r->Ok_0.modulus() == modulus && r->Ok_0@ == lwe_encryption(
            key@,
            plaintext as int,
            mask_samples@,
            noise as int,
            modulus,
        ),
{
    let n = key.lwe_dimension();
    if mask_samples.len() != n || n == usize::MAX {
        return Err(KeyswitchError::DimensionMismatch);
    }
    let data = encrypt_row(key.as_container(), plaintext, mask_samples, 0, noise, &modulus);
    proof {
        assert(mask_samples@.subrange(0, n as int) =~= mask_samples@);
    }
    Ok(LweCiphertext::from_reduced(data, modulus))
}

/// The entries of the encryption of `plaintext` under `key`, with the mask samples
/// taken from `samples` at `start` on.
pub(crate) fn encrypt_row(
    key: &Vec<u64>,
    plaintext: u64,
    samples: &Vec<u64>,
    start: usize,
    noise: u64,
    modulus: &CiphertextModulus,
) -> (data: Vec<u64>)
    requires
        start + key@.len() <= samples@.len(),
        key@.len() < usize::MAX,
    ensures
        data@ == lwe_encryption(
            key@,
            plaintext as int,
            samples@.subrange(start as int, start + key@.len()),
            noise as int,
            *modulus,
        ),
        data@.len() == key@.len() + 1,
        all_reduced(data@, *modulus),
{
    let n = key.len();
    let m = modulus.value();
    let total = samples.len();
    let ghost window = samples@.subrange(start as int, start + n);
    let ghost mask = reduced_mask(window, *modulus);
    let mut data: Vec<u64> = Vec::new();
    let mut k: usize = 0;
    while k < n
        invariant
            k <= n,
            n == key@.len(),
            total == samples@.len(),
            start + n <= total,
            modulus.wf(),
            m == modulus.value(),
            window == samples@.subrange(start as int, start + n),
            mask == reduced_mask(window, *modulus),
            data@.len() == k,
            forall|j: int| 0 <= j < k ==> data@[j] == mask[j],
        decreases n - k,
    {
        let a = modulus.reduce(samples[start + k] as u128);
        data.push(a);
        k = k + 1;
    }
    let d = dot_mod(&data, key, n, modulus);
    let with_plaintext = modulus.add_mod(d, plaintext);
    let body = modulus.add_mod(with_plaintext, noise);
    proof {
        let mi = m as int;
        modulus.lemma_wf();
        assert(data@ =~= mask);
        let dd = dot(mask, key@, n as nat);
        lemma_add_mod_noop(dd, plaintext as int, mi);
        lemma_mod_twice(dd, mi);
        lemma_add_mod_noop(dd % mi, plaintext as int, mi);
        lemma_add_mod_noop(dd + plaintext, noise as int, mi);
        lemma_mod_twice(dd + plaintext, mi);
        lemma_add_mod_noop((dd + plaintext) % mi, noise as int, mi);
    }
    data.push(body);
    proof {
        assert(data@ =~= lwe_encryption(key@, plaintext as int, window, noise as int, *modulus));
    }
    data
}

/// The phase of `ct` under `key`: the plaintext it encrypts plus its noise. Refused
/// when the key's dimension is not the ciphertext's.
pub fn decrypt_lwe_ciphertext(key: &LweSecretKey, ct: &LweCiphertext) -> (r: Result<
    u64,
    KeyswitchError,
>)
    ensures
        key@.len() == ct.lwe_dimension() <==> r is Ok,
        r is Err ==> r->Err_0 == KeyswitchError::DimensionMismatch,
        r is Ok ==> r->Ok_0 == lwe_phase(ct@, key@, ct.modulus()),
{
    let n = ct.lwe_dimension();
    if key.lwe_dimension() != n {
        return Err(KeyswitchError::DimensionMismatch);
    }
    let modulus = ct.modulus();
    let d = dot_mod(ct.as_container(), key.as_container(), n, &modulus);
    let phase = modulus.sub_mod(ct.body(), d);
    proof {
        modulus.lemma_wf();
        lemma_sub_mod_noop_right(
            ct.body() as int,
            dot(ct@, key@, n as nat),
            modulus.value() as int,
        );
    }
    Ok(phase)
}

} // verus!
