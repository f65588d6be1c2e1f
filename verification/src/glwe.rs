//! GLWE secret keys and ciphertexts over the ring of polynomials modulo `X^N + 1`.
//!
//! A ciphertext of dimension `k` holds `k + 1` polynomials of `N` residues each, stored one
//! after the other: the `k` mask polynomials, then the body. The coefficient `t` of polynomial
//! `p` sits at index `p * N + t`. A key holds `k` polynomials in the same layout. Under a key
//! the phase of a ciphertext is the body minus the sum of the products of each mask
//! polynomial with its key polynomial; its coefficient `t` is the plaintext of slot `t` plus
//! the noise.

use crate::error::KeyswitchError;
use crate::lwe::{all_reduced, reduced_mask};
use crate::modulus::CiphertextModulus;
use vstd::arithmetic::div_mod::*;
use vstd::arithmetic::mul::*;
use vstd::prelude::*;

verus! {

/// One term of a product modulo `X^N + 1`: what `a[u] * X^u` times `s` adds to the
/// coefficient `t`. Both polynomials start at `offset`.
pub open spec fn negacyclic_term(a: Seq<u64>, s: Seq<u64>, offset: int, size: int, t: int, u: int) -> int {
    if u <= t {
        a[offset + u] * s[offset + t - u]
    } else {
        -(a[offset + u] * s[offset + size + t - u])
    }
}

/// The sum of the terms `u < n` of the coefficient `t` of a product modulo `X^N + 1`.
pub open spec fn negacyclic_terms(
    a: Seq<u64>,
    s: Seq<u64>,
    offset: int,
    size: int,
    t: int,
    n: nat,
) -> int
    decreases n,
{
    if n == 0 {
        0
    } else {
        negacyclic_terms(a, s, offset, size, t, (n - 1) as nat) + negacyclic_term(
            a,
            s,
            offset,
            size,
            t,
            n - 1,
        )
    }
}

/// The coefficient `t` of the sum, over the first `k` polynomials, of the product of
/// the mask polynomial with the key polynomial.
pub open spec fn mask_key_product(a: Seq<u64>, s: Seq<u64>, size: int, t: int, k: nat) -> int
    decreases k,
{
    if k == 0 {
        0
    } else {
        mask_key_product(a, s, size, t, (k - 1) as nat) + negacyclic_terms(
            a,
            s,
            (k - 1) * size,
            size,
            t,
            size as nat,
        )
    }
}

/// The coefficient `t` of the phase of the ciphertext `data` of dimension `k` under `key`.
pub open spec fn glwe_phase(
    data: Seq<u64>,
    key: Seq<u64>,
    k: nat,
    size: int,
    t: int,
    modulus: CiphertextModulus,
) -> int {
    (data[k * size + t] - mask_key_product(data, key, size, t, k)) % (modulus.value() as int)
}

/// The body of an encryption: for each slot, the mask-key product plus the plaintext
/// plus the noise.
pub open spec fn glwe_body(
    key: Seq<u64>,
    k: nat,
    size: int,
    plaintext: Seq<int>,
    mask: Seq<u64>,
    noise: Seq<u64>,
    modulus: CiphertextModulus,
) -> Seq<u64> {
    Seq::new(
        size as nat,
        |t: int|
            ((mask_key_product(mask, key, size, t, k) + plaintext[t] + noise[t]) % (
            modulus.value() as int)) as u64,
    )
}

/// The encryption of the plaintext polynomial under `key`, a key of `k` polynomials,
/// with the given mask samples and noise: the reduced mask polynomials, then the body.
pub open spec fn glwe_encryption(
    key: Seq<u64>,
    k: nat,
    size: int,
    plaintext: Seq<int>,
    mask_samples: Seq<u64>,
    noise: Seq<u64>,
    modulus: CiphertextModulus,
) -> Seq<u64> {
    let mask = reduced_mask(mask_samples, modulus);
    mask + glwe_body(key, k, size, plaintext, mask, noise, modulus)
}

/// The products read the mask only below `k * size`.
pub proof fn lemma_mask_key_product_prefix(
    a1: Seq<u64>,
    a2: Seq<u64>,
    s: Seq<u64>,
    size: int,
    t: int,
    k: nat,
)
    requires
        0 <= t < size,
        forall|f: int| 0 <= f < k * size ==> a1[f] == a2[f],
    ensures
        mask_key_product(a1, s, size, t, k) == mask_key_product(a2, s, size, t, k),
    decreases k,
{
    if k > 0 {
        let p = (k - 1) as nat;
        assert(p * size + size == k * size) by (nonlinear_arith)
            requires
                p + 1 == k,
        ;
        assert(0 <= p * size) by (nonlinear_arith)
            requires
                0 <= size,
        ;
        lemma_mask_key_product_prefix(a1, a2, s, size, t, p);
        lemma_negacyclic_terms_prefix(a1, a2, s, p * size, size, t, size as nat);
    }
}

/// The terms `u < n` read the first polynomial only at `offset .. offset + n`.
pub proof fn lemma_negacyclic_terms_prefix(
    a1: Seq<u64>,
    a2: Seq<u64>,
    s: Seq<u64>,
    offset: int,
    size: int,
    t: int,
    n: nat,
)
    requires
        forall|f: int| offset <= f < offset + n ==> a1[f] == a2[f],
    ensures
        negacyclic_terms(a1, s, offset, size, t, n) == negacyclic_terms(a2, s, offset, size, t, n),
    decreases n,
{
    if n > 0 {
        lemma_negacyclic_terms_prefix(a1, a2, s, offset, size, t, (n - 1) as nat);
    }
}

/// The phase of an encryption is, slot by slot, the plaintext plus the noise.
pub proof fn lemma_glwe_phase_of_encryption(
    key: Seq<u64>,
    k: nat,
    size: int,
    plaintext: Seq<int>,
    mask_samples: Seq<u64>,
    noise: Seq<u64>,
    modulus: CiphertextModulus,
    t: int,
)
    requires
        modulus.wf(),
        0 <= t < size,
        mask_samples.len() == k * size,
    ensures
        glwe_phase(
            glwe_encryption(key, k, size, plaintext, mask_samples, noise, modulus),
            key,
            k,
            size,
            t,
            modulus,
        ) == (plaintext[t] + noise[t]) % (modulus.value() as int),
{
    modulus.lemma_wf();
    let m = modulus.value() as int;
    let mask = reduced_mask(mask_samples, modulus);
    let body = glwe_body(key, k, size, plaintext, mask, noise, modulus);
    let data = glwe_encryption(key, k, size, plaintext, mask_samples, noise, modulus);
    let d = mask_key_product(mask, key, size, t, k);
    lemma_mask_key_product_prefix(data, mask, key, size, t, k);
    let x = d + plaintext[t] + noise[t];
    lemma_mod_bound(x, m);
    assert(data[k * size + t] == body[t]);
    assert(body[t] == x % m);
    lemma_sub_mod_noop_right(x % m, d, m);
    lemma_sub_mod_noop(x, d, m);
}

/// `p * size + t` is a valid index into `count` polynomials when `p < count` and `t < size`.
pub proof fn lemma_poly_index(p: int, t: int, count: int, size: int)
    requires
        0 <= p < count,
        0 <= t < size,
    ensures
        0 <= p * size,
        p * size + t < count * size,
        p * size + size <= count * size,
        (p + 1) * size == p * size + size,
{
    assert(0 <= p * size && (p + 1) * size <= count * size && (p + 1) * size == p * size + size)
        by (nonlinear_arith)
        requires
            0 <= p < count,
            0 <= size,
    ;
}

/// The residue of the coefficient `t` of the mask-key product over `k` polynomials.
pub fn mask_key_product_mod(
    a: &Vec<u64>,
    s: &Vec<u64>,
    k: usize,
    size: usize,
    t: usize,
    modulus: &CiphertextModulus,
) -> (r: u64)
    requires
        t < size,
        k * size <= a@.len(),
        k * size <= s@.len(),
    ensures
        r == mask_key_product(a@, s@, size as int, t as int, k as nat) % (modulus.value() as int),
{
    let m = modulus.value();
    let a_len = a.len();
    let mut acc: u64 = 0;
    let mut p: usize = 0;
    let mut offset: usize = 0;
    proof {
        lemma_small_mod(0, m as nat);
        assert(p * size == 0) by (nonlinear_arith)
            requires
                p == 0,
        ;
    }
    while p < k
        invariant
            p <= k,
            t < size,
            a_len == a@.len(),
            k * size <= a@.len(),
            k * size <= s@.len(),
            offset == p * size,
            modulus.wf(),
            m == modulus.value(),
            acc == mask_key_product(a@, s@, size as int, t as int, p as nat) % (m as int),
        decreases k - p,
    {
        proof {
            lemma_poly_index(p as int, t as int, k as int, size as int);
        }
        let ghost outer = mask_key_product(a@, s@, size as int, t as int, p as nat);
        let mut u: usize = 0;
        while u < size
            invariant
                u <= size,
                p < k,
                t < size,
                a_len == a@.len(),
                k * size <= a@.len(),
                k * size <= s@.len(),
                offset == p * size,
                offset + size <= k * size,
                modulus.wf(),
                m == modulus.value(),
                outer == mask_key_product(a@, s@, size as int, t as int, p as nat),
                acc == (outer + negacyclic_terms(
                    a@,
                    s@,
                    offset as int,
                    size as int,
                    t as int,
                    u as nat,
                )) % (m as int),
            decreases size - u,
        {
            let ghost inner = negacyclic_terms(
                a@,
                s@,
                offset as int,
                size as int,
                t as int,
                u as nat,
            );
            proof {
                modulus.lemma_wf();
            }
            if u <= t {
                let product = modulus.mul_mod(a[offset + u], s[offset + t - u]);
                let next = modulus.add_mod(acc, product);
                proof {
                    lemma_add_mod_noop(
                        outer + inner,
                        a@[offset + u] * s@[offset + t - u],
                        m as int,
                    );
                }
                acc = next;
            } else {
                let product = modulus.mul_mod(a[offset + u], s[offset + (size - u) + t]);
                let next = modulus.sub_mod(acc, product);
                proof {
                    lemma_sub_mod_noop(
                        outer + inner,
                        a@[offset + u] * s@[offset + size + t - u],
                        m as int,
                    );
                }
                acc = next;
            }
            u = u + 1;
        }
        offset = offset + size;
        p = p + 1;
    }
    acc
}

/// A GLWE secret key: `k` polynomials of `N` coefficients each. It has no printed
/// form, so that no coefficient reaches a log.
pub struct GlweSecretKey {
    data: Vec<u64>,
    glwe_dimension: usize,
    polynomial_size: usize,
}

impl View for GlweSecretKey {
    type V = Seq<u64>;

    closed spec fn view(&self) -> Seq<u64> {
        self.data@
    }
}

impl GlweSecretKey {
    /// The polynomials are not empty and fill the storage exactly.
    #[verifier::type_invariant]
    pub closed spec fn wf(self) -> bool {
        &&& self.polynomial_size >= 1
        &&& self.data@.len() == self.glwe_dimension * self.polynomial_size
    }

    /// The number of polynomials `k`.
    pub closed spec fn spec_glwe_dimension(&self) -> usize {
        self.glwe_dimension
    }

    /// The number of coefficients `N` of each polynomial.
    pub closed spec fn spec_polynomial_size(&self) -> usize {
        self.polynomial_size
    }

    /// What validity says of the sizes.
    pub proof fn lemma_wf(self)
        requires
            self.wf(),
        ensures
            self.polynomial_size() >= 1,
            self@.len() == self.glwe_dimension() * self.polynomial_size(),
    {
    }

    /// The key whose polynomials, of `polynomial_size` coefficients each, are stored
    /// one after the other in `data`; refused when the size is zero or does not
    /// divide the length.
    pub fn from_container(data: Vec<u64>, polynomial_size: usize) -> (r: Result<
        Self,
        KeyswitchError,
    >)
        ensures
            r is Ok <==> polynomial_size >= 1 && data@.len() % (polynomial_size as nat) == 0,
            r is Err ==> r->Err_0 == KeyswitchError::ParameterError,
            r is Ok ==> r->Ok_0.wf() && r->Ok_0@ == data@ && r->Ok_0.polynomial_size()
                == polynomial_size && r->Ok_0.glwe_dimension() == data@.len() / (polynomial_size as nat),
    {
        if polynomial_size == 0 {
            return Err(KeyswitchError::ParameterError);
        }
        let len = data.len();
        if len % polynomial_size != 0 {
            return Err(KeyswitchError::ParameterError);
        }
        let glwe_dimension = len / polynomial_size;
        proof {
            lemma_fundamental_div_mod(len as int, polynomial_size as int);
            lemma_mul_is_commutative(polynomial_size as int, glwe_dimension as int);
        }
        Ok(GlweSecretKey { data, glwe_dimension, polynomial_size })
    }

    /// The number of polynomials `k`.
    #[verifier::when_used_as_spec(spec_glwe_dimension)]
    pub fn glwe_dimension(&self) -> (k: usize)
        ensures
            k == self.glwe_dimension(),
    {
        self.glwe_dimension
    }

    /// The number of coefficients `N` of each polynomial.
    #[verifier::when_used_as_spec(spec_polynomial_size)]
    pub fn polynomial_size(&self) -> (n: usize)
        ensures
            n == self.polynomial_size(),
            n >= 1,
    {
        proof {
            use_type_invariant(self);
        }
        self.polynomial_size
    }

    /// The coefficients, polynomial by polynomial.
    pub fn as_container(&self) -> (data: &Vec<u64>)
        ensures
            data@ == self@,
            self.wf(),
    {
        proof {
            use_type_invariant(self);
        }
        &self.data
    }
}

/// A GLWE ciphertext: `k` mask polynomials, then the body, all reduced.
#[derive(Debug)]
pub struct GlweCiphertext {
    data: Vec<u64>,
    glwe_dimension: usize,
    polynomial_size: usize,
    modulus: CiphertextModulus,
}

impl View for GlweCiphertext {
    type V = Seq<u64>;

    closed spec fn view(&self) -> Seq<u64> {
        self.data@
    }
}

impl GlweCiphertext {
    /// The `k + 1` polynomials are not empty, fill the storage exactly and hold
    /// reduced residues.
    #[verifier::type_invariant]
    pub closed spec fn wf(self) -> bool {
        &&& self.modulus.wf()
        &&& self.polynomial_size >= 1
        &&& self.data@.len() == (self.glwe_dimension + 1) * self.polynomial_size
        &&& all_reduced(self.data@, self.modulus)
    }

    /// The number of mask polynomials `k`.
    pub closed spec fn spec_glwe_dimension(&self) -> usize {
        self.glwe_dimension
    }

    /// The number of coefficients `N` of each polynomial.
    pub closed spec fn spec_polynomial_size(&self) -> usize {
        self.polynomial_size
    }

    /// The modulus.
    pub closed spec fn spec_modulus(&self) -> CiphertextModulus {
        self.modulus
    }

    /// The coefficient `t` of the polynomial `p`; the body is the polynomial `k`.
    pub open spec fn coefficient(&self, p: int, t: int) -> u64 {
        self@[p * self.polynomial_size() + t]
    }

    /// What validity says of the sizes and of the entries.
    pub proof fn lemma_wf(self)
        requires
            self.wf(),
        ensures
            self.modulus().wf(),
            self.polynomial_size() >= 1,
            self@.len() == (self.glwe_dimension() + 1) * self.polynomial_size(),
            all_reduced(self@, self.modulus()),
    {
    }

    /// The ciphertext of the given shape whose entries are all zero; refused when
    /// the polynomial size is zero or the shape is too large to store.
    pub fn new(glwe_dimension: usize, polynomial_size: usize, modulus: CiphertextModulus) -> (r:
        Result<Self, KeyswitchError>)
        ensures
            r is Ok <==> polynomial_size >= 1 && (glwe_dimension + 1) * polynomial_size
                <= usize::MAX,
            r is Err ==> r->Err_0 == KeyswitchError::ParameterError,
            r is Ok ==> r->Ok_0.wf() && r->Ok_0.modulus() == modulus && r->Ok_0.glwe_dimension()
                == glwe_dimension && r->Ok_0.polynomial_size() == polynomial_size && r->Ok_0@
                == Seq::new(((glwe_dimension + 1) * polynomial_size) as nat, |f: int| 0u64),
    {
        if polynomial_size == 0 {
            return Err(KeyswitchError::ParameterError);
        }
        if glwe_dimension == usize::MAX {
            proof {
                assert((glwe_dimension + 1) * polynomial_size > usize::MAX) by (nonlinear_arith)
                    requires
                        glwe_dimension + 1 > usize::MAX,
                        polynomial_size >= 1,
                ;
            }
            return Err(KeyswitchError::ParameterError);
        }
        let len = match (glwe_dimension + 1).checked_mul(polynomial_size) {
            Some(len) => len,
            None => {
                return Err(KeyswitchError::ParameterError);
            },
        };
        let data = zeros(len);
        let _ = modulus.value();
        Ok(GlweCiphertext { data, glwe_dimension, polynomial_size, modulus })
    }

    /// The ciphertext whose polynomials, of `polynomial_size` coefficients each, are
    /// stored one after the other in `data`; refused when there is no polynomial,
    /// when the size is zero or does not divide the length, or when an entry is not
    /// reduced.
    pub fn from_container(
        data: Vec<u64>,
        polynomial_size: usize,
        modulus: CiphertextModulus,
    ) -> (r: Result<Self, KeyswitchError>)
        ensures
            r is Ok <==> polynomial_size >= 1 && data@.len() >= 1 && data@.len() % (polynomial_size as nat) == 0 && all_reduced(data@, modulus),
            r is Err ==> r->Err_0 == KeyswitchError::ParameterError,
            r is Ok ==> r->Ok_0.wf() && r->Ok_0@ == data@ && r->Ok_0.modulus() == modulus
                && r->Ok_0.polynomial_size() == polynomial_size && r->Ok_0.glwe_dimension() + 1
                == data@.len() / (polynomial_size as nat),
    {
        let len = data.len();
        if polynomial_size == 0 || len == 0 || len % polynomial_size != 0 {
            return Err(KeyswitchError::ParameterError);
        }
        let mut f: usize = 0;
        while f < len
            invariant
                f <= len,
                len == data@.len(),
                forall|g: int| 0 <= g < f ==> (#[trigger] data@[g]) < modulus.value(),
            decreases len - f,
        {
            if !modulus.contains(data[f]) {
                return Err(KeyswitchError::ParameterError);
            }
            f = f + 1;
        }
        let polynomials = len / polynomial_size;
        proof {
            lemma_fundamental_div_mod(len as int, polynomial_size as int);
            lemma_mul_is_commutative(polynomial_size as int, polynomials as int);
            if polynomials == 0 {
                assert(polynomials * polynomial_size == 0) by (nonlinear_arith)
                    requires
                        polynomials == 0,
                ;
            }
        }
        let _ = modulus.value();
        Ok(GlweCiphertext { data, glwe_dimension: polynomials - 1, polynomial_size, modulus })
    }

    /// The ciphertext with the given entries, known to fit the shape and to be reduced.
    pub(crate) fn from_reduced(
        data: Vec<u64>,
        glwe_dimension: usize,
        polynomial_size: usize,
        modulus: CiphertextModulus,
    ) -> (ct: Self)
        requires
            polynomial_size >= 1,
            data@.len() == (glwe_dimension + 1) * polynomial_size,
            all_reduced(data@, modulus),
        ensures
            ct.wf(),
            ct@ == data@,
            ct.modulus() == modulus,
            ct.glwe_dimension() == glwe_dimension,
            ct.polynomial_size() == polynomial_size,
    {
        let _ = modulus.value();
        GlweCiphertext { data, glwe_dimension, polynomial_size, modulus }
    }

    /// Replaces the entries, keeping the shape and the modulus.
    pub(crate) fn replace(&mut self, data: Vec<u64>)
        requires
            data@.len() == old(self)@.len(),
            all_reduced(data@, old(self).modulus()),
        ensures
            final(self).wf(),
            final(self)@ == data@,
            final(self).modulus() == old(self).modulus(),
            final(self).glwe_dimension() == old(self).glwe_dimension(),
            final(self).polynomial_size() == old(self).polynomial_size(),
    {
        proof {
            use_type_invariant(&*self);
        }
        self.data = data;
    }

    /// The number of mask polynomials `k`.
    #[verifier::when_used_as_spec(spec_glwe_dimension)]
    pub fn glwe_dimension(&self) -> (k: usize)
        ensures
            k == self.glwe_dimension(),
    {
        self.glwe_dimension
    }

    /// The number of coefficients `N` of each polynomial.
    #[verifier::when_used_as_spec(spec_polynomial_size)]
    pub fn polynomial_size(&self) -> (n: usize)
        ensures
            n == self.polynomial_size(),
            n >= 1,
    {
        proof {
            use_type_invariant(self);
        }
        self.polynomial_size
    }

    /// The modulus.
    #[verifier::when_used_as_spec(spec_modulus)]
    pub fn modulus(&self) -> (m: CiphertextModulus)
        ensures
            m == self.modulus(),
            m.wf(),
    {
        proof {
            use_type_invariant(self);
        }
        self.modulus
    }

    /// The entries, polynomial by polynomial, the body last.
    pub fn as_container(&self) -> (data: &Vec<u64>)
        ensures
            data@ == self@,
            self.wf(),
    {
        proof {
            use_type_invariant(self);
        }
        &self.data
    }
}

/// A vector of `len` zeros.
pub fn zeros(len: usize) -> (data: Vec<u64>)
    ensures
        data@ == Seq::new(len as nat, |f: int| 0u64),
{
    let mut data: Vec<u64> = Vec::new();
    let mut f: usize = 0;
    while f < len
        invariant
            f <= len,
            data@.len() == f,
            forall|g: int| 0 <= g < f ==> data@[g] == 0,
        decreases len - f,
    {
        data.push(0);
        f = f + 1;
    }
    assert(data@ =~= Seq::new(len as nat, |f: int| 0u64));
    data
}

/// The plaintext polynomial as integers.
pub open spec fn plaintext_view(plaintext: Seq<u64>) -> Seq<int> {
    Seq::new(plaintext.len(), |t: int| plaintext[t] as int)
}

/// The entries of the encryption of the plaintext polynomial under `key`, a key of
/// `k` polynomials of `size` coefficients, with the mask samples taken from
/// `mask_samples` at `mask_start` on and the noise from `noise_samples` at
/// `noise_start` on.
pub(crate) fn encrypt_glwe_row(
    key: &Vec<u64>,
    k: usize,
    size: usize,
    plaintext: &Vec<u64>,
    mask_samples: &Vec<u64>,
    mask_start: usize,
    noise_samples: &Vec<u64>,
    noise_start: usize,
    modulus: &CiphertextModulus,
) -> (data: Vec<u64>)
    requires
        size >= 1,
        key@.len() == k * size,
        plaintext@.len() == size,
        mask_start + k * size <= mask_samples@.len(),
        noise_start + size <= noise_samples@.len(),
        (k + 1) * size <= usize::MAX,
    ensures
        data@ == glwe_encryption(
            key@,
            k as nat,
            size as int,
            plaintext_view(plaintext@),
            mask_samples@.subrange(mask_start as int, mask_start + k * size),
            noise_samples@.subrange(noise_start as int, noise_start + size),
            *modulus,
        ),
        data@.len() == (k + 1) * size,
        all_reduced(data@, *modulus),
{
    let m = modulus.value();
    let mask_len = key.len();
    let mask_total = mask_samples.len();
    let noise_total = noise_samples.len();
    let ghost window = mask_samples@.subrange(mask_start as int, mask_start + mask_len);
    let ghost noise = noise_samples@.subrange(noise_start as int, noise_start + size);
    let ghost mask = reduced_mask(window, *modulus);
    let ghost target = glwe_encryption(
        key@,
        k as nat,
        size as int,
        plaintext_view(plaintext@),
        window,
        noise,
        *modulus,
    );
    proof {
        assert((k + 1) * size == k * size + size) by (nonlinear_arith);
    }
    let mut data: Vec<u64> = Vec::new();
    let mut f: usize = 0;
    while f < mask_len
        invariant
            f <= mask_len,
            mask_len == k * size,
            mask_total == mask_samples@.len(),
            mask_start + mask_len <= mask_total,
            modulus.wf(),
            m == modulus.value(),
            window == mask_samples@.subrange(mask_start as int, mask_start + mask_len),
            mask == reduced_mask(window, *modulus),
            data@.len() == f,
            forall|g: int| 0 <= g < f ==> data@[g] == mask[g],
        decreases mask_len - f,
    {
        let a = modulus.reduce(mask_samples[mask_start + f] as u128);
        data.push(a);
        f = f + 1;
    }
    let mut t: usize = 0;
    while t < size
        invariant
            t <= size,
            size >= 1,
            mask_len == k * size,
            key@.len() == mask_len,
            plaintext@.len() == size,
            noise_total == noise_samples@.len(),
            noise_start + size <= noise_total,
            mask_len + size <= usize::MAX,
            modulus.wf(),
            m == modulus.value(),
            noise == noise_samples@.subrange(noise_start as int, noise_start + size),
            data@.len() == mask_len + t,
            forall|g: int| 0 <= g < mask_len ==> data@[g] == mask[g],
            forall|f: int|
                mask_len <= f < mask_len + t ==> #[trigger] data@[f] == ((mask_key_product(
                    mask,
                    key@,
                    size as int,
                    f - mask_len,
                    k as nat,
                ) + plaintext@[f - mask_len] + noise[f - mask_len]) % (m as int)) as u64,
        decreases size - t,
    {
        let product = mask_key_product_mod(&data, key, k, size, t, modulus);
        let with_plaintext = modulus.add_mod(product, plaintext[t]);
        let body = modulus.add_mod(with_plaintext, noise_samples[noise_start + t]);
        proof {
            let mi = m as int;
            modulus.lemma_wf();
            lemma_mask_key_product_prefix(data@, mask, key@, size as int, t as int, k as nat);
            let d = mask_key_product(mask, key@, size as int, t as int, k as nat);
            let p = plaintext@[t as int] as int;
            let e = noise[t as int] as int;
            lemma_add_mod_noop(d, p, mi);
            lemma_mod_twice(d, mi);
            lemma_add_mod_noop(d % mi, p, mi);
            lemma_add_mod_noop(d + p, e, mi);
            lemma_mod_twice(d + p, mi);
            lemma_add_mod_noop((d + p) % mi, e, mi);
        }
        data.push(body);
        t = t + 1;
    }
    proof {
        assert(data@.len() == target.len());
        assert forall|f: int| 0 <= f < data@.len() implies data@[f] == target[f] by {
            if f >= mask_len {
                let t = f - mask_len;
                assert(plaintext_view(plaintext@)[t] == plaintext@[t]);
            }
        }
        assert(data@ =~= target);
        assert forall|f: int| 0 <= f < data@.len() implies (#[trigger] data@[f]) < m by {
            lemma_mod_bound(window[f] as int, m as int);
            if f >= mask_len {
                let t = f - mask_len;
                lemma_mod_bound(
                    mask_key_product(mask, key@, size as int, t, k as nat) + plaintext@[t]
                        + noise[t],
                    m as int,
                );
            }
        }
    }
    data
}

/// Encrypts the plaintext polynomial under `key` with the mask and noise samples
/// that the caller drew: `k * N` mask samples and `N` noise samples. Refused when
/// the plaintext or the samples do not have those lengths.
pub fn encrypt_glwe_ciphertext(
    key: &GlweSecretKey,
    plaintext: &Vec<u64>,
    mask_samples: &Vec<u64>,
    noise_samples: &Vec<u64>,
    modulus: CiphertextModulus,
) -> (r: Result<GlweCiphertext, KeyswitchError>)
    ensures
        r is Ok <==> {
            &&& plaintext@.len() == key.polynomial_size()
            &&& noise_samples@.len() == key.polynomial_size()
            &&& mask_samples@.len() == key@.len()
            &&& (key.glwe_dimension() + 1) * key.polynomial_size() <= usize::MAX
        },
        r is Err ==> r->Err_0 == KeyswitchError::DimensionMismatch,
        r is Ok ==> r->Ok_0.wf() && r->Ok_0.modulus() == modulus && r->Ok_0.glwe_dimension()
            == key.glwe_dimension() && r->Ok_0.polynomial_size() == key.polynomial_size()
            && r->Ok_0@ == glwe_encryption(
            key@,
            key.glwe_dimension() as nat,
            key.polynomial_size() as int,
            plaintext_view(plaintext@),
            mask_samples@,
            noise_samples@,
            modulus,
        ),
{
    let k = key.glwe_dimension();
    let size = key.polynomial_size();
    let key_data = key.as_container();
    proof {
        key.lemma_wf();
        assert((k + 1) * size == k * size + size) by (nonlinear_arith);
    }
    if plaintext.len() != size || noise_samples.len() != size || mask_samples.len()
        != key_data.len() || key_data.len() > usize::MAX - size {
        return Err(KeyswitchError::DimensionMismatch);
    }
    let data = encrypt_glwe_row(
        key_data,
        k,
        size,
        plaintext,
        mask_samples,
        0,
        noise_samples,
        0,
        &modulus,
    );
    proof {
        assert(mask_samples@.subrange(0, 0 + k * size) =~= mask_samples@);
        assert(noise_samples@.subrange(0, 0 + size) =~= noise_samples@);
    }
    Ok(GlweCiphertext::from_reduced(data, k, size, modulus))
}

/// The phase polynomial of `ct` under `key`: for each slot, the plaintext it holds
/// plus the noise. Refused when the key's shape is not the ciphertext's.
pub fn decrypt_glwe_ciphertext(key: &GlweSecretKey, ct: &GlweCiphertext) -> (r: Result<
    Vec<u64>,
    KeyswitchError,
>)
    ensures
        r is Ok <==> key.glwe_dimension() == ct.glwe_dimension() && key.polynomial_size()
            == ct.polynomial_size(),
        r is Err ==> r->Err_0 == KeyswitchError::DimensionMismatch,
        r is Ok ==> r->Ok_0@.len() == ct.polynomial_size() && forall|t: int|
            0 <= t < ct.polynomial_size() ==> #[trigger] r->Ok_0@[t] == glwe_phase(
                ct@,
                key@,
                ct.glwe_dimension() as nat,
                ct.polynomial_size() as int,
                t,
                ct.modulus(),
            ),
{
    let k = ct.glwe_dimension();
    let size = ct.polynomial_size();
    if key.glwe_dimension() != k || key.polynomial_size() != size {
        return Err(KeyswitchError::DimensionMismatch);
    }
    let modulus = ct.modulus();
    let data = ct.as_container();
    let key_data = key.as_container();
    proof {
        ct.lemma_wf();
        key.lemma_wf();
        modulus.lemma_wf();
        assert((k + 1) * size == k * size + size) by (nonlinear_arith);
    }
    let total = data.len();
    let body_start = total - size;
    let mut phase: Vec<u64> = Vec::new();
    let mut t: usize = 0;
    while t < size
        invariant
            t <= size,
            size == ct.polynomial_size(),
            k == ct.glwe_dimension(),
            data@ == ct@,
            key_data@ == key@,
            total == data@.len(),
            data@.len() == k * size + size,
            key_data@.len() == k * size,
            body_start == k * size,
            modulus == ct.modulus(),
            modulus.wf(),
            phase@.len() == t,
            forall|u: int|
                0 <= u < t ==> #[trigger] phase@[u] == glwe_phase(
                    ct@,
                    key@,
                    k as nat,
                    size as int,
                    u,
                    modulus,
                ),
        decreases size - t,
    {
        let product = mask_key_product_mod(data, key_data, k, size, t, &modulus);
        let value = modulus.sub_mod(data[body_start + t], product);
        proof {
            modulus.lemma_wf();
            lemma_sub_mod_noop_right(
                data@[body_start + t] as int,
                mask_key_product(data@, key_data@, size as int, t as int, k as nat),
                modulus.value() as int,
            );
        }
        phase.push(value);
        t = t + 1;
    }
    Ok(phase)
}

} // verus!
