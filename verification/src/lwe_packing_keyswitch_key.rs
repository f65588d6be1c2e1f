//! Keys that switch LWE ciphertexts to a GLWE key and pack them.
//!
//! For each coefficient `s_i` of the source LWE key and each level `j` the key holds one row:
//! a GLWE encryption under the destination key of the constant polynomial
//! `s_i * (M / B^j)`. Rows are stored coefficient by coefficient, level 1 first.

use crate::decomposition::{lemma_valid_decomposition, valid_decomposition, SignedDecomposer};
use crate::dispersion::{
    modular_variance_of, variance_of, DispersionParameter, ModularVariance, Variance,
};
use crate::error::KeyswitchError;
use crate::gadget::{lemma_row_index, rows_view, rows_well_formed};
use crate::glwe::{
    encrypt_glwe_row, glwe_body, glwe_encryption, mask_key_product, plaintext_view, zeros,
    GlweSecretKey,
};
use crate::lwe::{all_reduced, reduced_mask, LweSecretKey};
use crate::lwe_keyswitch_key::lemma_row_order;
use crate::modulus::{lemma_pow2_bounds, pow2_u128, CiphertextModulus};
use vstd::arithmetic::div_mod::*;
use vstd::prelude::*;

verus! {

/// The polynomial of `size` coefficients whose constant coefficient is `c` and whose
/// other coefficients are zero.
pub open spec fn constant_polynomial(c: int, size: int) -> Seq<int> {
    Seq::new(
        size as nat,
        |t: int|
            if t == 0 {
                c
            } else {
                0
            },
    )
}

/// The row of coefficient `i` and `level`: the GLWE encryption under `destination`
/// of the constant polynomial `source[i] * (M / B^level)`, made with the samples
/// that belong to that row. Row `r` takes the mask samples from `r * k * N` on and
/// the noise samples from `r * N` on.
pub open spec fn packing_key_row(
    source: Seq<u64>,
    destination: Seq<u64>,
    k: nat,
    size: int,
    decomposer: SignedDecomposer,
    mask_samples: Seq<u64>,
    noise_samples: Seq<u64>,
    i: int,
    level: nat,
) -> Seq<u64> {
    let r = i * decomposer.level_count() + level - 1;
    glwe_encryption(
        destination,
        k,
        size,
        constant_polynomial(source[i] * decomposer.scaling_factor(level), size),
        mask_samples.subrange(r * (k * size), r * (k * size) + k * size),
        noise_samples.subrange(r * size, r * size + size),
        decomposer.modulus(),
    )
}

/// An encryption depends on its plaintext only through the residues of the
/// plaintext's coefficients.
pub proof fn lemma_glwe_encryption_of_residues(
    key: Seq<u64>,
    k: nat,
    size: int,
    left: Seq<int>,
    right: Seq<int>,
    mask_samples: Seq<u64>,
    noise: Seq<u64>,
    modulus: CiphertextModulus,
)
    requires
        modulus.wf(),
        0 <= size,
        left.len() == size,
        right.len() == size,
        noise.len() == size,
        forall|t: int|
            0 <= t < size ==> left[t] % (modulus.value() as int) == right[t] % (
            modulus.value() as int),
    ensures
        glwe_encryption(key, k, size, left, mask_samples, noise, modulus) == glwe_encryption(
            key,
            k,
            size,
            right,
            mask_samples,
            noise,
            modulus,
        ),
{
    modulus.lemma_wf();
    let m = modulus.value() as int;
    let mask = reduced_mask(mask_samples, modulus);
    let left_body = glwe_body(key, k, size, left, mask, noise, modulus);
    let right_body = glwe_body(key, k, size, right, mask, noise, modulus);
    assert forall|t: int| 0 <= t < size implies left_body[t] == right_body[t] by {
        let d = mask_key_product(mask, key, size, t, k) + noise[t];
        lemma_add_mod_noop(d, left[t], m);
        lemma_add_mod_noop(d, right[t], m);
    }
    assert(left_body =~= right_body);
}

/// A key that switches from a source LWE key to a destination GLWE key.
#[derive(Debug)]
pub struct LwePackingKeyswitchKey {
    rows: Vec<Vec<u64>>,
    input_dimension: usize,
    glwe_dimension: usize,
    polynomial_size: usize,
    decomposer: SignedDecomposer,
    noise: Variance,
}

impl LwePackingKeyswitchKey {
    /// The decomposition parameters fit together, and there are `L` rows for each
    /// source coefficient, each a GLWE ciphertext of the destination shape.
    #[verifier::type_invariant]
    pub closed spec fn wf(self) -> bool {
        &&& self.decomposer.wf()
        &&& self.polynomial_size >= 1
        &&& (self.glwe_dimension + 1) * self.polynomial_size <= usize::MAX
        &&& rows_well_formed(
            rows_view(self.rows@),
            self.input_dimension as nat,
            self.decomposer.level_count() as nat,
            ((self.glwe_dimension + 1) * self.polynomial_size) as nat,
            self.decomposer.modulus(),
        )
    }

    /// All rows, in storage order.
    pub closed spec fn rows(&self) -> Seq<Seq<u64>> {
        rows_view(self.rows@)
    }

    /// The dimension of the source key.
    pub closed spec fn spec_input_key_lwe_dimension(&self) -> usize {
        self.input_dimension
    }

    /// The number `k` of mask polynomials of the destination.
    pub closed spec fn spec_output_glwe_dimension(&self) -> usize {
        self.glwe_dimension
    }

    /// The number `N` of coefficients of each polynomial of the destination.
    pub closed spec fn spec_output_polynomial_size(&self) -> usize {
        self.polynomial_size
    }

    /// The decomposer that the transform applies to each input's mask.
    pub closed spec fn spec_decomposer(&self) -> SignedDecomposer {
        self.decomposer
    }

    /// The dispersion of the noise of the key's rows, as a variance.
    pub closed spec fn spec_noise_variance(&self) -> Variance {
        self.noise
    }

    /// The ciphertext modulus.
    pub open spec fn spec_ciphertext_modulus(&self) -> CiphertextModulus {
        self.decomposer().modulus()
    }

    /// The number of residues of a row: `(k + 1) * N`.
    pub open spec fn row_len(&self) -> int {
        (self.output_glwe_dimension() + 1) * self.output_polynomial_size()
    }

    /// The row of coefficient `i` at `level`.
    pub open spec fn row(&self, i: int, level: nat) -> Seq<u64> {
        self.rows()[i * self.decomposer().level_count() + level - 1]
    }

    /// The key switches from `source` to `destination`, a GLWE key of `k` polynomials
    /// of `size` coefficients, and its rows are the encryptions that generation makes
    /// from these keys and samples.
    pub open spec fn generated_from(
        &self,
        source: Seq<u64>,
        destination: Seq<u64>,
        k: nat,
        size: int,
        mask_samples: Seq<u64>,
        noise_samples: Seq<u64>,
    ) -> bool {
        &&& source.len() == self.input_key_lwe_dimension()
        &&& k == self.output_glwe_dimension()
        &&& size == self.output_polynomial_size()
        &&& destination.len() == k * size
        &&& noise_samples.len() == source.len() * self.decomposer().level_count() * size
        &&& mask_samples.len() == source.len() * self.decomposer().level_count() * (k * size)
        &&& forall|i: int, level: nat|
            0 <= i < source.len() && 1 <= level <= self.decomposer().level_count()
                ==> #[trigger] self.row(i, level) == packing_key_row(
                source,
                destination,
                k,
                size,
                self.decomposer(),
                mask_samples,
                noise_samples,
                i,
                level,
            )
    }

    /// What validity says: the number of rows is the source dimension times the
    /// level count, and each row is a reduced GLWE ciphertext of the destination shape.
    pub proof fn lemma_wf(self)
        requires
            self.wf(),
        ensures
            self.decomposer().wf(),
            self.output_polynomial_size() >= 1,
            self.row_len() <= usize::MAX,
            rows_well_formed(
                self.rows(),
                self.input_key_lwe_dimension() as nat,
                self.decomposer().level_count() as nat,
                self.row_len() as nat,
                self.ciphertext_modulus(),
            ),
            self.rows().len() == self.input_key_lwe_dimension() * self.decomposer().level_count(),
    {
    }

    /// Generates the key from `source` to `destination`.
    ///
    /// The key records `noise`, the dispersion of the noise of its rows. The caller
    /// draws the randomness: for each row, in row order, `k * N` uniform
    /// mask samples and `N` noise samples. The parameters are refused unless
    /// `B >= 2`, `L >= 1` and `B^L <= M`, and unless the samples are exactly as many
    /// as the rows need.
    pub fn generate<D: DispersionParameter>(
        source: &LweSecretKey,
        destination: &GlweSecretKey,
        base_log: usize,
        level_count: usize,
        noise: D,
        modulus: CiphertextModulus,
        mask_samples: &Vec<u64>,
        noise_samples: &Vec<u64>,
    ) -> (r: Result<Self, KeyswitchError>)
        ensures
            r is Ok <==> {
                &&& valid_decomposition(
                    base_log as nat,
                    level_count as nat,
                    modulus.log2() as nat,
                )
                &&& (destination.glwe_dimension() + 1) * destination.polynomial_size()
                    <= usize::MAX
                &&& noise_samples@.len() == source@.len() * level_count
                    * destination.polynomial_size()
                &&& mask_samples@.len() == source@.len() * level_count * destination@.len()
            },
            r is Err ==> r->Err_0 == KeyswitchError::ParameterError,
            r is Ok ==> {
                let key = r->Ok_0;
                &&& key.wf()
                &&& key.decomposer().base_log() == base_log
                &&& key.decomposer().level_count() == level_count
                &&& key.ciphertext_modulus() == modulus
                &&& key.noise_variance() == variance_of(noise.log2_variance())
                &&& key.generated_from(
                    source@,
                    destination@,
                    destination.glwe_dimension() as nat,
                    destination.polynomial_size() as int,
                    mask_samples@,
                    noise_samples@,
                )
            },
    {
        let decomposer = match SignedDecomposer::new(base_log, level_count, modulus) {
            Ok(d) => d,
            Err(_) => {
                return Err(KeyswitchError::ParameterError);
            },
        };
        let n_in = source.lwe_dimension();
        let k = destination.glwe_dimension();
        let size = destination.polynomial_size();
        let key_data = destination.as_container();
        let key_len = key_data.len();
        let noise_len = noise_samples.len();
        let mask_len = mask_samples.len();
        proof {
            destination.lemma_wf();
            assert((k + 1) * size == k * size + size) by (nonlinear_arith);
        }
        if key_len > usize::MAX - size {
            return Err(KeyswitchError::ParameterError);
        }
        let row_len = key_len + size;
        let row_count = match n_in.checked_mul(level_count) {
            Some(c) => c,
            None => {
                proof {
                    assert(n_in * level_count * size >= n_in * level_count) by (nonlinear_arith)
                        requires
                            size >= 1,
                            n_in * level_count >= 0,
                    ;
                }
                return Err(KeyswitchError::ParameterError);
            },
        };
        let noise_count = match row_count.checked_mul(size) {
            Some(c) => c,
            None => {
                return Err(KeyswitchError::ParameterError);
            },
        };
        if noise_len != noise_count {
            return Err(KeyswitchError::ParameterError);
        }
        let mask_count = match row_count.checked_mul(key_len) {
            Some(c) => c,
            None => {
                return Err(KeyswitchError::ParameterError);
            },
        };
        if mask_len != mask_count {
            return Err(KeyswitchError::ParameterError);
        }
        let q = modulus.log2();
        let mut rows: Vec<Vec<u64>> = Vec::new();
        let mut i: usize = 0;
        let mut mask_start: usize = 0;
        let mut noise_start: usize = 0;
        proof {
            decomposer.lemma_wf();
            lemma_valid_decomposition(base_log as nat, level_count as nat, q as nat);
            assert(i * level_count == 0 && 0 * key_len == 0 && 0 * size == 0) by (nonlinear_arith)
                requires
                    i == 0,
            ;
        }
        while i < n_in
            invariant
                i <= n_in,
                n_in == source@.len(),
                key_data@ == destination@,
                key_len == k * size,
                key_len == key_data@.len(),
                size >= 1,
                row_len == key_len + size,
                row_len == (k + 1) * size,
                row_count == n_in * level_count,
                noise_count == row_count * size,
                mask_count == row_count * key_len,
                noise_samples@.len() == noise_count,
                mask_samples@.len() == mask_count,
                decomposer.wf(),
                decomposer.base_log() == base_log,
                decomposer.level_count() == level_count,
                decomposer.modulus() == modulus,
                modulus.wf(),
                q == modulus.log2(),
                1 <= base_log,
                1 <= level_count,
                base_log * level_count <= q <= 64,
                rows@.len() == i * level_count,
                mask_start == rows@.len() * key_len,
                noise_start == rows@.len() * size,
                forall|r: int|
                    0 <= r < rows@.len() ==> (#[trigger] rows@[r])@.len() == row_len
                        && all_reduced(rows@[r]@, modulus),
                forall|a: int, level: nat|
                    0 <= a < i && 1 <= level <= level_count ==> rows@[a * level_count + level
                        - 1]@ == #[trigger] packing_key_row(
                        source@,
                        destination@,
                        k as nat,
                        size as int,
                        decomposer,
                        mask_samples@,
                        noise_samples@,
                        a,
                        level,
                    ),
            decreases n_in - i,
        {
            let coefficient = source.as_container()[i];
            let mut j: usize = 0;
            while j < level_count
                invariant
                    j <= level_count,
                    i < n_in,
                    n_in == source@.len(),
                    coefficient == source@[i as int],
                    key_data@ == destination@,
                    key_len == k * size,
                    key_len == key_data@.len(),
                    size >= 1,
                    row_len == key_len + size,
                    row_len == (k + 1) * size,
                    row_count == n_in * level_count,
                    noise_count == row_count * size,
                    mask_count == row_count * key_len,
                    noise_samples@.len() == noise_count,
                    mask_samples@.len() == mask_count,
                    decomposer.wf(),
                    decomposer.base_log() == base_log,
                    decomposer.level_count() == level_count,
                    decomposer.modulus() == modulus,
                    modulus.wf(),
                    q == modulus.log2(),
                    1 <= base_log,
                    1 <= level_count,
                    base_log * level_count <= q <= 64,
                    rows@.len() == i * level_count + j,
                    mask_start == rows@.len() * key_len,
                    noise_start == rows@.len() * size,
                    forall|r: int|
                        0 <= r < rows@.len() ==> (#[trigger] rows@[r])@.len() == row_len
                            && all_reduced(rows@[r]@, modulus),
                    forall|a: int, level: nat|
                        (0 <= a < i && 1 <= level <= level_count) || (a == i && 1 <= level <= j)
                            ==> rows@[a * level_count + level - 1]@ == #[trigger] packing_key_row(
                            source@,
                            destination@,
                            k as nat,
                            size as int,
                            decomposer,
                            mask_samples@,
                            noise_samples@,
                            a,
                            level,
                        ),
                decreases level_count - j,
            {
                let level = j + 1;
                let ghost r = rows@.len() as int;
                proof {
                    lemma_row_index(i as int, j as int, n_in as int, level_count as int);
                    assert(base_log * level <= base_log * level_count && base_log * level
                        >= base_log) by (nonlinear_arith)
                        requires
                            1 <= level <= level_count,
                            1 <= base_log,
                    ;
                    lemma_pow2_bounds((q - base_log * level) as nat);
                    assert(r * key_len + key_len <= row_count * key_len && r * size + size
                        <= row_count * size) by (nonlinear_arith)
                        requires
                            0 <= r < row_count,
                            0 <= key_len,
                            0 <= size,
                    ;
                }
                let scale = pow2_u128(q - (base_log * level) as u32) as u64;
                let constant = modulus.mul_mod(coefficient, scale);
                let mut plaintext = zeros(size);
                plaintext.set(0, constant);
                let row = encrypt_glwe_row(
                    key_data,
                    k,
                    size,
                    &plaintext,
                    mask_samples,
                    mask_start,
                    noise_samples,
                    noise_start,
                    &modulus,
                );
                proof {
                    let m = modulus.value() as int;
                    assert(scale == decomposer.scaling_factor(level as nat));
                    let exact = constant_polynomial(coefficient * scale, size as int);
                    let stored = plaintext_view(plaintext@);
                    assert forall|t: int| 0 <= t < size implies stored[t] % m == exact[t] % m by {
                        if t == 0 {
                            lemma_mod_twice(coefficient * scale, m);
                        }
                    }
                    lemma_glwe_encryption_of_residues(
                        destination@,
                        k as nat,
                        size as int,
                        stored,
                        exact,
                        mask_samples@.subrange(mask_start as int, mask_start + k * size),
                        noise_samples@.subrange(noise_start as int, noise_start + size),
                        modulus,
                    );
                    assert(r * (k * size) == mask_start);
                    assert(row@ == packing_key_row(
                        source@,
                        destination@,
                        k as nat,
                        size as int,
                        decomposer,
                        mask_samples@,
                        noise_samples@,
                        i as int,
                        level as nat,
                    ));
                }
                let ghost before = rows@;
                rows.push(row);
                proof {
                    assert forall|a: int, lv: nat|
                        (0 <= a < i && 1 <= lv <= level_count) || (a == i && 1 <= lv <= j + 1)
                        implies rows@[a * level_count + lv - 1]@ == #[trigger] packing_key_row(
                        source@,
                        destination@,
                        k as nat,
                        size as int,
                        decomposer,
                        mask_samples@,
                        noise_samples@,
                        a,
                        lv,
                    ) by {
                        if a == i && lv == j + 1 {
                        } else {
                            lemma_row_order(
                                a,
                                lv - 1,
                                i as int,
                                j as int,
                                level_count as int,
                            );
                            assert(rows@[a * level_count + lv - 1] == before[a * level_count + lv
                                - 1]);
                        }
                    }
                    assert((r + 1) * key_len == r * key_len + key_len && (r + 1) * size == r
                        * size + size) by (nonlinear_arith);
                }
                mask_start = mask_start + key_len;
                noise_start = noise_start + size;
                j = j + 1;
            }
            proof {
                lemma_row_index(i as int, 0, n_in as int, level_count as int);
            }
            i = i + 1;
        }
        proof {
            assert(rows_view(rows@).len() == rows@.len());
            assert forall|r: int| 0 <= r < rows_view(rows@).len() implies (#[trigger] rows_view(
                rows@,
            )[r]).len() == row_len && all_reduced(rows_view(rows@)[r], modulus) by {
                assert(rows_view(rows@)[r] == rows@[r]@);
            }
        }
        let key = LwePackingKeyswitchKey {
            rows,
            input_dimension: n_in,
            glwe_dimension: k,
            polynomial_size: size,
            decomposer,
            noise: noise.get_variance(),
        };
        proof {
            assert forall|a: int, level: nat|
                0 <= a < source@.len() && 1 <= level <= level_count implies #[trigger] key.row(
                a,
                level,
            ) == packing_key_row(
                source@,
                destination@,
                k as nat,
                size as int,
                key.decomposer(),
                mask_samples@,
                noise_samples@,
                a,
                level,
            ) by {
                lemma_row_index(a, level - 1, n_in as int, level_count as int);
                assert(key.rows()[a * level_count + level - 1] == key.rows@[a * level_count
                    + level - 1]@);
            }
        }
        Ok(key)
    }

    /// The dimension of the source key.
    #[verifier::when_used_as_spec(spec_input_key_lwe_dimension)]
    pub fn input_key_lwe_dimension(&self) -> (n: usize)
        ensures
            n == self.input_key_lwe_dimension(),
    {
        self.input_dimension
    }

    /// The number `k` of mask polynomials of the destination.
    #[verifier::when_used_as_spec(spec_output_glwe_dimension)]
    pub fn output_glwe_dimension(&self) -> (k: usize)
        ensures
            k == self.output_glwe_dimension(),
    {
        self.glwe_dimension
    }

    /// The number `N` of coefficients of each polynomial of the destination.
    #[verifier::when_used_as_spec(spec_output_polynomial_size)]
    pub fn output_polynomial_size(&self) -> (n: usize)
        ensures
            n == self.output_polynomial_size(),
            n >= 1,
    {
        proof {
            use_type_invariant(self);
        }
        self.polynomial_size
    }

    /// The decomposer that the transform applies to each input's mask.
    #[verifier::when_used_as_spec(spec_decomposer)]
    pub fn decomposer(&self) -> (d: SignedDecomposer)
        ensures
            d == self.decomposer(),
            d.wf(),
    {
        proof {
            use_type_invariant(self);
        }
        self.decomposer
    }

    /// The ciphertext modulus.
    #[verifier::when_used_as_spec(spec_ciphertext_modulus)]
    pub fn ciphertext_modulus(&self) -> (m: CiphertextModulus)
        ensures
            m == self.ciphertext_modulus(),
            m.wf(),
    {
        self.decomposer().modulus()
    }

    /// The dispersion of the noise of the key's rows, as a variance.
    #[verifier::when_used_as_spec(spec_noise_variance)]
    pub fn noise_variance(&self) -> (v: Variance)
        ensures
            v == self.noise_variance(),
    {
        self.noise
    }

    /// The variance of the noise of the key's rows, scaled by the key's modulus.
    pub fn modular_noise_variance(&self) -> (v: ModularVariance)
        ensures
            v == modular_variance_of(
                self.noise_variance().log2_variance(),
                self.ciphertext_modulus().log2(),
            ),
            v.log2_value == self.noise_variance().0 + 2 * self.ciphertext_modulus().log2(),
            v.log2_modulus == self.ciphertext_modulus().log2(),
    {
        let modulus = self.ciphertext_modulus();
        self.noise.get_modular_variance(&modulus)
    }

    /// The number of rows: the source dimension times the level count.
    pub fn row_count(&self) -> (n: usize)
        ensures
            n == self.input_key_lwe_dimension() * self.decomposer().level_count(),
            n == self.rows().len(),
    {
        proof {
            use_type_invariant(self);
        }
        self.rows.len()
    }

    /// The rows as stored, in storage order: what a backend copies to hold the key.
    pub fn as_rows(&self) -> (rows: &Vec<Vec<u64>>)
        ensures
            rows_view(rows@) == self.rows(),
            self.wf(),
    {
        proof {
            use_type_invariant(self);
        }
        &self.rows
    }
}

} // verus!
