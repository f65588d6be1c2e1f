//! Keys that switch an LWE ciphertext from one secret key to another.
//!
//! For each coefficient `s_i` of the source key and each level `j` the key holds one row: an
//! encryption under the destination key of `s_i * (M / B^j)`. Rows are stored coefficient
//! by coefficient, level 1 first.

use crate::decomposition::{lemma_valid_decomposition, valid_decomposition, SignedDecomposer};
use crate::dispersion::{
    modular_variance_of, variance_of, DispersionParameter, ModularVariance, Variance,
};
use crate::error::KeyswitchError;
use crate::gadget::{lemma_row_index, rows_view, rows_well_formed};
use crate::lwe::{all_reduced, dot, encrypt_row, lwe_encryption, reduced_mask, LweSecretKey};
use crate::modulus::{lemma_pow2_bounds, pow2_u128, CiphertextModulus};
use vstd::arithmetic::div_mod::*;
use vstd::prelude::*;

verus! {

/// The row of coefficient `i` and `level`: the encryption under `destination` of
/// `source[i] * (M / B^level)`, made with the samples that belong to that row.
/// Row `r` takes the mask samples from `r * n` on, `n` being the destination key's
/// dimension, and the noise sample `r`.
pub open spec fn keyswitch_key_row(
    source: Seq<u64>,
    destination: Seq<u64>,
    decomposer: SignedDecomposer,
    mask_samples: Seq<u64>,
    noise_samples: Seq<u64>,
    i: int,
    level: nat,
) -> Seq<u64> {
    let r = i * decomposer.level_count() + level - 1;
    let n = destination.len() as int;
    lwe_encryption(
        destination,
        source[i] * decomposer.scaling_factor(level),
        mask_samples.subrange(r * n, r * n + n),
        noise_samples[r] as int,
        decomposer.modulus(),
    )
}

/// Rows are ordered by coefficient first and by level second.
pub proof fn lemma_row_order(i1: int, j1: int, i2: int, j2: int, l: int)
    requires
        0 <= i1,
        0 <= j1 < l,
        0 <= j2 < l,
        i1 < i2 || (i1 == i2 && j1 < j2),
    ensures
        i1 * l + j1 < i2 * l + j2,
{
    if i1 < i2 {
        assert((i1 + 1) * l <= i2 * l && (i1 + 1) * l == i1 * l + l) by (nonlinear_arith)
            requires
                i1 + 1 <= i2,
                0 <= l,
        ;
    }
}

/// An encryption depends on its plaintext only through the plaintext's residue.
pub proof fn lemma_encryption_of_residue(
    key: Seq<u64>,
    plaintext: int,
    mask_samples: Seq<u64>,
    noise: int,
    modulus: CiphertextModulus,
)
    requires
        modulus.wf(),
    ensures
        lwe_encryption(key, plaintext % (modulus.value() as int), mask_samples, noise, modulus)
            == lwe_encryption(key, plaintext, mask_samples, noise, modulus),
{
    modulus.lemma_wf();
    let m = modulus.value() as int;
    let d = dot(reduced_mask(mask_samples, modulus), key, key.len());
    lemma_add_mod_noop(d + noise, plaintext, m);
    lemma_add_mod_noop(d + noise, plaintext % m, m);
    lemma_mod_twice(plaintext, m);
}

/// A key that switches from a source LWE key to a destination LWE key.
#[derive(Debug)]
pub struct LweKeyswitchKey {
    rows: Vec<Vec<u64>>,
    input_dimension: usize,
    output_dimension: usize,
    decomposer: SignedDecomposer,
    noise: Variance,
}

impl LweKeyswitchKey {
    /// The decomposition parameters fit together, and there are `L` rows for each
    /// source coefficient, each a ciphertext of the destination dimension.
    #[verifier::type_invariant]
    pub closed spec fn wf(self) -> bool {
        &&& self.decomposer.wf()
        &&& self.output_dimension < usize::MAX
        &&& rows_well_formed(
            rows_view(self.rows@),
            self.input_dimension as nat,
            self.decomposer.level_count() as nat,
            (self.output_dimension + 1) as nat,
            self.decomposer.modulus(),
        )
    }

    /// All rows, in storage order.
    pub closed spec fn rows(&self) -> Seq<Seq<u64>> {
        rows_view(self.rows@)
    }

    /// The dimension of the source key.
    pub closed spec fn spec_input_key_lwe_dimension(&self) -> usize {
        self.input_dimension
    }

    /// The dimension of the destination key.
    pub closed spec fn spec_output_key_lwe_dimension(&self) -> usize {
        self.output_dimension
    }

    /// The decomposer that the transform applies to the input's mask.
    pub closed spec fn spec_decomposer(&self) -> SignedDecomposer {
        self.decomposer
    }

    /// The dispersion of the noise of the key's rows, as a variance.
    pub closed spec fn spec_noise_variance(&self) -> Variance {
        self.noise
    }

    /// The ciphertext modulus.
    pub open spec fn spec_ciphertext_modulus(&self) -> CiphertextModulus {
        self.decomposer().modulus()
    }

    /// The row of coefficient `i` at `level`.
    pub open spec fn row(&self, i: int, level: nat) -> Seq<u64> {
        self.rows()[i * self.decomposer().level_count() + level - 1]
    }

    /// The key switches from `source` to `destination`, and its rows are the
    /// encryptions that generation makes from these keys and samples.
    pub open spec fn generated_from(
        &self,
        source: Seq<u64>,
        destination: Seq<u64>,
        mask_samples: Seq<u64>,
        noise_samples: Seq<u64>,
    ) -> bool {
        &&& source.len() == self.input_key_lwe_dimension()
        &&& destination.len() == self.output_key_lwe_dimension()
        &&& forall|i: int, level: nat|
            0 <= i < source.len() && 1 <= level <= self.decomposer().level_count()
                ==> #[trigger] self.row(i, level) == keyswitch_key_row(
                source,
                destination,
                self.decomposer(),
                mask_samples,
                noise_samples,
                i,
                level,
            )
    }

    /// What validity says: the number of rows is the source dimension times the
    /// level count, and each row is a reduced ciphertext of the destination dimension.
    pub proof fn lemma_wf(self)
        requires
            self.wf(),
        ensures
            self.decomposer().wf(),
            self.output_key_lwe_dimension() < usize::MAX,
            rows_well_formed(
                self.rows(),
                self.input_key_lwe_dimension() as nat,
                self.decomposer().level_count() as nat,
                (self.output_key_lwe_dimension() + 1) as nat,
                self.ciphertext_modulus(),
            ),
            self.rows().len() == self.input_key_lwe_dimension() * self.decomposer().level_count(),
    {
    }

    /// Generates the key from `source` to `destination`.
    ///
    /// The key records `noise`, the dispersion of the noise of its rows. The caller
    /// draws the randomness: one uniform mask of the destination dimension
    /// and one noise value for each row, in row order. The parameters are refused
    /// unless `B >= 2`, `L >= 1` and `B^L <= M`, and unless the samples are exactly
    /// as many as the rows need.
    pub fn generate<D: DispersionParameter>(
        source: &LweSecretKey,
        destination: &LweSecretKey,
        base_log: usize,
        level_count: usize,
        noise: D,
        modulus: CiphertextModulus,
        mask_samples: &Vec<u64>,
        noise_samples: &Vec<u64>,
    ) -> (r: Result<Self, KeyswitchError>)
        ensures
            r is Ok <==> {
                &&& valid_decomposition(
                    base_log as nat,
                    level_count as nat,
                    modulus.log2() as nat,
                )
                &&& destination@.len() < usize::MAX
                &&& noise_samples@.len() == source@.len() * level_count
                &&& mask_samples@.len() == source@.len() * level_count * destination@.len()
            },
            r is Err ==> r->Err_0 == KeyswitchError::ParameterError,
            r is Ok ==> {
                let key = r->Ok_0;
                &&& key.wf()
                &&& key.decomposer().base_log() == base_log
                &&& key.decomposer().level_count() == level_count
                &&& key.ciphertext_modulus() == modulus
                &&& key.noise_variance() == variance_of(noise.log2_variance())
                &&& key.generated_from(source@, destination@, mask_samples@, noise_samples@)
            },
    {
        let decomposer = match SignedDecomposer::new(base_log, level_count, modulus) {
            Ok(d) => d,
            Err(_) => {
                return Err(KeyswitchError::ParameterError);
            },
        };
        let n_in = source.lwe_dimension();
        let n_out = destination.lwe_dimension();
        let noise_len = noise_samples.len();
        let mask_len = mask_samples.len();
        if n_out == usize::MAX {
            return Err(KeyswitchError::ParameterError);
        }
        let row_count = match n_in.checked_mul(level_count) {
            Some(c) => c,
            None => {
                return Err(KeyswitchError::ParameterError);
            },
        };
        if noise_len != row_count {
            return Err(KeyswitchError::ParameterError);
        }
        let mask_count = match row_count.checked_mul(n_out) {
            Some(c) => c,
            None => {
                return Err(KeyswitchError::ParameterError);
            },
        };
        if mask_len != mask_count {
            return Err(KeyswitchError::ParameterError);
        }
        let q = modulus.log2();
        let mut rows: Vec<Vec<u64>> = Vec::new();
        let mut i: usize = 0;
        let mut start: usize = 0;
        proof {
            decomposer.lemma_wf();
            lemma_valid_decomposition(base_log as nat, level_count as nat, q as nat);
            assert(i * level_count == 0 && 0 * n_out == 0) by (nonlinear_arith)
                requires
                    i == 0,
            ;
        }
        while i < n_in
            invariant
                i <= n_in,
                n_in == source@.len(),
                n_out == destination@.len(),
                n_out < usize::MAX,
                row_count == n_in * level_count,
                mask_count == row_count * n_out,
                noise_samples@.len() == row_count,
                mask_samples@.len() == mask_count,
                decomposer.wf(),
                decomposer.base_log() == base_log,
                decomposer.level_count() == level_count,
                decomposer.modulus() == modulus,
                modulus.wf(),
                q == modulus.log2(),
                1 <= base_log,
                1 <= level_count,
                base_log * level_count <= q <= 64,
                rows@.len() == i * level_count,
                start == rows@.len() * n_out,
                forall|r: int|
                    0 <= r < rows@.len() ==> (#[trigger] rows@[r])@.len() == n_out + 1
                        && all_reduced(rows@[r]@, modulus),
                forall|a: int, level: nat|
                    0 <= a < i && 1 <= level <= level_count ==> rows@[a * level_count + level
                        - 1]@ == #[trigger] keyswitch_key_row(
                        source@,
                        destination@,
                        decomposer,
                        mask_samples@,
                        noise_samples@,
                        a,
                        level,
                    ),
            decreases n_in - i,
        {
            let coefficient = source.as_container()[i];
            let mut j: usize = 0;
            while j < level_count
                invariant
                    j <= level_count,
                    i < n_in,
                    n_in == source@.len(),
                    coefficient == source@[i as int],
                    n_out == destination@.len(),
                    n_out < usize::MAX,
                    row_count == n_in * level_count,
                    mask_count == row_count * n_out,
                    noise_samples@.len() == row_count,
                    mask_samples@.len() == mask_count,
                    decomposer.wf(),
                    decomposer.base_log() == base_log,
                    decomposer.level_count() == level_count,
                    decomposer.modulus() == modulus,
                    modulus.wf(),
                    q == modulus.log2(),
                    1 <= base_log,
                    1 <= level_count,
                    base_log * level_count <= q <= 64,
                    rows@.len() == i * level_count + j,
                    start == rows@.len() * n_out,
                    forall|r: int|
                        0 <= r < rows@.len() ==> (#[trigger] rows@[r])@.len() == n_out + 1
                            && all_reduced(rows@[r]@, modulus),
                    forall|a: int, level: nat|
                        (0 <= a < i && 1 <= level <= level_count) || (a == i && 1 <= level <= j)
                            ==> rows@[a * level_count + level - 1]@ == #[trigger] keyswitch_key_row(
                            source@,
                            destination@,
                            decomposer,
                            mask_samples@,
                            noise_samples@,
                            a,
                            level,
                        ),
                decreases level_count - j,
            {
                let level = j + 1;
                let ghost r = rows@.len() as int;
                proof {
                    lemma_row_index(i as int, j as int, n_in as int, level_count as int);
                    assert(base_log * level <= base_log * level_count && base_log * level
                        >= base_log) by (nonlinear_arith)
                        requires
                            1 <= level <= level_count,
                            1 <= base_log,
                    ;
                    lemma_pow2_bounds((q - base_log * level) as nat);
                    assert(r * n_out + n_out <= row_count * n_out) by (nonlinear_arith)
                        requires
                            0 <= r < row_count,
                            0 <= n_out,
                    ;
                }
                let scale = pow2_u128(q - (base_log * level) as u32) as u64;
                let plaintext = modulus.mul_mod(coefficient, scale);
                let noise = noise_samples[rows.len()];
                let row = encrypt_row(
                    destination.as_container(),
                    plaintext,
                    mask_samples,
                    start,
                    noise,
                    &modulus,
                );
                proof {
                    assert(scale == decomposer.scaling_factor(level as nat));
                    lemma_encryption_of_residue(
                        destination@,
                        coefficient * scale,
                        mask_samples@.subrange(start as int, start + n_out),
                        noise as int,
                        modulus,
                    );
                    assert(row@ == keyswitch_key_row(
                        source@,
                        destination@,
                        decomposer,
                        mask_samples@,
                        noise_samples@,
                        i as int,
                        level as nat,
                    ));
                }
                let ghost before = rows@;
                rows.push(row);
                proof {
                    assert forall|a: int, lv: nat|
                        (0 <= a < i && 1 <= lv <= level_count) || (a == i && 1 <= lv <= j + 1)
                        implies rows@[a * level_count + lv - 1]@ == #[trigger] keyswitch_key_row(
                        source@,
                        destination@,
                        decomposer,
                        mask_samples@,
                        noise_samples@,
                        a,
                        lv,
                    ) by {
                        if a == i && lv == j + 1 {
                        } else {
                            lemma_row_order(
                                a,
                                lv - 1,
                                i as int,
                                j as int,
                                level_count as int,
                            );
                            assert(rows@[a * level_count + lv - 1] == before[a * level_count + lv
                                - 1]);
                        }
                    }
                    assert((r + 1) * n_out == r * n_out + n_out) by (nonlinear_arith);
                }
                start = start + n_out;
                j = j + 1;
            }
            proof {
                lemma_row_index(i as int, 0, n_in as int, level_count as int);
            }
            i = i + 1;
        }
        proof {
            assert(rows_view(rows@).len() == rows@.len());
            assert forall|r: int| 0 <= r < rows_view(rows@).len() implies (#[trigger] rows_view(
                rows@,
            )[r]).len() == n_out + 1 && all_reduced(rows_view(rows@)[r], modulus) by {
                assert(rows_view(rows@)[r] == rows@[r]@);
            }
        }
        let key = LweKeyswitchKey {
            rows,
            input_dimension: n_in,
            output_dimension: n_out,
            decomposer,
            noise: noise.get_variance(),
        };
        proof {
            assert forall|a: int, level: nat|
                0 <= a < source@.len() && 1 <= level <= level_count implies #[trigger] key.row(
                a,
                level,
            ) == keyswitch_key_row(
                source@,
                destination@,
                key.decomposer(),
                mask_samples@,
                noise_samples@,
                a,
                level,
            ) by {
                lemma_row_index(a, level - 1, n_in as int, level_count as int);
                assert(key.rows()[a * level_count + level - 1] == key.rows@[a * level_count
                    + level - 1]@);
            }
        }
        Ok(key)
    }

    /// The dimension of the source key.
    #[verifier::when_used_as_spec(spec_input_key_lwe_dimension)]
    pub fn input_key_lwe_dimension(&self) -> (n: usize)
        ensures
            n == self.input_key_lwe_dimension(),
    {
        self.input_dimension
    }

    /// The dimension of the destination key.
    #[verifier::when_used_as_spec(spec_output_key_lwe_dimension)]
    pub fn output_key_lwe_dimension(&self) -> (n: usize)
        ensures
            n == self.output_key_lwe_dimension(),
            n < usize::MAX,
    {
        proof {
            use_type_invariant(self);
        }
        self.output_dimension
    }

    /// The decomposer that the transform applies to the input's mask.
    #[verifier::when_used_as_spec(spec_decomposer)]
    pub fn decomposer(&self) -> (d: SignedDecomposer)
        ensures
            d == self.decomposer(),
            d.wf(),
    {
        proof {
            use_type_invariant(self);
        }
        self.decomposer
    }

    /// The ciphertext modulus.
    #[verifier::when_used_as_spec(spec_ciphertext_modulus)]
    pub fn ciphertext_modulus(&self) -> (m: CiphertextModulus)
        ensures
            m == self.ciphertext_modulus(),
            m.wf(),
    {
        self.decomposer().modulus()
    }

    /// The dispersion of the noise of the key's rows, as a variance.
    #[verifier::when_used_as_spec(spec_noise_variance)]
    pub fn noise_variance(&self) -> (v: Variance)
        ensures
            v == self.noise_variance(),
    {
        self.noise
    }

    /// The variance of the noise of the key's rows, scaled by the key's modulus.
    pub fn modular_noise_variance(&self) -> (v: ModularVariance)
        ensures
            v == modular_variance_of(
                self.noise_variance().log2_variance(),
                self.ciphertext_modulus().log2(),
            ),
            v.log2_value == self.noise_variance().0 + 2 * self.ciphertext_modulus().log2(),
            v.log2_modulus == self.ciphertext_modulus().log2(),
    {
        let modulus = self.ciphertext_modulus();
        self.noise.get_modular_variance(&modulus)
    }

    /// The number of rows: the source dimension times the level count.
    pub fn row_count(&self) -> (n: usize)
        ensures
            n == self.input_key_lwe_dimension() * self.decomposer().level_count(),
            n == self.rows().len(),
    {
        proof {
            use_type_invariant(self);
        }
        self.rows.len()
    }

    /// The rows as stored, in storage order: what a backend copies to hold the key.
    pub fn as_rows(&self) -> (rows: &Vec<Vec<u64>>)
        ensures
            rows_view(rows@) == self.rows(),
            self.wf(),
    {
        proof {
            use_type_invariant(self);
        }
        &self.rows
    }
}

} // verus!
