//! Signed gadget decomposition.
//!
//! For a base `B = 2^b`, a level count `L` and a modulus `M = 2^q` with `B^L <= M`, a residue
//! `x` is first rounded to the closest multiple of `M / B^L` and then written with `L` signed
//! digits `d_1 .. d_L`, each in `[-B/2, B/2)`, such that the sum of `d_i * (M / B^i)` is that
//! multiple modulo `M`. Level 1 carries the largest factor `M / B`.

use crate::error::KeyswitchError;
use crate::modulus::{lemma_pow2_bounds, lemma_pow2_order, pow2_u128, CiphertextModulus};
use vstd::arithmetic::div_mod::*;
use vstd::arithmetic::mul::*;
use vstd::arithmetic::power::*;
use vstd::arithmetic::power2::*;
use vstd::prelude::*;

verus! {

/// The parameters fit together: `B >= 2`, `L >= 1` and `B^L <= M`,
/// for `B = 2^base_log` and `M = 2^modulus_log2`.
pub open spec fn valid_decomposition(base_log: nat, level_count: nat, modulus_log2: nat) -> bool {
    &&& pow2(base_log) >= 2
    &&& level_count >= 1
    &&& pow(pow2(base_log) as int, level_count) <= pow2(modulus_log2)
}

/// The parameters fit together exactly when both are positive and the digits
/// take no more bits than the modulus has.
pub proof fn lemma_valid_decomposition(base_log: nat, level_count: nat, modulus_log2: nat)
    ensures
        valid_decomposition(base_log, level_count, modulus_log2) <==> (base_log >= 1
            && level_count >= 1 && base_log * level_count <= modulus_log2),
        pow(pow2(base_log) as int, level_count) == pow2(base_log * level_count),
{
    lemma2_to64();
    if base_log >= 1 {
        lemma_pow2_order(1, base_log);
    }
    lemma_pow2(base_log);
    lemma_pow_multiplies(2, base_log, level_count);
    lemma_pow2(base_log * level_count);
    lemma_pow2_order(base_log * level_count, modulus_log2);
}

/// The sum of `(B/2) * B^t` over `t < n`: added to a number, it turns the
/// number's plain base-`B` digits into its signed digits shifted by `B/2`.
pub open spec fn balancing_offset(base_log: nat, n: nat) -> nat
    decreases n,
{
    if n == 0 {
        0
    } else {
        balancing_offset(base_log, (n - 1) as nat) + pow2((base_log - 1) as nat) * pow2(
            base_log * ((n - 1) as nat),
        )
    }
}

/// `b * (n + 1) == b * n + b`, and the matching powers of two.
proof fn lemma_pow2_step(b: nat, n: nat)
    ensures
        b * (n + 1) == b * n + b,
        pow2(b * (n + 1)) == pow2(b * n) * pow2(b),
{
    assert(b * (n + 1) == b * n + b) by (nonlinear_arith);
    lemma_pow2_adds(b * n, b);
}

/// The balancing offset over `n` levels is below `B^n`.
proof fn lemma_balancing_offset_bound(b: nat, n: nat)
    requires
        b >= 1,
    ensures
        balancing_offset(b, n) + 1 <= pow2(b * n),
    decreases n,
{
    if n == 0 {
        assert(b * 0 == 0) by (nonlinear_arith);
        lemma2_to64();
    } else {
        let m = (n - 1) as nat;
        lemma_balancing_offset_bound(b, m);
        lemma_pow2_step(b, m);
        lemma_pow2_unfold(b);
        let half = pow2((b - 1) as nat) as int;
        let p = pow2(b * m) as int;
        let o = balancing_offset(b, m) as int;
        lemma_pow2_pos((b - 1) as nat);
        assert(o + half * p + 1 <= p * (2 * half)) by (nonlinear_arith)
            requires
                0 <= o,
                o + 1 <= p,
                half >= 1,
        ;
    }
}

/// A decomposer for one choice of base, level count and modulus.
#[derive(Clone, Copy, Debug)]
pub struct SignedDecomposer {
    base_log: usize,
    level_count: usize,
    modulus: CiphertextModulus,
    base: u128,
    half_base: u128,
    step: u128,
    offset: u128,
}

impl SignedDecomposer {
    /// The parameters fit together and the stored constants are the ones they determine.
    #[verifier::type_invariant]
    pub closed spec fn wf(self) -> bool {
        &&& self.modulus.wf()
        &&& valid_decomposition(
            self.base_log as nat,
            self.level_count as nat,
            self.modulus.log2() as nat,
        )
        &&& self.base == pow2(self.base_log as nat)
        &&& self.half_base == pow2((self.base_log - 1) as nat)
        &&& self.step == pow2((self.modulus.log2() - self.base_log * self.level_count) as nat)
        &&& self.offset == balancing_offset(self.base_log as nat, self.level_count as nat)
    }

    /// The base's logarithm `b`.
    pub closed spec fn spec_base_log(&self) -> usize {
        self.base_log
    }

    /// The number of levels `L`.
    pub closed spec fn spec_level_count(&self) -> usize {
        self.level_count
    }

    /// The modulus `M`.
    pub closed spec fn spec_modulus(&self) -> CiphertextModulus {
        self.modulus
    }

    /// What validity says of the parameters.
    pub proof fn lemma_wf(self)
        requires
            self.wf(),
        ensures
            self.modulus().wf(),
            valid_decomposition(
                self.base_log() as nat,
                self.level_count() as nat,
                self.modulus().log2() as nat,
            ),
            1 <= self.base_log() <= 64,
            1 <= self.level_count() <= 64,
            self.base_log() * self.level_count() <= self.modulus().log2() <= 64,
    {
        let b = self.base_log as nat;
        let l = self.level_count as nat;
        self.modulus.lemma_wf();
        lemma_valid_decomposition(b, l, self.modulus.log2() as nat);
        assert(b <= b * l && l <= b * l) by (nonlinear_arith)
            requires
                b >= 1,
                l >= 1,
        ;
    }

    /// A decomposer for the given parameters; refused unless they fit together.
    pub fn new(base_log: usize, level_count: usize, modulus: CiphertextModulus) -> (r: Result<
        Self,
        KeyswitchError,
    >)
        ensures
            valid_decomposition(base_log as nat, level_count as nat, modulus.log2() as nat)
                <==> r is Ok,
            r is Ok ==> r->Ok_0.wf() && r->Ok_0.base_log() == base_log && r->Ok_0.level_count()
                == level_count && r->Ok_0.modulus() == modulus,
            r is Err ==> r->Err_0 == KeyswitchError::ParameterError,
    {
        let q = modulus.log2();
        proof {
            lemma_valid_decomposition(base_log as nat, level_count as nat, q as nat);
        }
        if base_log < 1 || base_log > 64 || level_count < 1 || level_count > 64 {
            proof {
                let b = base_log as nat;
                let l = level_count as nat;
                if b >= 1 && l >= 1 {
                    assert(b <= b * l && l <= b * l) by (nonlinear_arith)
                        requires
                            b >= 1,
                            l >= 1,
                    ;
                }
            }
            return Err(KeyswitchError::ParameterError);
        }
        assert(base_log * level_count <= 64 * 64) by (nonlinear_arith)
            requires
                base_log <= 64,
                level_count <= 64,
        ;
        let total = base_log * level_count;
        if total > q as usize {
            return Err(KeyswitchError::ParameterError);
        }
        let base = pow2_u128(base_log as u32);
        let half_base = pow2_u128((base_log - 1) as u32);
        let step = pow2_u128(q - total as u32);
        // the offset is the sum of half_base * base^t over the levels
        let mut offset: u128 = 0;
        let mut power: u128 = 1;
        let mut t: usize = 0;
        proof {
            assert(base_log * 0 == 0) by (nonlinear_arith);
            lemma2_to64();
        }
        while t < level_count
            invariant
                t <= level_count,
                1 <= base_log <= 64,
                base_log * level_count <= 64,
                base == pow2(base_log as nat),
                half_base == pow2((base_log - 1) as nat),
                offset == balancing_offset(base_log as nat, t as nat),
                power == pow2((base_log * t) as nat),
            decreases level_count - t,
        {
            proof {
                let b = base_log as nat;
                lemma_pow2_step(b, t as nat);
                lemma_balancing_offset_bound(b, t as nat);
                lemma_balancing_offset_bound(b, (t + 1) as nat);
                assert(b * (t + 1) <= b * level_count) by (nonlinear_arith)
                    requires
                        t + 1 <= level_count,
                ;
                lemma_pow2_order(b * ((t + 1) as nat), 64);
                lemma_pow2_bounds(64);
            }
            offset = offset + half_base * power;
            power = power * base;
            t = t + 1;
        }
        Ok(SignedDecomposer { base_log, level_count, modulus, base, half_base, step, offset })
    }

    /// The base's logarithm `b`.
    #[verifier::when_used_as_spec(spec_base_log)]
    pub fn base_log(&self) -> (b: usize)
        ensures
            b == self.base_log(),
            1 <= b <= 64,
    {
        proof {
            use_type_invariant(self);
            self.lemma_wf();
        }
        self.base_log
    }

    /// The number of levels `L`.
    #[verifier::when_used_as_spec(spec_level_count)]
    pub fn level_count(&self) -> (l: usize)
        ensures
            l == self.level_count(),
            1 <= l <= 64,
    {
        proof {
            use_type_invariant(self);
            self.lemma_wf();
        }
        self.level_count
    }

    /// The modulus `M`.
    #[verifier::when_used_as_spec(spec_modulus)]
    pub fn modulus(&self) -> (m: CiphertextModulus)
        ensures
            m == self.modulus(),
            m.wf(),
    {
        proof {
            use_type_invariant(self);
        }
        self.modulus
    }

    /// The residue of the multiple of the step closest to `x`.
    pub fn closest_representable_residue(&self, x: u64) -> (r: u64)
        ensures
            r == self.closest_representable(x as int) % (self.modulus().value() as int),
    {
        proof {
            use_type_invariant(self);
            self.lemma_wf();
            self.modulus.lemma_wf();
            let e = (self.modulus.log2() - self.base_log * self.level_count) as nat;
            lemma_pow2_bounds(e);
        }
        let step = self.step;
        let index = (x as u128 + step / 2) / step;
        proof {
            lemma_fundamental_div_mod((x + step / 2) as int, step as int);
            lemma_mod_bound((x + step / 2) as int, step as int);
            lemma_mul_is_commutative(step as int, index as int);
        }
        self.modulus.reduce(index * step)
    }

    /// The signed digits of `x`, level 1 first.
    pub fn decompose(&self, x: u64) -> (digits: Vec<i64>)
        ensures
            digits@.len() == self.level_count(),
            forall|j: int|
                0 <= j < self.level_count() ==> #[trigger] digits@[j] == self.digit(
                    x as int,
                    (j + 1) as nat,
                ),
    {
        proof {
            use_type_invariant(self);
            self.lemma_wf();
            let e = (self.modulus.log2() - self.base_log * self.level_count) as nat;
            lemma_pow2_bounds(e);
            lemma_pow2_bounds(self.base_log as nat);
            lemma_balancing_offset_bound(self.base_log as nat, self.level_count as nat);
            lemma_pow2_order((self.base_log * self.level_count) as nat, 64);
            lemma_pow2_bounds(64);
        }
        let levels = self.level_count;
        let step = self.step;
        let base = self.base;
        let half_base = self.half_base;
        let index = (x as u128 + step / 2) / step;
        proof {
            lemma_div_is_ordered_by_denominator((x + step / 2) as int, 1, step as int);
        }
        let shifted = index + self.offset;
        let mut digits: Vec<i64> = Vec::new();
        let mut n: usize = 0;
        while n < levels
            invariant
                n <= levels,
                digits@.len() == n,
            decreases levels - n,
        {
            digits.push(0);
            n = n + 1;
        }
        let mut state = shifted;
        let mut t: usize = 0;
        proof {
            assert(self.base_log * t == 0) by (nonlinear_arith)
                requires
                    t == 0,
            ;
            lemma2_to64();
            lemma_pow2_unfold(self.base_log as nat);
            assert(pow2((self.base_log * t) as nat) == 1);
            assert(shifted as int / 1 == shifted);
        }
        while t < levels
            invariant
                t <= levels,
                levels == self.level_count,
                self.wf(),
                digits@.len() == levels,
                base == pow2(self.base_log as nat),
                half_base == pow2((self.base_log - 1) as nat),
                2 * half_base == base,
                2 <= base <= 0x1_0000_0000_0000_0000,
                shifted == self.closest_index(x as int) + balancing_offset(
                    self.base_log as nat,
                    self.level_count as nat,
                ),
                state == shifted as int / (pow2((self.base_log * t) as nat) as int),
                forall|j: int|
                    levels - t <= j < levels ==> #[trigger] digits@[j] == self.digit(
                        x as int,
                        (j + 1) as nat,
                    ),
            decreases levels - t,
        {
            let plain = state % base;
            let digit = (plain as i128 - half_base as i128) as i64;
            proof {
                let b = self.base_log as nat;
                let below = pow2(b * (t as nat)) as int;
                lemma_pow2_pos(b * (t as nat));
                lemma_pow2_step(b, t as nat);
                lemma_div_denominator(shifted as int, below, base as int);
                let level = (levels - t) as nat;
                assert((self.level_count() - level) as nat == t);
                assert(digit == self.digit(x as int, level));
            }
            digits.set(levels - 1 - t, digit);
            state = state / base;
            t = t + 1;
        }
        digits
    }

    /// The base `B`.
    pub open spec fn base(&self) -> nat {
        pow2(self.base_log() as nat)
    }

    /// The factor `M / B^level` that a digit of that level stands for.
    pub open spec fn scaling_factor(&self, level: nat) -> nat {
        pow2((self.modulus().log2() - self.base_log() * level) as nat)
    }

    /// The distance `M / B^L` between two neighbouring representable values.
    pub open spec fn step(&self) -> nat {
        self.scaling_factor(self.level_count() as nat)
    }

    /// The index of the multiple of the step closest to `x`, a tie going up.
    pub open spec fn closest_index(&self, x: int) -> int {
        (x + self.step() / 2) / (self.step() as int)
    }

    /// The multiple of the step closest to `x`; it may be `M` itself.
    pub open spec fn closest_representable(&self, x: int) -> int {
        self.closest_index(x) * self.step()
    }

    /// The signed digit of `x` at `level`, for `1 <= level <= L`.
    pub open spec fn digit(&self, x: int, level: nat) -> int {
        let shifted = self.closest_index(x) + balancing_offset(
            self.base_log() as nat,
            self.level_count() as nat,
        );
        let below = pow2((self.base_log() as nat) * ((self.level_count() - level) as nat)) as int;
        (shifted / below) % (self.base() as int) - pow2((self.base_log() - 1) as nat)
    }

    /// The digits of `x`, level 1 first.
    pub open spec fn digits(&self, x: int) -> Seq<int> {
        Seq::new(self.level_count() as nat, |j: int| self.digit(x, (j + 1) as nat))
    }

    /// The sum of `digit * factor` over the levels `1 ..= n`.
    pub open spec fn partial_recomposition(&self, x: int, n: nat) -> int
        decreases n,
    {
        if n == 0 {
            0
        } else {
            self.partial_recomposition(x, (n - 1) as nat) + self.digit(x, n) * self.scaling_factor(
                n,
            )
        }
    }

    /// The sum of `digit * factor` over all levels.
    pub open spec fn recomposition(&self, x: int) -> int {
        self.partial_recomposition(x, self.level_count() as nat)
    }

    /// Every digit lies in `[-B/2, B/2)`.
    pub proof fn lemma_digit_range(self, x: int, level: nat)
        requires
            self.wf(),
            1 <= level <= self.level_count(),
        ensures
            -(self.base() / 2) <= self.digit(x, level) < self.base() / 2,
            2 * pow2((self.base_log() - 1) as nat) == self.base(),
    {
        self.lemma_wf();
        let b = self.base_log() as nat;
        lemma_pow2_unfold(b);
        lemma_pow2_pos(b);
        let shifted = self.closest_index(x) + balancing_offset(b, self.level_count() as nat);
        let below = pow2(b * ((self.level_count() - level) as nat)) as int;
        lemma_mod_bound(shifted / below, self.base() as int);
    }

    /// Rounding moves a value by at most half a step.
    pub proof fn lemma_rounding_error(self, x: int)
        requires
            self.wf(),
        ensures
            -(self.step() as int) <= 2 * (x - self.closest_representable(x)) <= self.step(),
            self.closest_representable(x) % (self.step() as int) == 0,
    {
        self.lemma_wf();
        let step = self.step() as int;
        lemma_pow2_pos((self.modulus().log2() - self.base_log() * self.level_count()) as nat);
        let y = x + step / 2;
        lemma_fundamental_div_mod(y, step);
        lemma_mod_bound(y, step);
        lemma_mul_is_commutative(step, y / step);
        lemma_mod_multiples_basic(self.closest_index(x), step);
    }

    /// The partial sums of the recomposition, in closed form.
    proof fn lemma_partial_recomposition(self, x: int, n: nat)
        requires
            self.wf(),
            n <= self.level_count(),
            self.closest_index(x) >= 0,
        ensures
            ({
                let b = self.base_log() as nat;
                let l = self.level_count() as nat;
                let shifted = self.closest_index(x) + balancing_offset(b, l);
                let all = pow2(b * l) as int;
                let rest = pow2(b * ((l - n) as nat)) as int;
                self.partial_recomposition(x, n) == self.step() * ((shifted % all - shifted % rest)
                    - (balancing_offset(b, l) - balancing_offset(b, (l - n) as nat)))
            }),
        decreases n,
    {
        self.lemma_wf();
        let b = self.base_log() as nat;
        let l = self.level_count() as nat;
        let q = self.modulus().log2() as nat;
        let shifted = self.closest_index(x) + balancing_offset(b, l);
        let all = pow2(b * l) as int;
        let step = self.step() as int;
        if n == 0 {
            assert(step * ((shifted % all - shifted % all) - (balancing_offset(b, l)
                - balancing_offset(b, l))) == 0) by (nonlinear_arith);
        } else {
            let m = (n - 1) as nat;
            self.lemma_partial_recomposition(x, m);
            // the level n covers the base-B digit at position t = l - n
            let t = (l - n) as nat;
            assert((l - m) as nat == t + 1);
            let rest = pow2(b * t) as int;
            let rest_up = pow2(b * (t + 1)) as int;
            let base = pow2(b) as int;
            let half = pow2((b - 1) as nat) as int;
            lemma_pow2_pos(b * t);
            lemma_pow2_pos(b);
            lemma_pow2_step(b, t);
            // shifted % (rest * base) == rest * ((shifted / rest) % base) + shifted % rest
            lemma_mod_breakdown(shifted, rest, base);
            let u = (shifted / rest) % base;
            assert(shifted % rest_up == rest * u + shifted % rest);
            assert(self.digit(x, n) == u - half);
            // the factor of level n is step * B^t
            assert(self.scaling_factor(n) == step * rest) by {
                assert(b * l == b * n + b * t) by (nonlinear_arith)
                    requires
                        l == n + t,
                ;
                assert((q - b * n) as nat == (q - b * l) as nat + b * t);
                lemma_pow2_adds((q - b * l) as nat, b * t);
            }
            assert(balancing_offset(b, t + 1) == balancing_offset(b, t) + half * rest);
            let prev = self.partial_recomposition(x, m);
            let o_all = balancing_offset(b, l) as int;
            let o_up = balancing_offset(b, t + 1) as int;
            let o = balancing_offset(b, t) as int;
            let s_all = shifted % all;
            let s_up = shifted % rest_up;
            let s = shifted % rest;
            assert(prev + (u - half) * (step * rest) == step * ((s_all - s) - (o_all - o)))
                by (nonlinear_arith)
                requires
                    prev == step * ((s_all - s_up) - (o_all - o_up)),
                    s_up == rest * u + s,
                    o_up == o + half * rest,
            ;
        }
    }

    /// The digits, weighted by their factors, add up to the closest representable
    /// value, modulo `M`.
    pub proof fn lemma_recomposition(self, x: int)
        requires
            self.wf(),
            x >= 0,
        ensures
            self.recomposition(x) % (self.modulus().value() as int) == self.closest_representable(
                x,
            ) % (self.modulus().value() as int),
    {
        self.lemma_wf();
        self.modulus().lemma_wf();
        let b = self.base_log() as nat;
        let l = self.level_count() as nat;
        let q = self.modulus().log2() as nat;
        let step = self.step() as int;
        let all = pow2(b * l) as int;
        let modulus = self.modulus().value() as int;
        let index = self.closest_index(x);
        let offset = balancing_offset(b, l) as int;
        let shifted = index + offset;
        lemma_pow2_pos((q - b * l) as nat);
        lemma_pow2_pos(b * l);
        assert(index >= 0) by {
            lemma_div_pos_is_pos(x + step / 2, step);
        }
        self.lemma_partial_recomposition(x, l);
        assert(b * 0 == 0) by (nonlinear_arith);
        lemma2_to64();
        assert(shifted % 1 == 0);
        assert(balancing_offset(b, 0) == 0);
        // step * B^L is the modulus
        assert(step * all == modulus) by {
            lemma_pow2_adds((q - b * l) as nat, b * l);
        }
        lemma_fundamental_div_mod(shifted, all);
        let k = shifted / all;
        assert(self.recomposition(x) == modulus * (-k) + index * step) by (nonlinear_arith)
            requires
                self.recomposition(x) == step * ((shifted % all - 0) - (offset - 0)),
                shifted == all * k + shifted % all,
                shifted == index + offset,
                step * all == modulus,
        ;
        lemma_mod_multiples_vanish(-k, index * step, modulus);
    }
}

} // verus!
