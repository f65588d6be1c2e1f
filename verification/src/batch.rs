//! Running many independent transforms under one contract, whatever the backend.
//!
//! An executor is made for one backend: the host, with a number of worker threads, or an
//! accelerator, with a number of devices, a number of units that a device takes at a time and
//! the memory of a device. The number of workers or devices is the executor's number of lanes.
//!
//! In latency mode the units are served one at a time. In throughput mode the batch is cut
//! into one contiguous share for each lane. Each result stands at the index of its input,
//! so the outputs do not depend on the mode, on the backend or on how the batch was cut.
//! Here the lanes are served one after the other; since no unit depends on another, an
//! application may as well serve them at once, each on a thread or a device of its own.
//!
//! A device must hold the key and, for each unit of its share, the input, the output and one
//! index for each of the two. Where that is more than the device's memory the call is
//! refused; the host is never short of memory in this sense.

use crate::error::KeyswitchError;
use crate::glwe::{zeros, GlweCiphertext};
use crate::lwe::LweCiphertext;
use crate::lwe_keyswitch::{keyswitch_lwe_ciphertext, keyswitch_result};
use crate::lwe_keyswitch_key::LweKeyswitchKey;
use crate::lwe_packing_keyswitch::{
    ciphertexts_view, keyswitch_lwe_ciphertext_list_and_pack_in_glwe_ciphertext, packed_result,
    packing_input_compatible, packing_output_compatible,
};
use crate::lwe_packing_keyswitch_key::LwePackingKeyswitchKey;
use vstd::arithmetic::div_mod::*;
use vstd::prelude::*;

verus! {

/// Where the transforms run.
#[derive(Clone, Copy, Debug, PartialEq, Eq, Structural)]
pub enum Backend {
    /// The worker threads of the host.
    Host,
    /// Accelerator devices, each with a memory of its own.
    Accelerator,
}

/// What the caller is after.
#[derive(Clone, Copy, Debug, PartialEq, Eq, Structural)]
pub enum ExecutionMode {
    /// One unit at a time, each in isolation.
    Latency,
    /// The whole batch at once, cut into one share for each lane.
    Throughput,
}

/// The index of the first unit of lane `d` when `n` units are cut into `lanes`
/// contiguous shares whose sizes differ by at most one, the larger shares first.
pub open spec fn lane_start(n: nat, lanes: nat, d: nat) -> nat {
    d * (n / lanes) + if d < n % lanes {
        d
    } else {
        n % lanes
    }
}

/// The size of the largest share: `n / lanes`, rounded up.
pub open spec fn largest_share(n: nat, lanes: nat) -> nat {
    n / lanes + if n % lanes > 0 {
        1nat
    } else {
        0nat
    }
}

/// The shares are contiguous, start at 0 and end at `n`.
pub proof fn lemma_lane_start(n: nat, lanes: nat, d: nat)
    requires
        lanes >= 1,
        d < lanes,
    ensures
        lane_start(n, lanes, 0) == 0,
        lane_start(n, lanes, lanes) == n,
        lane_start(n, lanes, d + 1) == lane_start(n, lanes, d) + n / lanes + if d < n % lanes {
            1nat
        } else {
            0nat
        },
        lane_start(n, lanes, d + 1) <= n,
        lane_start(n, lanes, d + 1) - lane_start(n, lanes, d) <= largest_share(n, lanes),
{
    let base = n / lanes;
    lemma_fundamental_div_mod(n as int, lanes as int);
    lemma_mod_bound(n as int, lanes as int);
    assert(0 * base == 0 && (d + 1) * base == d * base + base && (d + 1) * base <= lanes * base)
        by (nonlinear_arith)
        requires
            d + 1 <= lanes,
            0 <= base,
    ;
}

/// The shares are not empty as a list, start at 0, follow one another without gap
/// or overlap, and end at `n`.
pub open spec fn shares_cover(shares: Seq<(usize, usize)>, n: nat) -> bool {
    &&& shares.len() >= 1
    &&& shares[0].0 == 0
    &&& shares[shares.len() - 1].1 == n
    &&& forall|d: int| 0 <= d < shares.len() ==> (#[trigger] shares[d]).0 <= shares[d].1 <= n
    &&& forall|d: int| 0 <= d < shares.len() - 1 ==> (#[trigger] shares[d]).1 == shares[d + 1].0
}

/// The index at which share `d` starts, or `n` when `d` is past the last share.
pub open spec fn share_start(shares: Seq<(usize, usize)>, d: int, n: nat) -> int {
    if d < shares.len() {
        shares[d].0 as int
    } else {
        n as int
    }
}

/// The outputs of a batch of scalar keyswitches: each input's ciphertext switched,
/// at the index of its input.
pub open spec fn keyswitch_batch_result(key: LweKeyswitchKey, inputs: Seq<Seq<u64>>) -> Seq<
    Seq<u64>,
> {
    Seq::new(inputs.len(), |i: int| keyswitch_result(key, inputs[i]))
}

/// The outputs of a batch of packing keyswitches: each input's list packed, at the
/// index of its input.
pub open spec fn packing_batch_result(
    key: LwePackingKeyswitchKey,
    inputs: Seq<Seq<Seq<u64>>>,
) -> Seq<Seq<u64>> {
    Seq::new(inputs.len(), |i: int| packed_result(key, inputs[i]))
}

/// The lists of ciphertexts as sequences of sequences of residues.
pub open spec fn lists_view(inputs: Seq<Vec<LweCiphertext>>) -> Seq<Seq<Seq<u64>>> {
    Seq::new(inputs.len(), |i: int| ciphertexts_view(inputs[i]@))
}

/// The packed ciphertexts as sequences of residues.
pub open spec fn glwe_ciphertexts_view(outputs: Seq<GlweCiphertext>) -> Seq<Seq<u64>> {
    Seq::new(outputs.len(), |i: int| outputs[i]@)
}

/// Every input has the key's source dimension and modulus.
pub open spec fn keyswitch_inputs_compatible(
    key: LweKeyswitchKey,
    inputs: Seq<LweCiphertext>,
) -> bool {
    forall|i: int|
        0 <= i < inputs.len() ==> (#[trigger] inputs[i]).lwe_dimension()
            == key.input_key_lwe_dimension() && inputs[i].modulus() == key.ciphertext_modulus()
}

/// No list has more inputs than the key has slots.
pub open spec fn packing_lists_within_slots(
    key: LwePackingKeyswitchKey,
    inputs: Seq<Vec<LweCiphertext>>,
) -> bool {
    forall|i: int|
        0 <= i < inputs.len() ==> (#[trigger] inputs[i])@.len() <= key.output_polynomial_size()
}

/// The error that a batch of packing keyswitches reports: a list with more inputs
/// than slots is a parameter error; else an input that does not fit the key is a
/// dimension mismatch; else a device is short of memory.
pub open spec fn packing_batch_error(
    key: LwePackingKeyswitchKey,
    inputs: Seq<Vec<LweCiphertext>>,
) -> KeyswitchError {
    if !packing_lists_within_slots(key, inputs) {
        KeyswitchError::ParameterError
    } else if !packing_lists_compatible(key, inputs) {
        KeyswitchError::DimensionMismatch
    } else {
        KeyswitchError::ResourceExhaustion
    }
}

/// Every list has no more inputs than the key has slots, and every input has the
/// key's source dimension and modulus.
pub open spec fn packing_lists_compatible(
    key: LwePackingKeyswitchKey,
    inputs: Seq<Vec<LweCiphertext>>,
) -> bool {
    forall|i: int|
        0 <= i < inputs.len() ==> packing_list_compatible(key, (#[trigger] inputs[i])@)
}

/// The list has no more inputs than the key has slots, and every input has the key's
/// source dimension and modulus.
pub open spec fn packing_list_compatible(
    key: LwePackingKeyswitchKey,
    list: Seq<LweCiphertext>,
) -> bool {
    &&& list.len() <= key.output_polynomial_size()
    &&& forall|j: int| 0 <= j < list.len() ==> packing_input_compatible(key, #[trigger] list[j])
}

/// What a device must hold for `units` scalar keyswitches: the key's rows and, for
/// each unit, the input, the output and two indexes.
pub open spec fn keyswitch_footprint(key: LweKeyswitchKey, units: nat) -> nat {
    let n_in = key.input_key_lwe_dimension() as nat;
    let n_out = key.output_key_lwe_dimension() as nat;
    key.rows().len() * (n_out + 1) + units * ((n_in + 1) + (n_out + 1) + 2)
}

/// What a device must hold for `units` packing keyswitches of up to `N` inputs each:
/// the key's rows and, for each unit, the inputs, the output and two indexes for
/// each input.
pub open spec fn packing_footprint(key: LwePackingKeyswitchKey, units: nat) -> nat {
    let n_in = key.input_key_lwe_dimension() as nat;
    let slots = key.output_polynomial_size() as nat;
    let row_len = key.row_len() as nat;
    key.rows().len() * row_len + units * (slots * (n_in + 1) + row_len + 2 * slots)
}

/// The inputs taken in another order: the input at `i` is the one that stood at
/// `order[i]`.
pub open spec fn rearranged<A>(inputs: Seq<A>, order: Seq<int>) -> Seq<A> {
    Seq::new(order.len(), |i: int| inputs[order[i]])
}

/// Every entry of `order` is an index into a batch of `n` units.
pub open spec fn order_in_range(order: Seq<int>, n: nat) -> bool {
    forall|i: int| 0 <= i < order.len() ==> 0 <= #[trigger] order[i] < n
}

/// A batch gives at each index exactly what that input gives when it is served
/// alone, as a batch of one.
pub proof fn lemma_keyswitch_batch_matches_single(
    key: LweKeyswitchKey,
    inputs: Seq<Seq<u64>>,
    i: int,
)
    requires
        0 <= i < inputs.len(),
    ensures
        keyswitch_batch_result(key, inputs)[i] == keyswitch_batch_result(key, seq![inputs[i]])[0],
        keyswitch_batch_result(key, inputs)[i] == keyswitch_result(key, inputs[i]),
{
}

/// Cutting a batch in two and serving the parts one after the other gives the
/// outputs of the whole batch.
pub proof fn lemma_keyswitch_batch_granularity(
    key: LweKeyswitchKey,
    first: Seq<Seq<u64>>,
    second: Seq<Seq<u64>>,
)
    ensures
        keyswitch_batch_result(key, first + second) == keyswitch_batch_result(key, first)
            + keyswitch_batch_result(key, second),
{
    assert(keyswitch_batch_result(key, first + second) =~= keyswitch_batch_result(key, first)
        + keyswitch_batch_result(key, second));
}

/// Serving the units in another order changes no unit's output: the output of the
/// unit that was moved to `i` is the output it had at its old index.
pub proof fn lemma_keyswitch_batch_order(
    key: LweKeyswitchKey,
    inputs: Seq<Seq<u64>>,
    order: Seq<int>,
    i: int,
)
    requires
        order_in_range(order, inputs.len()),
        0 <= i < order.len(),
    ensures
        keyswitch_batch_result(key, rearranged(inputs, order))[i] == keyswitch_batch_result(
            key,
            inputs,
        )[order[i]],
{
}

/// Serving the units in reverse order changes no unit's output.
pub proof fn lemma_keyswitch_batch_reversed(key: LweKeyswitchKey, inputs: Seq<Seq<u64>>, i: int)
    requires
        0 <= i < inputs.len(),
    ensures
        keyswitch_batch_result(key, inputs.reverse())[inputs.len() - 1 - i]
            == keyswitch_batch_result(key, inputs)[i],
{
}

/// A batch of packing keyswitches gives at each index exactly what that list gives
/// when it is served alone, as a batch of one.
pub proof fn lemma_packing_batch_matches_single(
    key: LwePackingKeyswitchKey,
    inputs: Seq<Seq<Seq<u64>>>,
    i: int,
)
    requires
        0 <= i < inputs.len(),
    ensures
        packing_batch_result(key, inputs)[i] == packing_batch_result(key, seq![inputs[i]])[0],
        packing_batch_result(key, inputs)[i] == packed_result(key, inputs[i]),
{
}

/// Cutting a batch of packing keyswitches in two and serving the parts one after
/// the other gives the outputs of the whole batch.
pub proof fn lemma_packing_batch_granularity(
    key: LwePackingKeyswitchKey,
    first: Seq<Seq<Seq<u64>>>,
    second: Seq<Seq<Seq<u64>>>,
)
    ensures
        packing_batch_result(key, first + second) == packing_batch_result(key, first)
            + packing_batch_result(key, second),
{
    assert(packing_batch_result(key, first + second) =~= packing_batch_result(key, first)
        + packing_batch_result(key, second));
}

/// Serving the packing units in another order changes no unit's output.
pub proof fn lemma_packing_batch_order(
    key: LwePackingKeyswitchKey,
    inputs: Seq<Seq<Seq<u64>>>,
    order: Seq<int>,
    i: int,
)
    requires
        order_in_range(order, inputs.len()),
        0 <= i < order.len(),
    ensures
        packing_batch_result(key, rearranged(inputs, order))[i] == packing_batch_result(
            key,
            inputs,
        )[order[i]],
{
}

/// Serving the packing units in reverse order changes no unit's output.
pub proof fn lemma_packing_batch_reversed(
    key: LwePackingKeyswitchKey,
    inputs: Seq<Seq<Seq<u64>>>,
    i: int,
)
    requires
        0 <= i < inputs.len(),
    ensures
        packing_batch_result(key, inputs.reverse())[inputs.len() - 1 - i] == packing_batch_result(
            key,
            inputs,
        )[i],
{
}

/// An executor for one backend.
#[derive(Clone, Copy, Debug)]
pub struct BatchExecutor {
    backend: Backend,
    lanes: usize,
    units_per_lane: usize,
    lane_memory: usize,
}

impl BatchExecutor {
    /// There is at least one lane, each lane takes at least one unit at a time, and
    /// the size of a full work set can be stored.
    #[verifier::type_invariant]
    pub closed spec fn wf(self) -> bool {
        &&& self.lanes >= 1
        &&& self.units_per_lane >= 1
        &&& self.lanes * self.units_per_lane <= usize::MAX
    }

    /// The backend.
    pub closed spec fn spec_backend(&self) -> Backend {
        self.backend
    }

    /// The number of lanes: worker threads of the host, or devices.
    pub closed spec fn spec_lanes(&self) -> usize {
        self.lanes
    }

    /// The number of units that a lane takes at a time.
    pub closed spec fn spec_units_per_lane(&self) -> usize {
        self.units_per_lane
    }

    /// The number of residues that a device can hold.
    pub closed spec fn spec_lane_memory(&self) -> usize {
        self.lane_memory
    }

    /// What validity says of the numbers.
    pub proof fn lemma_wf(self)
        requires
            self.wf(),
        ensures
            self.lanes() >= 1,
            self.units_per_lane() >= 1,
            self.lanes() * self.units_per_lane() <= usize::MAX,
    {
    }

    /// The number of units that the busiest lane serves at a time, for a batch of `n`.
    pub open spec fn lane_units(&self, mode: ExecutionMode, n: nat) -> nat {
        match mode {
            ExecutionMode::Latency => if n == 0 {
                0
            } else {
                1
            },
            ExecutionMode::Throughput => largest_share(n, self.lanes() as nat),
        }
    }

    /// The shares in which a batch of `n` units is served: one share for the whole
    /// batch in latency mode, one contiguous share for each lane in throughput mode.
    pub open spec fn planned_shares(
        &self,
        mode: ExecutionMode,
        n: nat,
        shares: Seq<(usize, usize)>,
    ) -> bool {
        &&& shares_cover(shares, n)
        &&& mode == ExecutionMode::Latency ==> shares == seq![(0usize, n as usize)]
        &&& mode == ExecutionMode::Throughput ==> shares.len() == self.lanes() && forall|d: int|
            0 <= d < self.lanes() ==> (#[trigger] shares[d]).0 == lane_start(
                n,
                self.lanes() as nat,
                d as nat,
            ) && shares[d].1 == lane_start(n, self.lanes() as nat, (d + 1) as nat)
    }

    /// Whether a device can hold `footprint` residues; the host always can.
    pub open spec fn can_hold(&self, footprint: nat) -> bool {
        self.backend() == Backend::Host || footprint <= self.lane_memory()
    }

    /// An executor on the host with the given number of worker threads; refused when
    /// there is no worker.
    pub fn host(worker_threads: usize) -> (r: Result<Self, KeyswitchError>)
        ensures
            r is Ok <==> worker_threads >= 1,
            r is Err ==> r->Err_0 == KeyswitchError::ParameterError,
            r is Ok ==> r->Ok_0.wf() && r->Ok_0.backend() == Backend::Host && r->Ok_0.lanes()
                == worker_threads && r->Ok_0.units_per_lane() == 1,
    {
        if worker_threads == 0 {
            return Err(KeyswitchError::ParameterError);
        }
        assert(worker_threads * 1 == worker_threads) by (nonlinear_arith);
        Ok(
            BatchExecutor {
                backend: Backend::Host,
                lanes: worker_threads,
                units_per_lane: 1,
                lane_memory: usize::MAX,
            },
        )
    }

    /// An executor on `devices` accelerator devices, each of which takes
    /// `units_per_device` units at a time and holds `device_memory` residues; refused
    /// when there is no device, when a device takes no unit, or when the size of a
    /// full work set cannot be stored.
    pub fn accelerator(devices: usize, units_per_device: usize, device_memory: usize) -> (r:
        Result<Self, KeyswitchError>)
        ensures
            r is Ok <==> devices >= 1 && units_per_device >= 1 && devices * units_per_device
                <= usize::MAX,
            r is Err ==> r->Err_0 == KeyswitchError::ParameterError,
            r is Ok ==> r->Ok_0.wf() && r->Ok_0.backend() == Backend::Accelerator
                && r->Ok_0.lanes() == devices && r->Ok_0.units_per_lane() == units_per_device
                && r->Ok_0.lane_memory() == device_memory,
    {
        if devices == 0 || units_per_device == 0 {
            return Err(KeyswitchError::ParameterError);
        }
        match devices.checked_mul(units_per_device) {
            Some(_) => Ok(
                BatchExecutor {
                    backend: Backend::Accelerator,
                    lanes: devices,
                    units_per_lane: units_per_device,
                    lane_memory: device_memory,
                },
            ),
            None => Err(KeyswitchError::ParameterError),
        }
    }

    /// The backend.
    #[verifier::when_used_as_spec(spec_backend)]
    pub fn backend(&self) -> (b: Backend)
        ensures
            b == self.backend(),
    {
        self.backend
    }

    /// The number of lanes: worker threads of the host, or devices.
    #[verifier::when_used_as_spec(spec_lanes)]
    pub fn lanes(&self) -> (n: usize)
        ensures
            n == self.lanes(),
            n >= 1,
    {
        proof {
            use_type_invariant(self);
        }
        self.lanes
    }

    /// The number of units that a lane takes at a time.
    #[verifier::when_used_as_spec(spec_units_per_lane)]
    pub fn units_per_lane(&self) -> (n: usize)
        ensures
            n == self.units_per_lane(),
            n >= 1,
    {
        proof {
            use_type_invariant(self);
        }
        self.units_per_lane
    }

    /// The number of residues that a device can hold.
    #[verifier::when_used_as_spec(spec_lane_memory)]
    pub fn lane_memory(&self) -> (n: usize)
        ensures
            n == self.lane_memory(),
    {
        self.lane_memory
    }

    /// The number of units of a work set: one in latency mode; in throughput mode as
    /// many as keep every lane busy.
    pub fn work_set_size(&self, mode: ExecutionMode) -> (n: usize)
        ensures
            n == match mode {
                ExecutionMode::Latency => 1,
                ExecutionMode::Throughput => self.lanes() * self.units_per_lane(),
            },
    {
        proof {
            use_type_invariant(self);
        }
        match mode {
            ExecutionMode::Latency => 1,
            ExecutionMode::Throughput => self.lanes * self.units_per_lane,
        }
    }

    /// Cuts a batch of `batch_len` units into one share for each lane: the pair at
    /// `d` holds the index of the first unit of lane `d` and the index after its last.
    pub fn partition(&self, batch_len: usize) -> (shares: Vec<(usize, usize)>)
        ensures
            shares@.len() == self.lanes(),
            forall|d: int|
                0 <= d < self.lanes() ==> (#[trigger] shares@[d]).0 == lane_start(
                    batch_len as nat,
                    self.lanes() as nat,
                    d as nat,
                ) && shares@[d].1 == lane_start(
                    batch_len as nat,
                    self.lanes() as nat,
                    (d + 1) as nat,
                ),
    {
        let lanes = self.lanes();
        let base = batch_len / lanes;
        let extra = batch_len % lanes;
        let mut shares: Vec<(usize, usize)> = Vec::new();
        let mut start: usize = 0;
        let mut d: usize = 0;
        proof {
            lemma_lane_start(batch_len as nat, lanes as nat, 0);
        }
        while d < lanes
            invariant
                d <= lanes,
                lanes >= 1,
                lanes == self.lanes(),
                base == batch_len / lanes,
                extra == batch_len % lanes,
                start == lane_start(batch_len as nat, lanes as nat, d as nat),
                start <= batch_len,
                shares@.len() == d,
                forall|e: int|
                    0 <= e < d ==> (#[trigger] shares@[e]).0 == lane_start(
                        batch_len as nat,
                        lanes as nat,
                        e as nat,
                    ) && shares@[e].1 == lane_start(
                        batch_len as nat,
                        lanes as nat,
                        (e + 1) as nat,
                    ),
            decreases lanes - d,
        {
            proof {
                lemma_lane_start(batch_len as nat, lanes as nat, d as nat);
            }
            let size = if d < extra {
                base + 1
            } else {
                base
            };
            shares.push((start, start + size));
            start = start + size;
            d = d + 1;
        }
        shares
    }

    /// The shares in which a batch of `batch_len` units is served: one share for the
    /// whole batch in latency mode, one for each lane in throughput mode.
    pub fn shares(&self, mode: ExecutionMode, batch_len: usize) -> (shares: Vec<(usize, usize)>)
        ensures
            self.planned_shares(mode, batch_len as nat, shares@),
    {
        match mode {
            ExecutionMode::Latency => {
                let mut whole: Vec<(usize, usize)> = Vec::new();
                whole.push((0, batch_len));
                proof {
                    assert(whole@.len() == 1);
                    assert(whole@[0] == (0usize, batch_len));
                    assert(whole@ =~= seq![(0usize, batch_len)]);
                }
                whole
            },
            ExecutionMode::Throughput => {
                let shares = self.partition(batch_len);
                proof {
                    use_type_invariant(self);
                    self.lemma_wf();
                    let n = batch_len as nat;
                    let lanes = self.lanes() as nat;
                    lemma_lane_start(n, lanes, 0);
                    assert forall|e: int| 0 <= e < shares@.len() implies (#[trigger] shares@[e]).0
                        <= shares@[e].1 && shares@[e].1 <= n by {
                        lemma_lane_start(n, lanes, e as nat);
                    }
                }
                shares
            },
        }
    }

    /// Whether a device can hold what `units` scalar keyswitches need; the host
    /// always can.
    fn holds_keyswitch(&self, key: &LweKeyswitchKey, units: usize) -> (b: bool)
        ensures
            b == self.can_hold(keyswitch_footprint(*key, units as nat)),
    {
        match self.backend {
            Backend::Host => true,
            Backend::Accelerator => {
                let n_in = key.input_key_lwe_dimension();
                let n_out = key.output_key_lwe_dimension();
                let rows = key.row_count();
                let ghost per = (n_in + 1) + (n_out + 1) + 2;
                proof {
                    assert(0 <= rows * (n_out + 1) && 0 <= units * per && (units >= 1 ==> units
                        * per >= per)) by (nonlinear_arith)
                        requires
                            per >= 0,
                    ;
                }
                let fixed = match rows.checked_mul(n_out + 1) {
                    Some(x) => x,
                    None => {
                        return false;
                    },
                };
                if units == 0 {
                    assert(units * per == 0) by (nonlinear_arith)
                        requires
                            units == 0,
                    ;
                    return fixed <= self.lane_memory;
                }
                let sizes = match n_in.checked_add(n_out) {
                    Some(x) => x,
                    None => {
                        return false;
                    },
                };
                let per_unit = match sizes.checked_add(4) {
                    Some(x) => x,
                    None => {
                        return false;
                    },
                };
                let variable = match units.checked_mul(per_unit) {
                    Some(x) => x,
                    None => {
                        return false;
                    },
                };
                match fixed.checked_add(variable) {
                    Some(sum) => sum <= self.lane_memory,
                    None => false,
                }
            },
        }
    }

    /// Whether a device can hold what `units` packing keyswitches need; the host
    /// always can.
    fn holds_packing(&self, key: &LwePackingKeyswitchKey, units: usize) -> (b: bool)
        ensures
            b == self.can_hold(packing_footprint(*key, units as nat)),
    {
        match self.backend {
            Backend::Host => true,
            Backend::Accelerator => {
                let n_in = key.input_key_lwe_dimension();
                let slots = key.output_polynomial_size();
                let k = key.output_glwe_dimension();
                let rows = key.row_count();
                proof {
                    use_type_invariant(key);
                    key.lemma_wf();
                    assert((k + 1) * slots == k * slots + slots && 0 <= k * slots)
                        by (nonlinear_arith);
                }
                let row_len = k * slots + slots;
                let ghost inputs_size = slots * (n_in + 1);
                let ghost per = inputs_size + row_len + 2 * slots;
                proof {
                    assert(0 <= rows * row_len && 0 <= inputs_size && (units >= 1 ==> units
                        * per >= per) && 0 <= units * per) by (nonlinear_arith)
                        requires
                            per == slots * (n_in + 1) + row_len + 2 * slots,
                            inputs_size == slots * (n_in + 1),
                            row_len >= 0,
                    ;
                }
                let fixed = match rows.checked_mul(row_len) {
                    Some(x) => x,
                    None => {
                        return false;
                    },
                };
                if units == 0 {
                    assert(units * per == 0) by (nonlinear_arith)
                        requires
                            units == 0,
                    ;
                    return fixed <= self.lane_memory;
                }
                let input_len = match n_in.checked_add(1) {
                    Some(x) => x,
                    None => {
                        proof {
                            assert(slots * (n_in + 1) >= n_in + 1) by (nonlinear_arith)
                                requires
                                    slots >= 1,
                            ;
                        }
                        return false;
                    },
                };
                let all_inputs = match slots.checked_mul(input_len) {
                    Some(x) => x,
                    None => {
                        return false;
                    },
                };
                let indexes = match slots.checked_mul(2) {
                    Some(x) => x,
                    None => {
                        return false;
                    },
                };
                let with_output = match all_inputs.checked_add(row_len) {
                    Some(x) => x,
                    None => {
                        return false;
                    },
                };
                let per_unit = match with_output.checked_add(indexes) {
                    Some(x) => x,
                    None => {
                        return false;
                    },
                };
                let variable = match units.checked_mul(per_unit) {
                    Some(x) => x,
                    None => {
                        return false;
                    },
                };
                match fixed.checked_add(variable) {
                    Some(sum) => sum <= self.lane_memory,
                    None => false,
                }
            },
        }
    }

    /// The number of units that the busiest lane serves at a time, for a batch of `n`.
    fn busiest_lane_units(&self, mode: ExecutionMode, n: usize) -> (units: usize)
        ensures
            units == self.lane_units(mode, n as nat),
    {
        match mode {
            ExecutionMode::Latency => if n == 0 {
                0
            } else {
                1
            },
            ExecutionMode::Throughput => {
                let lanes = self.lanes();
                proof {
                    lemma_fundamental_div_mod(n as int, lanes as int);
                    lemma_mod_bound(n as int, lanes as int);
                    if n % lanes > 0 {
                        assert(lanes * (n / lanes) >= n / lanes) by (nonlinear_arith)
                            requires
                                lanes >= 1,
                                n / lanes >= 0,
                        ;
                    }
                }
                if n % lanes > 0 {
                    n / lanes + 1
                } else {
                    n / lanes
                }
            },
        }
    }

    /// Whether the backend can take a batch of `batch_len` scalar keyswitches in
    /// `mode`: refused when a device cannot hold the key and its share.
    pub fn keyswitch_residency(
        &self,
        mode: ExecutionMode,
        key: &LweKeyswitchKey,
        batch_len: usize,
    ) -> (r: Result<(), KeyswitchError>)
        ensures
            r is Ok <==> self.can_hold(
                keyswitch_footprint(*key, self.lane_units(mode, batch_len as nat)),
            ),
            r is Err ==> r->Err_0 == KeyswitchError::ResourceExhaustion,
    {
        let units = self.busiest_lane_units(mode, batch_len);
        if self.holds_keyswitch(key, units) {
            Ok(())
        } else {
            Err(KeyswitchError::ResourceExhaustion)
        }
    }

    /// Whether the backend can take a batch of `batch_len` packing keyswitches in
    /// `mode`: refused when a device cannot hold the key and its share.
    pub fn packing_residency(
        &self,
        mode: ExecutionMode,
        key: &LwePackingKeyswitchKey,
        batch_len: usize,
    ) -> (r: Result<(), KeyswitchError>)
        ensures
            r is Ok <==> self.can_hold(
                packing_footprint(*key, self.lane_units(mode, batch_len as nat)),
            ),
            r is Err ==> r->Err_0 == KeyswitchError::ResourceExhaustion,
    {
        let units = self.busiest_lane_units(mode, batch_len);
        if self.holds_packing(key, units) {
            Ok(())
        } else {
            Err(KeyswitchError::ResourceExhaustion)
        }
    }

    /// Whether every input fits the key.
    pub fn keyswitch_inputs_fit(key: &LweKeyswitchKey, inputs: &Vec<LweCiphertext>) -> (b: bool)
        ensures
            b == keyswitch_inputs_compatible(*key, inputs@),
    {
        let modulus = key.ciphertext_modulus();
        let n_in = key.input_key_lwe_dimension();
        let mut i: usize = 0;
        while i < inputs.len()
            invariant
                i <= inputs@.len(),
                modulus == key.ciphertext_modulus(),
                n_in == key.input_key_lwe_dimension(),
                forall|j: int|
                    0 <= j < i ==> (#[trigger] inputs@[j]).lwe_dimension() == n_in
                        && inputs@[j].modulus() == modulus,
            decreases inputs@.len() - i,
        {
            if inputs[i].lwe_dimension() != n_in || !inputs[i].modulus().same_as(&modulus) {
                return false;
            }
            i = i + 1;
        }
        true
    }

    /// Whether no list has more inputs than the key has slots.
    pub fn packing_lists_short(key: &LwePackingKeyswitchKey, inputs: &Vec<Vec<LweCiphertext>>) -> (b:
        bool)
        ensures
            b == packing_lists_within_slots(*key, inputs@),
    {
        let slots = key.output_polynomial_size();
        let mut i: usize = 0;
        while i < inputs.len()
            invariant
                i <= inputs@.len(),
                slots == key.output_polynomial_size(),
                forall|a: int| 0 <= a < i ==> (#[trigger] inputs@[a])@.len() <= slots,
            decreases inputs@.len() - i,
        {
            if inputs[i].len() > slots {
                return false;
            }
            i = i + 1;
        }
        true
    }

    /// Whether every list fits the key.
    pub fn packing_lists_fit(key: &LwePackingKeyswitchKey, inputs: &Vec<Vec<LweCiphertext>>) -> (b:
        bool)
        ensures
            b == packing_lists_compatible(*key, inputs@),
    {
        let modulus = key.ciphertext_modulus();
        let n_in = key.input_key_lwe_dimension();
        let slots = key.output_polynomial_size();
        let mut i: usize = 0;
        while i < inputs.len()
            invariant
                i <= inputs@.len(),
                modulus == key.ciphertext_modulus(),
                n_in == key.input_key_lwe_dimension(),
                slots == key.output_polynomial_size(),
                forall|a: int|
                    0 <= a < i ==> packing_list_compatible(*key, (#[trigger] inputs@[a])@),
            decreases inputs@.len() - i,
        {
            let list = &inputs[i];
            if list.len() > slots {
                proof {
                    assert(!packing_list_compatible(*key, inputs@[i as int]@));
                }
                return false;
            }
            let mut j: usize = 0;
            while j < list.len()
                invariant
                    j <= list@.len(),
                    i < inputs@.len(),
                    *list == inputs@[i as int],
                    list@.len() <= slots,
                    modulus == key.ciphertext_modulus(),
                    n_in == key.input_key_lwe_dimension(),
                    slots == key.output_polynomial_size(),
                    forall|c: int|
                        0 <= c < j ==> packing_input_compatible(*key, #[trigger] list@[c]),
                decreases list@.len() - j,
            {
                if list[j].lwe_dimension() != n_in || !list[j].modulus().same_as(&modulus) {
                    proof {
                        assert(!packing_input_compatible(*key, list@[j as int]));
                        assert(!packing_list_compatible(*key, inputs@[i as int]@));
                    }
                    return false;
                }
                j = j + 1;
            }
            i = i + 1;
        }
        true
    }

    /// Decides how a batch of scalar keyswitches is served: the shares in which the
    /// units are taken, or the error that the batch is refused with. A batch is
    /// refused with a dimension mismatch when an input does not fit the key, else with
    /// a resource exhaustion when a device cannot hold the key and its share.
    pub fn plan_keyswitch_batch(
        &self,
        mode: ExecutionMode,
        key: &LweKeyswitchKey,
        inputs: &Vec<LweCiphertext>,
    ) -> (r: Result<Vec<(usize, usize)>, KeyswitchError>)
        ensures
            r is Ok <==> keyswitch_inputs_compatible(*key, inputs@) && self.can_hold(
                keyswitch_footprint(*key, self.lane_units(mode, inputs@.len())),
            ),
            r is Err ==> r->Err_0 == (if !keyswitch_inputs_compatible(*key, inputs@) {
                KeyswitchError::DimensionMismatch
            } else {
                KeyswitchError::ResourceExhaustion
            }),
            r is Ok ==> self.planned_shares(mode, inputs@.len(), r->Ok_0@),
    {
        if !Self::keyswitch_inputs_fit(key, inputs) {
            return Err(KeyswitchError::DimensionMismatch);
        }
        let n = inputs.len();
        if self.keyswitch_residency(mode, key, n).is_err() {
            return Err(KeyswitchError::ResourceExhaustion);
        }
        Ok(self.shares(mode, n))
    }

    /// Decides how a batch of packing keyswitches is served: the shares in which the
    /// units are taken, or the error that the batch is refused with. A batch is
    /// refused with a parameter error when a list has more inputs than the key has
    /// slots, else with a dimension mismatch when an input does not fit the key, else
    /// with a resource exhaustion when a device cannot hold the key and its share.
    pub fn plan_packing_keyswitch_batch(
        &self,
        mode: ExecutionMode,
        key: &LwePackingKeyswitchKey,
        inputs: &Vec<Vec<LweCiphertext>>,
    ) -> (r: Result<Vec<(usize, usize)>, KeyswitchError>)
        ensures
            r is Ok <==> packing_lists_compatible(*key, inputs@) && self.can_hold(
                packing_footprint(*key, self.lane_units(mode, inputs@.len())),
            ),
            r is Err ==> r->Err_0 == packing_batch_error(*key, inputs@),
            r is Ok ==> self.planned_shares(mode, inputs@.len(), r->Ok_0@),
    {
        if !Self::packing_lists_short(key, inputs) {
            return Err(KeyswitchError::ParameterError);
        }
        if !Self::packing_lists_fit(key, inputs) {
            return Err(KeyswitchError::DimensionMismatch);
        }
        let n = inputs.len();
        if self.packing_residency(mode, key, n).is_err() {
            return Err(KeyswitchError::ResourceExhaustion);
        }
        Ok(self.shares(mode, n))
    }

    /// Switches every input of the batch; the output at an index is the switched
    /// input of that index, whatever the mode and the backend.
    ///
    /// Refused with a dimension mismatch when an input does not fit the key, else
    /// with a resource exhaustion when a device cannot hold the key and its share.
    pub fn keyswitch_batch(
        &self,
        mode: ExecutionMode,
        key: &LweKeyswitchKey,
        inputs: &Vec<LweCiphertext>,
    ) -> (r: Result<Vec<LweCiphertext>, KeyswitchError>)
        ensures
            r is Ok <==> keyswitch_inputs_compatible(*key, inputs@) && self.can_hold(
                keyswitch_footprint(*key, self.lane_units(mode, inputs@.len())),
            ),
            r is Err ==> r->Err_0 == (if !keyswitch_inputs_compatible(*key, inputs@) {
                KeyswitchError::DimensionMismatch
            } else {
                KeyswitchError::ResourceExhaustion
            }),
            r is Ok ==> {
                let outputs = r->Ok_0;
                &&& ciphertexts_view(outputs@) == keyswitch_batch_result(
                    *key,
                    ciphertexts_view(inputs@),
                )
                &&& forall|i: int|
                    0 <= i < outputs@.len() ==> (#[trigger] outputs@[i]).wf()
                        && outputs@[i].modulus() == key.ciphertext_modulus()
            },
    {
        let shares = match self.plan_keyswitch_batch(mode, key, inputs) {
            Ok(shares) => shares,
            Err(e) => {
                return Err(e);
            },
        };
        let n = inputs.len();
        let modulus = key.ciphertext_modulus();
        let ghost view = ciphertexts_view(inputs@);
        let mut outputs: Vec<LweCiphertext> = Vec::new();
        let mut d: usize = 0;
        while d < shares.len()
            invariant
                d <= shares@.len(),
                n == inputs@.len(),
                modulus == key.ciphertext_modulus(),
                view == ciphertexts_view(inputs@),
                keyswitch_inputs_compatible(*key, inputs@),
                shares_cover(shares@, n as nat),
                outputs@.len() == share_start(shares@, d as int, n as nat),
                forall|i: int|
                    0 <= i < outputs@.len() ==> (#[trigger] outputs@[i]).wf()
                        && outputs@[i].modulus() == modulus && outputs@[i]@ == keyswitch_result(
                        *key,
                        view[i],
                    ),
            decreases shares@.len() - d,
        {
            let (start, end) = shares[d];
            let mut i: usize = start;
            while i < end
                invariant
                    start <= i <= end,
                    end <= n,
                    n == inputs@.len(),
                    modulus == key.ciphertext_modulus(),
                    view == ciphertexts_view(inputs@),
                    keyswitch_inputs_compatible(*key, inputs@),
                    outputs@.len() == i,
                    forall|a: int|
                        0 <= a < outputs@.len() ==> (#[trigger] outputs@[a]).wf()
                            && outputs@[a].modulus() == modulus && outputs@[a]@
                            == keyswitch_result(*key, view[a]),
                decreases end - i,
            {
                let output = Self::keyswitch_unit(key, &inputs[i]);
                outputs.push(output);
                i = i + 1;
            }
            d = d + 1;
        }
        proof {
            assert(ciphertexts_view(outputs@) =~= keyswitch_batch_result(*key, view));
        }
        Ok(outputs)
    }

    /// Packs every list of the batch; the output at an index is the packed list of
    /// that index, whatever the mode and the backend.
    ///
    /// Refused with a parameter error when a list has more inputs than the key has
    /// slots, else with a dimension mismatch when an input does not fit the key, else
    /// with a resource exhaustion when a device cannot hold the key and its share.
    pub fn packing_keyswitch_batch(
        &self,
        mode: ExecutionMode,
        key: &LwePackingKeyswitchKey,
        inputs: &Vec<Vec<LweCiphertext>>,
    ) -> (r: Result<Vec<GlweCiphertext>, KeyswitchError>)
        ensures
            r is Ok <==> packing_lists_compatible(*key, inputs@) && self.can_hold(
                packing_footprint(*key, self.lane_units(mode, inputs@.len())),
            ),
            r is Err ==> r->Err_0 == packing_batch_error(*key, inputs@),
            r is Ok ==> {
                let outputs = r->Ok_0;
                &&& glwe_ciphertexts_view(outputs@) == packing_batch_result(
                    *key,
                    lists_view(inputs@),
                )
                &&& forall|i: int|
                    0 <= i < outputs@.len() ==> (#[trigger] outputs@[i]).wf()
                        && packing_output_compatible(*key, outputs@[i])
            },
    {
        let shares = match self.plan_packing_keyswitch_batch(mode, key, inputs) {
            Ok(shares) => shares,
            Err(e) => {
                return Err(e);
            },
        };
        let n = inputs.len();
        let ghost view = lists_view(inputs@);
        let mut outputs: Vec<GlweCiphertext> = Vec::new();
        let mut d: usize = 0;
        while d < shares.len()
            invariant
                d <= shares@.len(),
                n == inputs@.len(),
                view == lists_view(inputs@),
                packing_lists_compatible(*key, inputs@),
                shares_cover(shares@, n as nat),
                outputs@.len() == share_start(shares@, d as int, n as nat),
                forall|i: int|
                    0 <= i < outputs@.len() ==> (#[trigger] outputs@[i]).wf()
                        && packing_output_compatible(*key, outputs@[i]) && outputs@[i]@
                        == packed_result(*key, view[i]),
            decreases shares@.len() - d,
        {
            let (start, end) = shares[d];
            let mut i: usize = start;
            while i < end
                invariant
                    start <= i <= end,
                    end <= n,
                    n == inputs@.len(),
                    view == lists_view(inputs@),
                    packing_lists_compatible(*key, inputs@),
                    outputs@.len() == i,
                    forall|a: int|
                        0 <= a < outputs@.len() ==> (#[trigger] outputs@[a]).wf()
                            && packing_output_compatible(*key, outputs@[a]) && outputs@[a]@
                            == packed_result(*key, view[a]),
                decreases end - i,
            {
                let output = Self::packing_unit(key, &inputs[i]);
                outputs.push(output);
                i = i + 1;
            }
            d = d + 1;
        }
        proof {
            assert(glwe_ciphertexts_view(outputs@) =~= packing_batch_result(*key, view));
        }
        Ok(outputs)
    }

    /// One scalar keyswitch into a fresh output.
    fn keyswitch_unit(key: &LweKeyswitchKey, input: &LweCiphertext) -> (output: LweCiphertext)
        requires
            input.lwe_dimension() == key.input_key_lwe_dimension(),
            input.modulus() == key.ciphertext_modulus(),
        ensures
            output.wf(),
            output.modulus() == key.ciphertext_modulus(),
            output@ == keyswitch_result(*key, input@),
    {
        let modulus = key.ciphertext_modulus();
        let n_out = key.output_key_lwe_dimension();
        proof {
            modulus.lemma_wf();
        }
        let zero = zeros(n_out + 1);
        let mut output = LweCiphertext::from_reduced(zero, modulus);
        let _ = keyswitch_lwe_ciphertext(key, input, &mut output);
        output
    }

    /// One packing keyswitch into a fresh output.
    fn packing_unit(key: &LwePackingKeyswitchKey, list: &Vec<LweCiphertext>) -> (output:
        GlweCiphertext)
        requires
            packing_list_compatible(*key, list@),
        ensures
            output.wf(),
            packing_output_compatible(*key, output),
            output@ == packed_result(*key, ciphertexts_view(list@)),
    {
        let modulus = key.ciphertext_modulus();
        let k = key.output_glwe_dimension();
        let size = key.output_polynomial_size();
        proof {
            use_type_invariant(key);
            key.lemma_wf();
            modulus.lemma_wf();
            assert((k + 1) * size == k * size + size && 0 <= k * size) by (nonlinear_arith);
        }
        let zero = zeros(k * size + size);
        let mut output = GlweCiphertext::from_reduced(zero, k, size, modulus);
        let _ = keyswitch_lwe_ciphertext_list_and_pack_in_glwe_ciphertext(key, list, &mut output);
        output
    }
}

} // verus!
