use keyswitch::dispersion::Variance;
use keyswitch::batch::{Backend, BatchExecutor, ExecutionMode};
use keyswitch::error::KeyswitchError;
use keyswitch::glwe::GlweSecretKey;
use keyswitch::lwe::{encrypt_lwe_ciphertext, LweCiphertext, LweSecretKey};
use keyswitch::lwe_keyswitch::keyswitch_lwe_ciphertext;
use keyswitch::lwe_keyswitch_key::LweKeyswitchKey;
use keyswitch::lwe_packing_keyswitch_key::LwePackingKeyswitchKey;
use keyswitch::modulus::CiphertextModulus;

struct Stream(u64);

impl Stream {
    fn next(&mut self) -> u64 {
        self.0 = self.0.wrapping_add(0x9E37_79B9_7F4A_7C15);
        let mut z = self.0;
        z = (z ^ (z >> 30)).wrapping_mul(0xBF58_476D_1CE4_E5B9);
        z = (z ^ (z >> 27)).wrapping_mul(0x94D0_49BB_1331_11EB);
        z ^ (z >> 31)
    }

    fn bits(&mut self, n: usize) -> Vec<u64> {
        (0..n).map(|_| self.next() & 1).collect()
    }

    fn uniform(&mut self, n: usize) -> Vec<u64> {
        (0..n).map(|_| self.next()).collect()
    }
}

const N_IN: usize = 12;
const N_OUT: usize = 5;
const LEVELS: usize = 3;

fn scalar_setting(g: &mut Stream, count: usize) -> (LweKeyswitchKey, Vec<LweCiphertext>) {
    let modulus = CiphertextModulus::new_native();
    let source = LweSecretKey::from_container(g.bits(N_IN));
    let destination = LweSecretKey::from_container(g.bits(N_OUT));
    let key = LweKeyswitchKey::generate(
        &source,
        &destination,
        4,
        LEVELS,
        Variance(-50), modulus,
        &g.uniform(N_IN * LEVELS * N_OUT),
        &g.uniform(N_IN * LEVELS),
    )
    .unwrap();
    let inputs = (0..count)
        .map(|i| {
            encrypt_lwe_ciphertext(&source, (i as u64) << 58, &g.uniform(N_IN), 1, modulus).unwrap()
        })
        .collect();
    (key, inputs)
}

fn containers(outputs: &[LweCiphertext]) -> Vec<Vec<u64>> {
    outputs.iter().map(|ct| ct.as_container().clone()).collect()
}

#[test]
fn executor_construction() {
    assert_eq!(BatchExecutor::host(0).err(), Some(KeyswitchError::ParameterError));
    let host = BatchExecutor::host(6).unwrap();
    assert_eq!(host.backend(), Backend::Host);
    assert_eq!(host.lanes(), 6);
    assert_eq!(host.units_per_lane(), 1);
    assert_eq!(host.work_set_size(ExecutionMode::Latency), 1);
    assert_eq!(host.work_set_size(ExecutionMode::Throughput), 6);
    assert_eq!(BatchExecutor::accelerator(0, 4, 100).err(), Some(KeyswitchError::ParameterError));
    assert_eq!(BatchExecutor::accelerator(2, 0, 100).err(), Some(KeyswitchError::ParameterError));
    assert_eq!(
        BatchExecutor::accelerator(usize::MAX, 2, 100).err(),
        Some(KeyswitchError::ParameterError)
    );
    let device = BatchExecutor::accelerator(2, 64, 1000).unwrap();
    assert_eq!(device.backend(), Backend::Accelerator);
    assert_eq!(device.lanes(), 2);
    assert_eq!(device.lane_memory(), 1000);
    assert_eq!(device.work_set_size(ExecutionMode::Latency), 1);
    assert_eq!(device.work_set_size(ExecutionMode::Throughput), 128);
}

#[test]
fn partition_cuts_the_batch_into_contiguous_shares() {
    let three = BatchExecutor::host(3).unwrap();
    assert_eq!(three.partition(10), vec![(0, 4), (4, 7), (7, 10)]);
    assert_eq!(three.partition(9), vec![(0, 3), (3, 6), (6, 9)]);
    assert_eq!(three.partition(2), vec![(0, 1), (1, 2), (2, 2)]);
    assert_eq!(three.partition(0), vec![(0, 0), (0, 0), (0, 0)]);
    assert_eq!(BatchExecutor::host(1).unwrap().partition(5), vec![(0, 5)]);
    assert_eq!(three.shares(ExecutionMode::Latency, 10), vec![(0, 10)]);
    assert_eq!(three.shares(ExecutionMode::Throughput, 10), vec![(0, 4), (4, 7), (7, 10)]);
    let big = BatchExecutor::host(4).unwrap().partition(usize::MAX);
    assert_eq!(big[0].0, 0);
    assert_eq!(big[3].1, usize::MAX);
}

#[test]
fn latency_and_throughput_give_identical_outputs_on_both_backends() {
    let mut g = Stream(31);
    let (key, inputs) = scalar_setting(&mut g, 11);
    // one by one, each unit in isolation
    let mut one_by_one = Vec::new();
    for input in &inputs {
        let mut output = LweCiphertext::new(N_OUT, CiphertextModulus::new_native()).unwrap();
        keyswitch_lwe_ciphertext(&key, input, &mut output).unwrap();
        one_by_one.push(output.as_container().clone());
    }
    let host = BatchExecutor::host(4).unwrap();
    let device = BatchExecutor::accelerator(3, 2, 1 << 20).unwrap();
    for executor in [host, device] {
        for mode in [ExecutionMode::Latency, ExecutionMode::Throughput] {
            let outputs = executor.keyswitch_batch(mode, &key, &inputs).unwrap();
            assert_eq!(containers(&outputs), one_by_one);
        }
    }
    // each unit as a batch of its own
    for (i, input) in inputs.iter().enumerate() {
        let alone = vec![input.duplicate()];
        let outputs = host.keyswitch_batch(ExecutionMode::Latency, &key, &alone).unwrap();
        assert_eq!(containers(&outputs), vec![one_by_one[i].clone()]);
    }
}

#[test]
fn reversing_the_batch_changes_no_units_output() {
    let mut g = Stream(32);
    let (key, inputs) = scalar_setting(&mut g, 7);
    let executor = BatchExecutor::host(3).unwrap();
    let forward = containers(&executor.keyswitch_batch(ExecutionMode::Throughput, &key, &inputs).unwrap());
    let reversed_inputs: Vec<LweCiphertext> = inputs.iter().rev().map(|ct| ct.duplicate()).collect();
    let backward = containers(
        &executor.keyswitch_batch(ExecutionMode::Throughput, &key, &reversed_inputs).unwrap(),
    );
    for i in 0..7 {
        assert_eq!(backward[6 - i], forward[i]);
    }
}

#[test]
fn empty_batch_gives_no_outputs() {
    let mut g = Stream(33);
    let (key, inputs) = scalar_setting(&mut g, 0);
    let executor = BatchExecutor::host(2).unwrap();
    assert!(executor.keyswitch_batch(ExecutionMode::Throughput, &key, &inputs).unwrap().is_empty());
    assert!(executor.keyswitch_batch(ExecutionMode::Latency, &key, &inputs).unwrap().is_empty());
}

#[test]
fn batch_rejects_an_input_that_does_not_fit() {
    let mut g = Stream(34);
    let (key, mut inputs) = scalar_setting(&mut g, 3);
    inputs.push(LweCiphertext::new(N_IN + 1, CiphertextModulus::new_native()).unwrap());
    let executor = BatchExecutor::host(2).unwrap();
    assert_eq!(
        executor.keyswitch_batch(ExecutionMode::Throughput, &key, &inputs).err(),
        Some(KeyswitchError::DimensionMismatch)
    );
    // a device that is also short of memory still reports the misfit first
    let tiny = BatchExecutor::accelerator(1, 1, 0).unwrap();
    assert_eq!(
        tiny.keyswitch_batch(ExecutionMode::Latency, &key, &inputs).err(),
        Some(KeyswitchError::DimensionMismatch)
    );
}

#[test]
fn accelerator_reports_exhaustion_exactly_when_a_share_does_not_fit() {
    let mut g = Stream(35);
    let (key, inputs) = scalar_setting(&mut g, 10);
    let key_size = N_IN * LEVELS * (N_OUT + 1);
    let per_unit = (N_IN + 1) + (N_OUT + 1) + 2;
    // three devices: the largest share of ten units has four
    let enough = BatchExecutor::accelerator(3, 4, key_size + 4 * per_unit).unwrap();
    assert!(enough.keyswitch_batch(ExecutionMode::Throughput, &key, &inputs).is_ok());
    let short = BatchExecutor::accelerator(3, 4, key_size + 4 * per_unit - 1).unwrap();
    assert_eq!(
        short.keyswitch_batch(ExecutionMode::Throughput, &key, &inputs).err(),
        Some(KeyswitchError::ResourceExhaustion)
    );
    // one unit at a time needs room for one unit only
    assert!(short.keyswitch_batch(ExecutionMode::Latency, &key, &inputs).is_ok());
    let one_unit = BatchExecutor::accelerator(3, 4, key_size + per_unit).unwrap();
    assert!(one_unit.keyswitch_batch(ExecutionMode::Latency, &key, &inputs).is_ok());
    let less = BatchExecutor::accelerator(3, 4, key_size + per_unit - 1).unwrap();
    assert_eq!(
        less.keyswitch_batch(ExecutionMode::Latency, &key, &inputs).err(),
        Some(KeyswitchError::ResourceExhaustion)
    );
    // an empty batch needs the key only
    let key_only = BatchExecutor::accelerator(3, 4, key_size).unwrap();
    assert!(key_only.keyswitch_batch(ExecutionMode::Throughput, &key, &Vec::new()).is_ok());
    let no_key = BatchExecutor::accelerator(3, 4, key_size - 1).unwrap();
    assert_eq!(
        no_key.keyswitch_batch(ExecutionMode::Throughput, &key, &Vec::new()).err(),
        Some(KeyswitchError::ResourceExhaustion)
    );
    // the host is never short
    assert!(BatchExecutor::host(1)
        .unwrap()
        .keyswitch_batch(ExecutionMode::Throughput, &key, &inputs)
        .is_ok());
}

fn packing_setting(
    g: &mut Stream,
    lists: usize,
    per_list: usize,
) -> (LwePackingKeyswitchKey, Vec<Vec<LweCiphertext>>) {
    let modulus = CiphertextModulus::new_native();
    let source = LweSecretKey::from_container(g.bits(N_IN));
    let destination = GlweSecretKey::from_container(g.bits(2 * 4), 4).unwrap();
    let key = LwePackingKeyswitchKey::generate(
        &source,
        &destination,
        4,
        LEVELS,
        Variance(-50), modulus,
        &g.uniform(N_IN * LEVELS * 8),
        &g.uniform(N_IN * LEVELS * 4),
    )
    .unwrap();
    let inputs = (0..lists)
        .map(|_| {
            (0..per_list)
                .map(|j| {
                    encrypt_lwe_ciphertext(&source, (j as u64) << 60, &g.uniform(N_IN), 1, modulus)
                        .unwrap()
                })
                .collect()
        })
        .collect();
    (key, inputs)
}

#[test]
fn packing_batches_agree_across_modes_and_backends() {
    let mut g = Stream(36);
    let (key, inputs) = packing_setting(&mut g, 5, 3);
    let host = BatchExecutor::host(2).unwrap();
    let device = BatchExecutor::accelerator(2, 8, 1 << 20).unwrap();
    let reference: Vec<Vec<u64>> = host
        .packing_keyswitch_batch(ExecutionMode::Latency, &key, &inputs)
        .unwrap()
        .iter()
        .map(|ct| ct.as_container().clone())
        .collect();
    assert_eq!(reference.len(), 5);
    for executor in [host, device] {
        for mode in [ExecutionMode::Latency, ExecutionMode::Throughput] {
            let outputs: Vec<Vec<u64>> = executor
                .packing_keyswitch_batch(mode, &key, &inputs)
                .unwrap()
                .iter()
                .map(|ct| ct.as_container().clone())
                .collect();
            assert_eq!(outputs, reference);
        }
    }
}

#[test]
fn packing_batch_errors() {
    let mut g = Stream(37);
    let (key, inputs) = packing_setting(&mut g, 3, 5);
    let host = BatchExecutor::host(2).unwrap();
    // five inputs for four slots
    assert_eq!(
        host.packing_keyswitch_batch(ExecutionMode::Throughput, &key, &inputs).err(),
        Some(KeyswitchError::ParameterError)
    );
    // an input of another dimension
    let (key, mut inputs) = packing_setting(&mut g, 2, 2);
    inputs[1].push(LweCiphertext::new(N_IN + 2, CiphertextModulus::new_native()).unwrap());
    assert_eq!(
        host.packing_keyswitch_batch(ExecutionMode::Latency, &key, &inputs).err(),
        Some(KeyswitchError::DimensionMismatch)
    );
    let (key, inputs) = packing_setting(&mut g, 3, 4);
    let rows = N_IN * LEVELS * 12;
    let per_unit = 4 * (N_IN + 1) + 12 + 2 * 4;
    // two devices: the largest share of three units has two
    let enough = BatchExecutor::accelerator(2, 1, rows + 2 * per_unit).unwrap();
    assert!(enough.packing_keyswitch_batch(ExecutionMode::Throughput, &key, &inputs).is_ok());
    let short = BatchExecutor::accelerator(2, 1, rows + 2 * per_unit - 1).unwrap();
    assert_eq!(
        short.packing_keyswitch_batch(ExecutionMode::Throughput, &key, &inputs).err(),
        Some(KeyswitchError::ResourceExhaustion)
    );
    assert!(short.packing_keyswitch_batch(ExecutionMode::Latency, &key, &inputs).is_ok());
}

#[test]
fn planning_gives_the_shares_or_the_error_of_the_batch() {
    let mut g = Stream(38);
    let (key, mut inputs) = scalar_setting(&mut g, 10);
    let host = BatchExecutor::host(3).unwrap();
    assert_eq!(
        host.plan_keyswitch_batch(ExecutionMode::Throughput, &key, &inputs),
        Ok(vec![(0, 4), (4, 7), (7, 10)])
    );
    assert_eq!(
        host.plan_keyswitch_batch(ExecutionMode::Latency, &key, &inputs),
        Ok(vec![(0, 10)])
    );
    assert!(BatchExecutor::keyswitch_inputs_fit(&key, &inputs));
    let tiny = BatchExecutor::accelerator(2, 1, 10).unwrap();
    assert_eq!(
        tiny.plan_keyswitch_batch(ExecutionMode::Throughput, &key, &inputs),
        Err(KeyswitchError::ResourceExhaustion)
    );
    inputs.push(LweCiphertext::new(N_IN + 1, CiphertextModulus::new_native()).unwrap());
    assert!(!BatchExecutor::keyswitch_inputs_fit(&key, &inputs));
    assert_eq!(
        tiny.plan_keyswitch_batch(ExecutionMode::Throughput, &key, &inputs),
        Err(KeyswitchError::DimensionMismatch)
    );
    let (key, mut lists) = packing_setting(&mut g, 5, 4);
    assert_eq!(
        host.plan_packing_keyswitch_batch(ExecutionMode::Throughput, &key, &lists),
        Ok(vec![(0, 2), (2, 4), (4, 5)])
    );
    assert!(BatchExecutor::packing_lists_short(&key, &lists));
    assert!(BatchExecutor::packing_lists_fit(&key, &lists));
    lists[2].push(LweCiphertext::new(3, CiphertextModulus::new_native()).unwrap());
    assert!(!BatchExecutor::packing_lists_short(&key, &lists));
    assert_eq!(
        host.plan_packing_keyswitch_batch(ExecutionMode::Latency, &key, &lists),
        Err(KeyswitchError::ParameterError)
    );
}
