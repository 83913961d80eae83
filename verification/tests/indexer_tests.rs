use qbit_sim::circuit::MeasurementResult;
use qbit_sim::indexer::{index_vec, indices, mask_vec, masks};
use qbit_sim::validate::{
    ctrl_qubit_should_be_different_from_target_qubit, qubit_should_be_less_than_circuit_size,
    QuantumError,
};

#[test]
fn masks_isolate_above_and_below() {
    let (upper, lower) = masks(0);
    assert_eq!(upper, 0xFFFF_FFFF_FFFF_FFFEu64);
    assert_eq!(lower, 0u64);

    let (upper, lower) = masks(1);
    assert_eq!(upper, 0xFFFF_FFFF_FFFF_FFFCu64);
    assert_eq!(lower, 1u64);

    let (upper, lower) = masks(3);
    assert_eq!(upper, 0xFFFF_FFFF_FFFF_FFF0u64);
    assert_eq!(lower, 7u64);
}

#[test]
fn indices_give_zero_and_one_pair() {
    // One qubit at position 1 of a 2-qubit register: the sweep index is the
    // value of qubit 0.
    let (upper, lower) = masks(1);
    assert_eq!(indices(0, 1, upper, lower), (0, 2));
    assert_eq!(indices(1, 1, upper, lower), (1, 3));

    let (upper, lower) = masks(0);
    assert_eq!(indices(0, 0, upper, lower), (0, 1));
    assert_eq!(indices(1, 0, upper, lower), (2, 3));
}

#[test]
fn mask_vec_partitions_the_bit_runs() {
    // Targets 0 and 2: runs are "above 2", "strictly between 0 and 2",
    // "below 0".
    let m = mask_vec(&[0, 2]);
    assert_eq!(m.len(), 3);
    assert_eq!(m[0], 0xFFFF_FFFF_FFFF_FFF8u64);
    assert_eq!(m[1], 2u64);
    assert_eq!(m[2], 0u64);

    // The caller-supplied order does not change the partition.
    let m2 = mask_vec(&[2, 0]);
    assert_eq!(m, m2);

    let single = mask_vec(&[1]);
    assert_eq!(single, vec![0xFFFF_FFFF_FFFF_FFFCu64, 1u64]);
}

#[test]
fn index_vec_places_combination_bits() {
    // Two targets 0 and 2 in a 4-qubit register; untouched qubits 1 and 3
    // both set (compacted index 3 -> global bits 1 and 3 -> 10).
    let m = mask_vec(&[0, 2]);
    let iv = index_vec(3, &[0, 2], &m, 2);
    assert_eq!(iv, vec![10, 14, 11, 15]);

    // Reversing the target order swaps which combination bit lands where.
    let iv_swapped = index_vec(3, &[2, 0], &m, 2);
    assert_eq!(iv_swapped, vec![10, 11, 14, 15]);
}

#[test]
fn index_vec_single_qubit_matches_indices() {
    // The one-qubit index list agrees with the `indices` pair for every
    // sweep position.
    for qubit in 0..3u64 {
        let (upper, lower) = masks(qubit);
        let m = mask_vec(&[qubit]);
        for i in 0..4u64 {
            let (zero, one) = indices(i, qubit, upper, lower);
            let iv = index_vec(i, &[qubit], &m, 1);
            assert_eq!(iv, vec![zero, one]);
        }
    }
}

#[test]
fn index_vec_partitions_the_index_space() {
    // Across the sweep, the index lists are pairwise disjoint and cover
    // the whole space exactly once.
    let n = 4u32;
    let qubits = [1u64, 3u64];
    let m = mask_vec(&qubits);
    let mut seen = vec![false; 1 << n];
    for i in 0..(1u64 << (n - 2)) {
        let iv = index_vec(i, &qubits, &m, 2);
        assert_eq!(iv.len(), 4);
        for &g in iv.iter() {
            assert!((g as usize) < (1 << n));
            assert!(!seen[g as usize]);
            seen[g as usize] = true;
        }
    }
    assert!(seen.iter().all(|&b| b));
}

#[test]
fn validation_rules() {
    assert_eq!(qubit_should_be_less_than_circuit_size(0, 1), Ok(()));
    assert_eq!(qubit_should_be_less_than_circuit_size(2, 3), Ok(()));
    assert_eq!(
        qubit_should_be_less_than_circuit_size(3, 3),
        Err(QuantumError::OutOfRangeQubit)
    );
    assert_eq!(
        qubit_should_be_less_than_circuit_size(7, 3),
        Err(QuantumError::OutOfRangeQubit)
    );

    assert_eq!(ctrl_qubit_should_be_different_from_target_qubit(0, 1), Ok(()));
    assert_eq!(
        ctrl_qubit_should_be_different_from_target_qubit(2, 2),
        Err(QuantumError::DuplicateControlTarget)
    );
}

#[test]
fn measurement_result_counts_draws() {
    let mut r = MeasurementResult::new(1, 5);
    assert_eq!((r.zero, r.one, r.shots, r.qubit), (0, 0, 5, 1));
    r.record(true);
    r.record(true);
    r.record(false);
    assert_eq!((r.zero, r.one), (2, 1));
    r.record(false);
    r.record(true);
    assert_eq!((r.zero, r.one), (3, 2));
    assert_eq!(r.zero + r.one, r.shots);
}
