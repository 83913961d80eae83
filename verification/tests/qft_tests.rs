use qbit_sim::qft::{qft_schedule, QftOp};

#[test]
fn qft_schedule_three_qubits() {
    // Hadamard plus phase ladder per round, low position first, then the
    // closing swap reversal; the d-th ladder step carries angle pi/2^d.
    let ops = qft_schedule(0, 2);
    assert_eq!(
        ops,
        vec![
            QftOp::Hadamard { qubit: 0 },
            QftOp::ControlledPhase { ctrl: 1, target: 0, phase_pow: 1 },
            QftOp::ControlledPhase { ctrl: 2, target: 0, phase_pow: 2 },
            QftOp::Hadamard { qubit: 1 },
            QftOp::ControlledPhase { ctrl: 2, target: 1, phase_pow: 1 },
            QftOp::Hadamard { qubit: 2 },
            QftOp::Swap { a: 0, b: 2 },
        ]
    );
}

#[test]
fn qft_schedule_is_width_relative() {
    // Only the width of the range matters; a single-position range is one
    // Hadamard and no reversal.
    assert_eq!(qft_schedule(1, 3), qft_schedule(0, 2));
    assert_eq!(qft_schedule(5, 5), vec![QftOp::Hadamard { qubit: 0 }]);
}

#[test]
fn qft_schedule_four_qubit_reversal() {
    let ops = qft_schedule(0, 3);
    let swaps: Vec<QftOp> = ops
        .iter()
        .filter(|op| matches!(op, QftOp::Swap { .. }))
        .cloned()
        .collect();
    assert_eq!(
        swaps,
        vec![QftOp::Swap { a: 0, b: 3 }, QftOp::Swap { a: 1, b: 2 }]
    );
    // Each round's ladder shrinks by one.
    let hadamards = ops
        .iter()
        .filter(|op| matches!(op, QftOp::Hadamard { .. }))
        .count();
    let phases = ops
        .iter()
        .filter(|op| matches!(op, QftOp::ControlledPhase { .. }))
        .count();
    assert_eq!(hadamards, 4);
    assert_eq!(phases, 3 + 2 + 1);
}
