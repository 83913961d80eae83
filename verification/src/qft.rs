use vstd::prelude::*;

verus! {

/// One elementary operation of the Fourier-transform routine, as plain
/// values: a Hadamard on one qubit, a controlled phase of angle
/// pi / 2^phase_pow on a control/target pair, or a swap of a pair.
#[derive(Clone, Copy, Debug, PartialEq, Eq, Structural)]
pub enum QftOp {
    Hadamard { qubit: u64 },
    ControlledPhase { ctrl: u64, target: u64, phase_pow: u64 },
    Swap { a: u64, b: u64 },
}

/// The phase ladder of one round: the controlled phases aimed at `q`,
/// the control walking up from `q + 1` and the angle halving each step.
pub open spec fn qft_ladder(width: u64, q: u64) -> Seq<QftOp> {
    Seq::new(
        (width - q - 1) as nat,
        |j: int|
            QftOp::ControlledPhase {
                ctrl: (q + j + 1) as u64,
                target: q,
                phase_pow: (j + 1) as u64,
            },
    )
}

/// The rounds from position `q` up: a Hadamard on each position, followed
/// by that position's phase ladder.
pub open spec fn qft_rounds(width: u64, q: u64) -> Seq<QftOp>
    decreases width - q,
{
    if q >= width {
        Seq::empty()
    } else {
        (seq![QftOp::Hadamard { qubit: q }] + qft_ladder(width, q)) + qft_rounds(
            width,
            (q + 1) as u64,
        )
    }
}

/// The closing reversal: symmetric position pairs swapped from the ends
/// inward.
pub open spec fn qft_swaps(width: u64) -> Seq<QftOp> {
    Seq::new((width / 2) as nat, |i: int| QftOp::Swap { a: i as u64, b: (width - 1 - i) as u64 })
}

/// The whole schedule for a range of the given width: every round from
/// position 0 up, then the reversal.
pub open spec fn qft_schedule_spec(width: u64) -> Seq<QftOp> {
    qft_rounds(width, 0) + qft_swaps(width)
}

/// All gates of the transform over the inclusive qubit range, in order.
/// The range ends fix only the width: the listed operations act on
/// qubits 0..width-1, whatever the range's start.
pub fn qft_schedule(from_qubit: u64, to_qubit: u64) -> (ops: Vec<QftOp>)
    requires
        from_qubit <= to_qubit,
        to_qubit < 63,
    ensures
        ops@ == qft_schedule_spec((to_qubit - from_qubit + 1) as u64),
{
    let width = to_qubit - from_qubit + 1;
    let mut ops: Vec<QftOp> = Vec::new();
    let mut q: u64 = 0;
    proof {
        assert(ops@ + qft_rounds(width, 0) =~= qft_rounds(width, 0));
    }
    while q < width
        invariant
            q <= width,
            width <= 63,
            ops@ + qft_rounds(width, q) == qft_rounds(width, 0),
        decreases width - q,
    {
        let ghost ops0 = ops@;
        ops.push(QftOp::Hadamard { qubit: q });
        let count = width - q - 1;
        let ghost round_start = ops@;
        let mut j: u64 = 0;
        proof {
            assert(ops@ =~= round_start + qft_ladder(width, q).take(0));
        }
        while j < count
            invariant
                j <= count,
                count == width - q - 1,
                q < width,
                width <= 63,
                ops@ == round_start + qft_ladder(width, q).take(j as int),
            decreases count - j,
        {
            ops.push(QftOp::ControlledPhase { ctrl: q + j + 1, target: q, phase_pow: j + 1 });
            proof {
                assert(qft_ladder(width, q).take(j + 1) =~= qft_ladder(width, q).take(
                    j as int,
                ).push(
                    QftOp::ControlledPhase {
                        ctrl: (q + j + 1) as u64,
                        target: q,
                        phase_pow: (j + 1) as u64,
                    },
                ));
                assert(ops@ =~= round_start + qft_ladder(width, q).take(j + 1));
            }
            j += 1;
        }
        proof {
            assert(qft_ladder(width, q).take(count as int) =~= qft_ladder(width, q));
            assert(round_start =~= ops0 + seq![QftOp::Hadamard { qubit: q }]);
            assert(ops@ =~= ops0 + (seq![QftOp::Hadamard { qubit: q }] + qft_ladder(width, q)));
            assert(qft_rounds(width, q) == (seq![QftOp::Hadamard { qubit: q }] + qft_ladder(
                width,
                q,
            )) + qft_rounds(width, (q + 1) as u64));
            assert(ops@ + qft_rounds(width, (q + 1) as u64) =~= ops0 + qft_rounds(width, q));
        }
        q += 1;
    }
    let swap_count = width / 2;
    let ghost rounds_all = ops@;
    let mut id: u64 = 0;
    proof {
        assert(ops@ =~= rounds_all + qft_swaps(width).take(0));
    }
    while id < swap_count
        invariant
            id <= swap_count,
            swap_count == width / 2,
            width <= 63,
            rounds_all == qft_rounds(width, 0),
            ops@ == rounds_all + qft_swaps(width).take(id as int),
        decreases swap_count - id,
    {
        ops.push(QftOp::Swap { a: id, b: width - 1 - id });
        proof {
            assert(qft_swaps(width).take(id + 1) =~= qft_swaps(width).take(id as int).push(
                QftOp::Swap { a: id, b: (width - 1 - id) as u64 },
            ));
            assert(ops@ =~= rounds_all + qft_swaps(width).take(id + 1));
        }
        id += 1;
    }
    proof {
        assert(qft_swaps(width).take(swap_count as int) =~= qft_swaps(width));
        assert(ops@ =~= qft_schedule_spec(width));
    }
    ops
}

} // verus!
