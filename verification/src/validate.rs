use vstd::prelude::*;

verus! {

/// The two precondition violations a gate operation can report, both
/// detected before any amplitude is touched.
#[derive(Clone, Copy, Debug, PartialEq, Eq, Structural)]
pub enum QuantumError {
    /// A supplied qubit index is not below the register size.
    OutOfRangeQubit,
    /// A control qubit coincides with its target.
    DuplicateControlTarget,
}

/// Fails exactly when the qubit index is not below the register size.
pub fn qubit_should_be_less_than_circuit_size(qubit: u64, circuit_size: u64) -> (r: Result<
    (),
    QuantumError,
>)
    ensures
        r is Ok <==> qubit < circuit_size,
        r is Err ==> r == Result::<(), QuantumError>::Err(QuantumError::OutOfRangeQubit),
{
    if qubit < circuit_size {
        Ok(())
    } else {
        Err(QuantumError::OutOfRangeQubit)
    }
}

/// Fails exactly when the control qubit equals the target qubit.
pub fn ctrl_qubit_should_be_different_from_target_qubit(ctrl_qubit: u64, target_qubit: u64) -> (r:
    Result<(), QuantumError>)
    ensures
        r is Ok <==> ctrl_qubit != target_qubit,
        r is Err ==> r == Result::<(), QuantumError>::Err(QuantumError::DuplicateControlTarget),
{
    if ctrl_qubit != target_qubit {
        Ok(())
    } else {
        Err(QuantumError::DuplicateControlTarget)
    }
}

} // verus!
