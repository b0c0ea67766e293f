//! Dimension checks of the 13-dimensional Metatron Hilbert space and the
//! errors they report. (The amplitudes and matrices themselves are complex
//! floating-point data handled by the surrounding application.)

use vstd::prelude::*;
use vstd::string::StringExecFns;

use crate::text::{append_decimal, decimal};
use crate::METATRON_DIMENSION;

verus! {

/// Errors related to quantum operator construction.
#[derive(Debug, PartialEq, Eq, Structural)]
pub enum QuantumOperatorError {
    /// Permutation input had the wrong length.
    InvalidPermutationLength { expected: usize, actual: usize },
    /// Permutation indices exceeded the supported dimension.
    PermutationIndexOutOfRange { index: usize, dimension: usize },
}

/// Errors that can occur when manipulating quantum states.
#[derive(Debug, PartialEq, Eq, Structural)]
pub enum QuantumStateError {
    /// Provided amplitudes did not match the required dimension.
    DimensionMismatch { expected: usize, actual: usize },
    /// Attempted to sample from a state with zero norm.
    ZeroNorm,
}

/// The text of an operator error.
pub open spec fn operator_error_text(e: QuantumOperatorError) -> Seq<char> {
    match e {
        QuantumOperatorError::InvalidPermutationLength { expected, actual } => "permutation must have length "@
            + decimal(expected as nat) + ", got "@ + decimal(actual as nat),
        QuantumOperatorError::PermutationIndexOutOfRange { index, dimension } => "permutation index "@
            + decimal(index as nat) + " exceeds dimension "@ + decimal(dimension as nat),
    }
}

/// The text of a state error.
pub open spec fn state_error_text(e: QuantumStateError) -> Seq<char> {
    match e {
        QuantumStateError::DimensionMismatch { expected, actual } => "expected "@ + decimal(
            expected as nat,
        ) + " amplitudes, got "@ + decimal(actual as nat),
        QuantumStateError::ZeroNorm => "state has zero norm and cannot be measured"@,
    }
}

impl QuantumOperatorError {
    /// The human-readable description of the error.
    pub fn message(&self) -> (r: String)
        ensures
            r@ == operator_error_text(*self),
    {
        proof {
            reveal_strlit("permutation must have length ");
            reveal_strlit(", got ");
            reveal_strlit("permutation index ");
            reveal_strlit(" exceeds dimension ");
        }
        let mut r = String::new();
        match self {
            QuantumOperatorError::InvalidPermutationLength { expected, actual } => {
                r.append("permutation must have length ");
                append_decimal(&mut r, *expected);
                r.append(", got ");
                append_decimal(&mut r, *actual);
            },
            QuantumOperatorError::PermutationIndexOutOfRange { index, dimension } => {
                r.append("permutation index ");
                append_decimal(&mut r, *index);
                r.append(" exceeds dimension ");
                append_decimal(&mut r, *dimension);
            },
        }
        assert(r@ =~= operator_error_text(*self));
        r
    }
}

impl QuantumStateError {
    /// The human-readable description of the error.
    pub fn message(&self) -> (r: String)
        ensures
            r@ == state_error_text(*self),
    {
        proof {
            reveal_strlit("expected ");
            reveal_strlit(" amplitudes, got ");
            reveal_strlit("state has zero norm and cannot be measured");
        }
        match self {
            QuantumStateError::DimensionMismatch { expected, actual } => {
                let mut r = String::new();
                r.append("expected ");
                append_decimal(&mut r, *expected);
                r.append(" amplitudes, got ");
                append_decimal(&mut r, *actual);
                assert(r@ =~= state_error_text(*self));
                r
            },
            QuantumStateError::ZeroNorm => "state has zero norm and cannot be measured".to_owned(),
        }
    }
}

/// Checks a node permutation before it is turned into an operator: it must
/// list 13 targets, each a node index; the first target out of range is
/// reported.
pub fn check_permutation(permutation: &[usize]) -> (r: Result<(), QuantumOperatorError>)
    ensures
        permutation.len() != 13 ==> r == Err::<(), QuantumOperatorError>(
            QuantumOperatorError::InvalidPermutationLength { expected: 13, actual: permutation.len() },
        ),
        permutation.len() == 13 ==> (r is Ok <==> forall|i: int| 0 <= i < 13 ==> #[trigger] permutation@[i] < 13),
        permutation.len() == 13 && (exists|i: int| 0 <= i < 13 && #[trigger] permutation@[i] >= 13) ==> r matches Err(
            QuantumOperatorError::PermutationIndexOutOfRange { .. },
        ),
        r matches Err(QuantumOperatorError::PermutationIndexOutOfRange { index, dimension }) ==> {
            &&& dimension == 13
            &&& exists|i: int|
                0 <= i < 13 && permutation@[i] == index && index >= 13 && forall|j: int|
                    0 <= j < i ==> #[trigger] permutation@[j] < 13
        },
{
    if permutation.len() != METATRON_DIMENSION {
        return Err(
            QuantumOperatorError::InvalidPermutationLength {
                expected: METATRON_DIMENSION,
                actual: permutation.len(),
            },
        );
    }
    let mut i: usize = 0;
    while i < permutation.len()
        invariant
            permutation.len() == 13,
            i <= 13,
            forall|j: int| 0 <= j < i ==> #[trigger] permutation@[j] < 13,
        decreases 13 - i,
    {
        let target = permutation[i];
        if target >= METATRON_DIMENSION {
            return Err(
                QuantumOperatorError::PermutationIndexOutOfRange {
                    index: target,
                    dimension: METATRON_DIMENSION,
                },
            );
        }
        i += 1;
    }
    Ok(())
}

/// Checks that `count` amplitudes were given for a state.
pub fn check_amplitude_count(count: usize) -> (r: Result<(), QuantumStateError>)
    ensures
        count == 13 ==> r is Ok,
        count != 13 ==> r == Err::<(), QuantumStateError>(
            QuantumStateError::DimensionMismatch { expected: 13, actual: count },
        ),
{
    if count != METATRON_DIMENSION {
        return Err(QuantumStateError::DimensionMismatch { expected: METATRON_DIMENSION, actual: count });
    }
    Ok(())
}

/// Checks the index of a basis state; an index past the last node is
/// reported as a dimension mismatch with `index + 1` as the actual size.
pub fn check_basis_index(index: usize) -> (r: Result<(), QuantumStateError>)
    requires
        index < usize::MAX,
    ensures
        index < 13 ==> r is Ok,
        index >= 13 ==> r == Err::<(), QuantumStateError>(
            QuantumStateError::DimensionMismatch { expected: 13, actual: (index + 1) as usize },
        ),
{
    if index >= METATRON_DIMENSION {
        return Err(QuantumStateError::DimensionMismatch { expected: METATRON_DIMENSION, actual: index + 1 });
    }
    Ok(())
}

} // verus!
