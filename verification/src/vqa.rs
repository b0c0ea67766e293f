//! Configuration choices of the variational algorithms.

use vstd::prelude::*;

verus! {

/// Optimizer type selection.
#[derive(Clone, Debug, PartialEq, Eq, Structural)]
pub enum OptimizerType {
    Adam,
    NelderMead,
    LBFGS,
    GradientDescent,
}

/// Data encoding type of the variational classifier.
#[derive(Clone, Debug, PartialEq, Eq, Structural)]
pub enum EncodingType {
    /// Amplitude encoding: data directly as amplitudes.
    Amplitude,
    /// Angle encoding: data as rotation angles.
    Angle,
    /// Basis encoding: data as basis state superposition.
    Basis,
}

/// Type of initial state of the variational eigensolver.
#[derive(Clone, Debug, PartialEq, Eq, Structural)]
pub enum InitialStateType {
    /// Uniform superposition.
    UniformSuperposition,
    /// Ground state from classical diagonalization.
    ClassicalGround,
    /// Hartree-Fock initial state.
    HartreeFock,
    /// Random Haar state.
    Random,
}

/// Transform from the normalized search space to a parameter range.
#[derive(Debug, Clone, Copy)]
pub enum TransformType {
    /// Linear mapping: min + (max - min) * x.
    Linear,
    /// Logarithmic mapping: exp(log(min) + (log(max) - log(min)) * x).
    Logarithmic,
    /// Integer mapping: round(Linear).
    Integer,
}

} // verus!
