//! Verified core of the Metatron quantum state operator framework: the
//! combinatorial structure of the 13-node Metatron Cube, the parameter
//! bookkeeping of the variational ansätze, tripolar logic classes, circuit
//! descriptions, backend configuration and selection, and the bounded stores
//! of the telemetry service.

pub mod ansatz;
pub mod backends;
pub mod circuit;
pub mod dtl;
pub mod graph;
pub mod quantum;
pub mod registry;
pub mod telemetry;
pub mod text;
pub mod vqa;

use vstd::prelude::*;

verus! {

/// Dimension of the Metatron Cube Hilbert space (number of graph nodes).
pub const METATRON_DIMENSION: usize = 13;

} // verus!
