//! Dynamic Tripolar Logic: the three state classes (the static poles L0 and
//! L1 and the dynamic class LD) and how the logical connectives act on them.
//! (The trajectories of dynamic states are real-valued functions kept by the
//! surrounding application; only their class is decided here.)

use vstd::prelude::*;

verus! {

/// The fundamental tripolar state classes.
#[derive(Clone, Copy, Debug, PartialEq, Eq, Structural)]
pub enum TripolarStateKind {
    L0,
    L1,
    Ld,
}

/// The class of `x ∧ y`: L0 absorbs, L1 is neutral, anything else is dynamic.
pub open spec fn and_class(x: TripolarStateKind, y: TripolarStateKind) -> TripolarStateKind {
    if x == TripolarStateKind::L0 || y == TripolarStateKind::L0 {
        TripolarStateKind::L0
    } else if x == TripolarStateKind::L1 && y == TripolarStateKind::L1 {
        TripolarStateKind::L1
    } else {
        TripolarStateKind::Ld
    }
}

/// The class of `x ∨ y`: L1 absorbs, L0 is neutral, anything else is dynamic.
pub open spec fn or_class(x: TripolarStateKind, y: TripolarStateKind) -> TripolarStateKind {
    if x == TripolarStateKind::L1 || y == TripolarStateKind::L1 {
        TripolarStateKind::L1
    } else if x == TripolarStateKind::L0 && y == TripolarStateKind::L0 {
        TripolarStateKind::L0
    } else {
        TripolarStateKind::Ld
    }
}

/// The class of `¬x`: the poles swap, a dynamic state stays dynamic.
pub open spec fn not_class(x: TripolarStateKind) -> TripolarStateKind {
    match x {
        TripolarStateKind::L0 => TripolarStateKind::L1,
        TripolarStateKind::L1 => TripolarStateKind::L0,
        TripolarStateKind::Ld => TripolarStateKind::Ld,
    }
}

/// Dynamic Tripolar Logic operations on state classes.
pub struct DTLOperations;

impl DTLOperations {
    /// The class of the tripolar conjunction `x ∧_DTL y`.
    pub fn and_kind(x: TripolarStateKind, y: TripolarStateKind) -> (r: TripolarStateKind)
        ensures
            r == and_class(x, y),
    {
        match (x, y) {
            (TripolarStateKind::L0, _) | (_, TripolarStateKind::L0) => TripolarStateKind::L0,
            (TripolarStateKind::L1, TripolarStateKind::L1) => TripolarStateKind::L1,
            _ => TripolarStateKind::Ld,
        }
    }

    /// The class of the tripolar disjunction `x ∨_DTL y`.
    pub fn or_kind(x: TripolarStateKind, y: TripolarStateKind) -> (r: TripolarStateKind)
        ensures
            r == or_class(x, y),
    {
        match (x, y) {
            (TripolarStateKind::L1, _) | (_, TripolarStateKind::L1) => TripolarStateKind::L1,
            (TripolarStateKind::L0, TripolarStateKind::L0) => TripolarStateKind::L0,
            _ => TripolarStateKind::Ld,
        }
    }

    /// The class of the tripolar negation `¬_DTL x`.
    pub fn not_kind(x: TripolarStateKind) -> (r: TripolarStateKind)
        ensures
            r == not_class(x),
    {
        match x {
            TripolarStateKind::L0 => TripolarStateKind::L1,
            TripolarStateKind::L1 => TripolarStateKind::L0,
            TripolarStateKind::Ld => TripolarStateKind::Ld,
        }
    }
}

/// The pole of a truth value.
pub open spec fn pole_of(b: bool) -> TripolarStateKind {
    if b { TripolarStateKind::L1 } else { TripolarStateKind::L0 }
}

/// On the static poles the tripolar connectives are Boolean logic.
pub proof fn lemma_boolean_reduction(a: bool, b: bool)
    ensures
        and_class(pole_of(a), pole_of(b)) == pole_of(a && b),
        or_class(pole_of(a), pole_of(b)) == pole_of(a || b),
        not_class(pole_of(a)) == pole_of(!a),
{
}

/// Conjunction and disjunction are commutative and associative on classes.
pub proof fn lemma_commutative_associative(x: TripolarStateKind, y: TripolarStateKind, z: TripolarStateKind)
    ensures
        and_class(x, y) == and_class(y, x),
        or_class(x, y) == or_class(y, x),
        and_class(and_class(x, y), z) == and_class(x, and_class(y, z)),
        or_class(or_class(x, y), z) == or_class(x, or_class(y, z)),
{
}

/// Negation is an involution and De Morgan's laws hold on classes.
pub proof fn lemma_de_morgan(x: TripolarStateKind, y: TripolarStateKind)
    ensures
        not_class(not_class(x)) == x,
        not_class(and_class(x, y)) == or_class(not_class(x), not_class(y)),
        not_class(or_class(x, y)) == and_class(not_class(x), not_class(y)),
{
}

/// L0 absorbs and L1 is neutral for conjunction; dually for disjunction.
pub proof fn lemma_poles_absorb(x: TripolarStateKind)
    ensures
        and_class(TripolarStateKind::L0, x) == TripolarStateKind::L0,
        and_class(TripolarStateKind::L1, x) == x,
        or_class(TripolarStateKind::L1, x) == TripolarStateKind::L1,
        or_class(TripolarStateKind::L0, x) == x,
{
}

/// Information-theoretic properties of tripolar logic. (Its capacities and
/// entropies are real numbers, computed by the surrounding application.)
pub struct TripolarInformationTheory;

} // verus!
