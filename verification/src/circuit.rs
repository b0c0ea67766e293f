//! Backend-agnostic description of a quantum circuit and of the measurement
//! results a backend returns.

use vstd::prelude::*;
use vstd::string::StrSliceExecFns;

use crate::text::zero_padded;

verus! {

/// A rotation angle, held as the IEEE-754 bit pattern of its `f64` value.
#[derive(Clone, Copy, Debug)]
pub struct Angle {
    pub bits: u64,
}

/// The pattern encodes NaN: all exponent bits set and a non-zero mantissa.
pub open spec fn is_nan_bits(x: u64) -> bool {
    (x & 0x7ff0_0000_0000_0000u64) == 0x7ff0_0000_0000_0000u64 && (x & 0x000f_ffff_ffff_ffffu64) != 0
}

/// The pattern encodes +0.0 or -0.0.
pub open spec fn is_zero_bits(x: u64) -> bool {
    (x & 0x7fff_ffff_ffff_ffffu64) == 0
}

/// IEEE-754 equality of the two encoded values: NaN equals nothing, the two
/// zeros are equal, and otherwise the patterns must agree.
pub open spec fn float_bits_eq(a: u64, b: u64) -> bool {
    !is_nan_bits(a) && !is_nan_bits(b) && (a == b || (is_zero_bits(a) && is_zero_bits(b)))
}

impl Angle {
    /// IEEE-754 equality of two angles.
    pub fn same_value(&self, other: &Angle) -> (r: bool)
        ensures
            r == float_bits_eq(self.bits, other.bits),
    {
        let a = self.bits;
        let b = other.bits;
        let a_nan = (a & 0x7ff0_0000_0000_0000u64) == 0x7ff0_0000_0000_0000u64 && (a
            & 0x000f_ffff_ffff_ffffu64) != 0;
        let b_nan = (b & 0x7ff0_0000_0000_0000u64) == 0x7ff0_0000_0000_0000u64 && (b
            & 0x000f_ffff_ffff_ffffu64) != 0;
        !a_nan && !b_nan && (a == b || ((a & 0x7fff_ffff_ffff_ffffu64) == 0 && (b
            & 0x7fff_ffff_ffff_ffffu64) == 0))
    }
}

/// Gate types supported by the backend abstraction.
#[derive(Debug, Clone, Copy)]
pub enum GateType {
    /// Hadamard gate.
    H,
    /// Pauli X (NOT).
    X,
    /// Pauli Y.
    Y,
    /// Pauli Z.
    Z,
    /// S gate (phase).
    S,
    /// S† gate.
    Sdg,
    /// T gate.
    T,
    /// T† gate.
    Tdg,
    /// Rotation around the X axis.
    RX(Angle),
    /// Rotation around the Y axis.
    RY(Angle),
    /// Rotation around the Z axis.
    RZ(Angle),
    /// Arbitrary single-qubit unitary (theta, phi, lambda).
    U(Angle, Angle, Angle),
    /// Controlled-NOT.
    CNOT,
    /// Controlled-Z.
    CZ,
    /// SWAP.
    SWAP,
    /// Controlled phase.
    CPhase(Angle),
    /// Toffoli (CCX).
    Toffoli,
    /// Measurement in the computational basis.
    Measure,
}

/// Equality of gate types: same variant, and angles equal as IEEE-754 values.
pub open spec fn same_gate_type(a: GateType, b: GateType) -> bool {
    match (a, b) {
        (GateType::H, GateType::H) => true,
        (GateType::X, GateType::X) => true,
        (GateType::Y, GateType::Y) => true,
        (GateType::Z, GateType::Z) => true,
        (GateType::S, GateType::S) => true,
        (GateType::Sdg, GateType::Sdg) => true,
        (GateType::T, GateType::T) => true,
        (GateType::Tdg, GateType::Tdg) => true,
        (GateType::RX(x), GateType::RX(y)) => float_bits_eq(x.bits, y.bits),
        (GateType::RY(x), GateType::RY(y)) => float_bits_eq(x.bits, y.bits),
        (GateType::RZ(x), GateType::RZ(y)) => float_bits_eq(x.bits, y.bits),
        (GateType::U(x1, x2, x3), GateType::U(y1, y2, y3)) => float_bits_eq(x1.bits, y1.bits)
            && float_bits_eq(x2.bits, y2.bits) && float_bits_eq(x3.bits, y3.bits),
        (GateType::CNOT, GateType::CNOT) => true,
        (GateType::CZ, GateType::CZ) => true,
        (GateType::SWAP, GateType::SWAP) => true,
        (GateType::CPhase(x), GateType::CPhase(y)) => float_bits_eq(x.bits, y.bits),
        (GateType::Toffoli, GateType::Toffoli) => true,
        (GateType::Measure, GateType::Measure) => true,
        _ => false,
    }
}

impl GateType {
    /// Whether two gate types are equal (angles compared as IEEE-754 values).
    pub fn same_as(&self, other: &GateType) -> (r: bool)
        ensures
            r == same_gate_type(*self, *other),
    {
        match (self, other) {
            (GateType::H, GateType::H) => true,
            (GateType::X, GateType::X) => true,
            (GateType::Y, GateType::Y) => true,
            (GateType::Z, GateType::Z) => true,
            (GateType::S, GateType::S) => true,
            (GateType::Sdg, GateType::Sdg) => true,
            (GateType::T, GateType::T) => true,
            (GateType::Tdg, GateType::Tdg) => true,
            (GateType::RX(x), GateType::RX(y)) => x.same_value(y),
            (GateType::RY(x), GateType::RY(y)) => x.same_value(y),
            (GateType::RZ(x), GateType::RZ(y)) => x.same_value(y),
            (GateType::U(x1, x2, x3), GateType::U(y1, y2, y3)) => x1.same_value(y1)
                && x2.same_value(y2) && x3.same_value(y3),
            (GateType::CNOT, GateType::CNOT) => true,
            (GateType::CZ, GateType::CZ) => true,
            (GateType::SWAP, GateType::SWAP) => true,
            (GateType::CPhase(x), GateType::CPhase(y)) => x.same_value(y),
            (GateType::Toffoli, GateType::Toffoli) => true,
            (GateType::Measure, GateType::Measure) => true,
            _ => false,
        }
    }
}

/// Gate types compare variant by variant: two rotations about the same
/// axis, or two controlled phases, are the same gate type exactly when
/// their angles are equal as IEEE-754 values; two general unitaries exactly
/// when all three angles are; a rotation is never a gate of another axis;
/// and the comparison is symmetric.
pub proof fn lemma_gate_type_equality(x: Angle, y: Angle, x2: Angle, y2: Angle, x3: Angle, y3: Angle, a: GateType, b: GateType)
    ensures
        same_gate_type(GateType::RX(x), GateType::RX(y)) == float_bits_eq(x.bits, y.bits),
        same_gate_type(GateType::RY(x), GateType::RY(y)) == float_bits_eq(x.bits, y.bits),
        same_gate_type(GateType::RZ(x), GateType::RZ(y)) == float_bits_eq(x.bits, y.bits),
        same_gate_type(GateType::CPhase(x), GateType::CPhase(y)) == float_bits_eq(x.bits, y.bits),
        same_gate_type(GateType::U(x, x2, x3), GateType::U(y, y2, y3)) == (float_bits_eq(x.bits, y.bits)
            && float_bits_eq(x2.bits, y2.bits) && float_bits_eq(x3.bits, y3.bits)),
        !same_gate_type(GateType::RX(x), GateType::RY(y)),
        !same_gate_type(GateType::RY(x), GateType::RZ(y)),
        !same_gate_type(GateType::RZ(x), GateType::RX(y)),
        !same_gate_type(GateType::RZ(x), GateType::CPhase(y)),
        same_gate_type(a, b) == same_gate_type(b, a),
        float_bits_eq(x.bits, y.bits) == float_bits_eq(y.bits, x.bits),
        x.bits != y.bits && !(is_zero_bits(x.bits) && is_zero_bits(y.bits)) ==> !float_bits_eq(x.bits, y.bits),
        !is_nan_bits(x.bits) ==> float_bits_eq(x.bits, x.bits),
{
}

/// A single quantum gate with its target qubits.
#[derive(Debug, Clone)]
pub struct Gate {
    pub gate_type: GateType,
    pub qubits: Vec<usize>,
}

/// `gates` is `before` with one more gate of type `t` on `qubits` appended.
pub open spec fn appended_gate(before: Seq<Gate>, gates: Seq<Gate>, t: GateType, qubits: Seq<usize>) -> bool {
    &&& gates.len() == before.len() + 1
    &&& gates.take(before.len() as int) == before
    &&& gates.last().gate_type == t
    &&& gates.last().qubits@ == qubits
}

/// Number of gates in `gates` whose type equals `t`.
pub open spec fn gate_count(gates: Seq<Gate>, t: GateType) -> nat
    decreases gates.len(),
{
    if gates.len() == 0 {
        0
    } else {
        gate_count(gates.drop_last(), t) + if same_gate_type(gates.last().gate_type, t) {
            1nat
        } else {
            0nat
        }
    }
}

/// Backend-agnostic quantum circuit.
#[derive(Debug, Clone)]
pub struct MetatronCircuit {
    /// Number of qubits.
    pub num_qubits: usize,
    /// Sequence of gates.
    pub gates: Vec<Gate>,
    /// Classical register size (for measurements).
    pub num_clbits: usize,
}

impl MetatronCircuit {
    /// A circuit on `num_qubits` qubits with no gates and one classical bit
    /// per qubit.
    pub fn new(num_qubits: usize) -> (r: Self)
        ensures
            r.num_qubits == num_qubits,
            r.gates@.len() == 0,
            r.num_clbits == num_qubits,
    {
        Self { num_qubits, gates: Vec::new(), num_clbits: num_qubits }
    }

    /// Appends a gate; every target qubit must be on the circuit.
    pub fn add_gate(&mut self, gate_type: GateType, qubits: Vec<usize>)
        requires
            forall|i: int| 0 <= i < qubits@.len() ==> #[trigger] qubits@[i] < old(self).num_qubits,
        ensures
            final(self).num_qubits == old(self).num_qubits,
            final(self).num_clbits == old(self).num_clbits,
            appended_gate(old(self).gates@, final(self).gates@, gate_type, qubits@),
    {
        let ghost before = self.gates@;
        self.gates.push(Gate { gate_type, qubits });
        assert(self.gates@.take(before.len() as int) =~= before);
    }

    fn with_gate(self, gate_type: GateType, qubits: Vec<usize>) -> (r: Self)
        requires
            forall|i: int| 0 <= i < qubits@.len() ==> #[trigger] qubits@[i] < self.num_qubits,
        ensures
            r.num_qubits == self.num_qubits,
            r.num_clbits == self.num_clbits,
            appended_gate(self.gates@, r.gates@, gate_type, qubits@),
    {
        let mut circuit = self;
        circuit.add_gate(gate_type, qubits);
        circuit
    }

    pub fn h(self, qubit: usize) -> (r: Self)
        requires
            qubit < self.num_qubits,
        ensures
            r.num_qubits == self.num_qubits,
            r.num_clbits == self.num_clbits,
            appended_gate(self.gates@, r.gates@, GateType::H, seq![qubit]),
    {
        let qs = vec![qubit];
        assert(qs@ =~= seq![qubit]);
        self.with_gate(GateType::H, qs)
    }

    pub fn x(self, qubit: usize) -> (r: Self)
        requires
            qubit < self.num_qubits,
        ensures
            r.num_qubits == self.num_qubits,
            r.num_clbits == self.num_clbits,
            appended_gate(self.gates@, r.gates@, GateType::X, seq![qubit]),
    {
        let qs = vec![qubit];
        assert(qs@ =~= seq![qubit]);
        self.with_gate(GateType::X, qs)
    }

    pub fn y(self, qubit: usize) -> (r: Self)
        requires
            qubit < self.num_qubits,
        ensures
            r.num_qubits == self.num_qubits,
            r.num_clbits == self.num_clbits,
            appended_gate(self.gates@, r.gates@, GateType::Y, seq![qubit]),
    {
        let qs = vec![qubit];
        assert(qs@ =~= seq![qubit]);
        self.with_gate(GateType::Y, qs)
    }

    pub fn z(self, qubit: usize) -> (r: Self)
        requires
            qubit < self.num_qubits,
        ensures
            r.num_qubits == self.num_qubits,
            r.num_clbits == self.num_clbits,
            appended_gate(self.gates@, r.gates@, GateType::Z, seq![qubit]),
    {
        let qs = vec![qubit];
        assert(qs@ =~= seq![qubit]);
        self.with_gate(GateType::Z, qs)
    }

    pub fn s(self, qubit: usize) -> (r: Self)
        requires
            qubit < self.num_qubits,
        ensures
            r.num_qubits == self.num_qubits,
            r.num_clbits == self.num_clbits,
            appended_gate(self.gates@, r.gates@, GateType::S, seq![qubit]),
    {
        let qs = vec![qubit];
        assert(qs@ =~= seq![qubit]);
        self.with_gate(GateType::S, qs)
    }

    pub fn t(self, qubit: usize) -> (r: Self)
        requires
            qubit < self.num_qubits,
        ensures
            r.num_qubits == self.num_qubits,
            r.num_clbits == self.num_clbits,
            appended_gate(self.gates@, r.gates@, GateType::T, seq![qubit]),
    {
        let qs = vec![qubit];
        assert(qs@ =~= seq![qubit]);
        self.with_gate(GateType::T, qs)
    }

    pub fn rx(self, qubit: usize, theta: Angle) -> (r: Self)
        requires
            qubit < self.num_qubits,
        ensures
            r.num_qubits == self.num_qubits,
            r.num_clbits == self.num_clbits,
            appended_gate(self.gates@, r.gates@, GateType::RX(theta), seq![qubit]),
    {
        let qs = vec![qubit];
        assert(qs@ =~= seq![qubit]);
        self.with_gate(GateType::RX(theta), qs)
    }

    pub fn ry(self, qubit: usize, theta: Angle) -> (r: Self)
        requires
            qubit < self.num_qubits,
        ensures
            r.num_qubits == self.num_qubits,
            r.num_clbits == self.num_clbits,
            appended_gate(self.gates@, r.gates@, GateType::RY(theta), seq![qubit]),
    {
        let qs = vec![qubit];
        assert(qs@ =~= seq![qubit]);
        self.with_gate(GateType::RY(theta), qs)
    }

    pub fn rz(self, qubit: usize, theta: Angle) -> (r: Self)
        requires
            qubit < self.num_qubits,
        ensures
            r.num_qubits == self.num_qubits,
            r.num_clbits == self.num_clbits,
            appended_gate(self.gates@, r.gates@, GateType::RZ(theta), seq![qubit]),
    {
        let qs = vec![qubit];
        assert(qs@ =~= seq![qubit]);
        self.with_gate(GateType::RZ(theta), qs)
    }

    pub fn u(self, qubit: usize, theta: Angle, phi: Angle, lambda: Angle) -> (r: Self)
        requires
            qubit < self.num_qubits,
        ensures
            r.num_qubits == self.num_qubits,
            r.num_clbits == self.num_clbits,
            appended_gate(self.gates@, r.gates@, GateType::U(theta, phi, lambda), seq![qubit]),
    {
        let qs = vec![qubit];
        assert(qs@ =~= seq![qubit]);
        self.with_gate(GateType::U(theta, phi, lambda), qs)
    }

    pub fn cnot(self, control: usize, target: usize) -> (r: Self)
        requires
            control < self.num_qubits,
            target < self.num_qubits,
        ensures
            r.num_qubits == self.num_qubits,
            r.num_clbits == self.num_clbits,
            appended_gate(self.gates@, r.gates@, GateType::CNOT, seq![control, target]),
    {
        let qs = vec![control, target];
        assert(qs@ =~= seq![control, target]);
        self.with_gate(GateType::CNOT, qs)
    }

    pub fn cz(self, control: usize, target: usize) -> (r: Self)
        requires
            control < self.num_qubits,
            target < self.num_qubits,
        ensures
            r.num_qubits == self.num_qubits,
            r.num_clbits == self.num_clbits,
            appended_gate(self.gates@, r.gates@, GateType::CZ, seq![control, target]),
    {
        let qs = vec![control, target];
        assert(qs@ =~= seq![control, target]);
        self.with_gate(GateType::CZ, qs)
    }

    pub fn swap(self, qubit1: usize, qubit2: usize) -> (r: Self)
        requires
            qubit1 < self.num_qubits,
            qubit2 < self.num_qubits,
        ensures
            r.num_qubits == self.num_qubits,
            r.num_clbits == self.num_clbits,
            appended_gate(self.gates@, r.gates@, GateType::SWAP, seq![qubit1, qubit2]),
    {
        let qs = vec![qubit1, qubit2];
        assert(qs@ =~= seq![qubit1, qubit2]);
        self.with_gate(GateType::SWAP, qs)
    }

    pub fn measure(self, qubit: usize) -> (r: Self)
        requires
            qubit < self.num_qubits,
        ensures
            r.num_qubits == self.num_qubits,
            r.num_clbits == self.num_clbits,
            appended_gate(self.gates@, r.gates@, GateType::Measure, seq![qubit]),
    {
        let qs = vec![qubit];
        assert(qs@ =~= seq![qubit]);
        self.with_gate(GateType::Measure, qs)
    }

    /// Appends one measurement per qubit, in qubit order.
    pub fn measure_all(self) -> (r: Self)
        ensures
            r.num_qubits == self.num_qubits,
            r.num_clbits == self.num_clbits,
            r.gates@.len() == self.gates@.len() + self.num_qubits,
            r.gates@.take(self.gates@.len() as int) == self.gates@,
            forall|q: int|
                0 <= q < self.num_qubits ==> {
                    let g = #[trigger] r.gates@[self.gates@.len() + q];
                    &&& g.gate_type == GateType::Measure
                    &&& g.qubits@ == seq![q as usize]
                },
    {
        let ghost start = self.gates@;
        let ghost initial = self;
        let mut circuit = self;
        let n = circuit.num_qubits;
        let mut q: usize = 0;
        while q < n
            invariant
                circuit.num_qubits == n,
                circuit.num_clbits == initial.num_clbits,
                q <= n,
                circuit.gates@.len() == start.len() + q,
                circuit.gates@.take(start.len() as int) == start,
                forall|p: int|
                    0 <= p < q ==> {
                        let g = #[trigger] circuit.gates@[start.len() + p];
                        &&& g.gate_type == GateType::Measure
                        &&& g.qubits@ == seq![p as usize]
                    },
            decreases n - q,
        {
            let qs = vec![q];
            assert(qs@ =~= seq![q]);
            let ghost before = circuit.gates@;
            circuit.add_gate(GateType::Measure, qs);
            assert(circuit.gates@.take(start.len() as int) =~= start) by {
                assert(circuit.gates@.take(before.len() as int) == before);
                assert forall|i: int| 0 <= i < start.len() implies circuit.gates@[i] == start[i] by {
                    assert(circuit.gates@[i] == circuit.gates@.take(before.len() as int)[i]);
                    assert(before[i] == before.take(start.len() as int)[i]);
                }
            }
            assert forall|p: int| 0 <= p < q + 1 implies {
                let g = #[trigger] circuit.gates@[start.len() + p];
                &&& g.gate_type == GateType::Measure
                &&& g.qubits@ == seq![p as usize]
            } by {
                if p < q {
                    assert(circuit.gates@[start.len() + p] == circuit.gates@.take(before.len() as int)[start.len() + p]);
                    assert(before[start.len() + p] == circuit.gates@[start.len() + p]);
                }
            }
            q += 1;
        }
        circuit
    }

    /// Depth of the circuit, counted as the number of gates.
    pub fn depth(&self) -> (r: usize)
        ensures
            r == self.gates@.len(),
    {
        self.gates.len()
    }

    /// Number of gates of the given type.
    pub fn count_gates(&self, gate_type: &GateType) -> (r: usize)
        ensures
            r == gate_count(self.gates@, *gate_type),
    {
        let mut count: usize = 0;
        let mut i: usize = 0;
        while i < self.gates.len()
            invariant
                i <= self.gates.len(),
                count == gate_count(self.gates@.take(i as int), *gate_type),
                count <= i,
            decreases self.gates.len() - i,
        {
            assert(self.gates@.take(i + 1).drop_last() =~= self.gates@.take(i as int));
            if self.gates[i].gate_type.same_as(gate_type) {
                count += 1;
            }
            i += 1;
        }
        assert(self.gates@.take(i as int) =~= self.gates@);
        count
    }
}

/// No outcome occurs twice among the counts.
pub open spec fn outcomes_distinct(counts: Seq<(String, u64)>) -> bool {
    forall|i: int, j: int| 0 <= i < counts.len() && 0 <= j < counts.len() && i != j ==> counts[i].0@ != counts[j].0@
}

/// The count recorded for `outcome`, if any.
pub open spec fn count_lookup(counts: Seq<(String, u64)>, outcome: Seq<char>) -> Option<u64>
    decreases counts.len(),
{
    if counts.len() == 0 {
        None
    } else if counts.last().0@ == outcome {
        Some(counts.last().1)
    } else {
        count_lookup(counts.drop_last(), outcome)
    }
}

/// A recorded outcome is found with its count.
pub proof fn lemma_lookup_found(counts: Seq<(String, u64)>, i: int)
    requires
        outcomes_distinct(counts),
        0 <= i < counts.len(),
    ensures
        count_lookup(counts, counts[i].0@) == Some(counts[i].1),
    decreases counts.len(),
{
    if i < counts.len() - 1 {
        let rest = counts.drop_last();
        assert(rest[i] == counts[i]);
        assert(outcomes_distinct(rest));
        lemma_lookup_found(rest, i);
    }
}

proof fn lemma_lookup_absent(counts: Seq<(String, u64)>, outcome: Seq<char>)
    requires
        forall|i: int| 0 <= i < counts.len() ==> #[trigger] counts[i].0@ != outcome,
    ensures
        count_lookup(counts, outcome) is None,
    decreases counts.len(),
{
    if counts.len() > 0 {
        let rest = counts.drop_last();
        assert forall|i: int| 0 <= i < rest.len() implies #[trigger] rest[i].0@ != outcome by {
            assert(rest[i] == counts[i]);
        }
        lemma_lookup_absent(rest, outcome);
    }
}

/// Where `outcome` is recorded in `counts`, if anywhere.
fn find_outcome(counts: &Vec<(String, u64)>, outcome: &String) -> (r: Option<usize>)
    requires
        outcomes_distinct(counts@),
    ensures
        r matches Some(i) ==> i < counts.len() && counts@[i as int].0@ == outcome@,
        r is None ==> forall|i: int| 0 <= i < counts.len() ==> #[trigger] counts@[i].0@ != outcome@,
        count_lookup(counts@, outcome@) == match r {
            Some(i) => Some(counts@[i as int].1),
            None => None,
        },
{
    let mut i: usize = 0;
    while i < counts.len()
        invariant
            i <= counts.len(),
            outcomes_distinct(counts@),
            forall|j: int| 0 <= j < i ==> #[trigger] counts@[j].0@ != outcome@,
        decreases counts.len() - i,
    {
        if counts[i].0 == *outcome {
            proof {
                lemma_lookup_found(counts@, i as int);
            }
            return Some(i);
        }
        i += 1;
    }
    proof {
        lemma_lookup_absent(counts@, outcome@);
    }
    None
}

/// Records `value` for `outcome`, replacing an earlier count for it.
pub fn insert_count(counts: &mut Vec<(String, u64)>, outcome: String, value: u64)
    requires
        outcomes_distinct(old(counts)@),
    ensures
        outcomes_distinct(final(counts)@),
        count_total(final(counts)@) + match count_lookup(old(counts)@, outcome@) {
            Some(c) => c as nat,
            None => 0nat,
        } == count_total(old(counts)@) + value,
        count_lookup(final(counts)@, outcome@) == Some(value),
        forall|o: Seq<char>| o != outcome@ ==> #[trigger] count_lookup(final(counts)@, o) == count_lookup(old(counts)@, o),
        forall|i: int| 0 <= i < final(counts)@.len() ==> (#[trigger] final(counts)@[i].0@ == outcome@ || exists|j: int| 0 <= j < old(counts)@.len() && old(counts)@[j] == final(counts)@[i]),
{
    match find_outcome(counts, &outcome) {
        Some(i) => {
            let ghost before = counts@;
            counts.set(i, (outcome, value));
            proof {
                lemma_count_total_update(before, i as int, counts@[i as int]);
                assert(counts@ == before.update(i as int, counts@[i as int]));
                assert forall|a: int, b: int| 0 <= a < counts@.len() && 0 <= b < counts@.len() && a != b implies counts@[a].0@ != counts@[b].0@ by {
                    if a != i {
                        assert(counts@[a] == before[a]);
                    }
                    if b != i {
                        assert(counts@[b] == before[b]);
                    }
                }
                assert(outcomes_distinct(counts@));
                lemma_lookup_found(counts@, i as int);
                assert forall|o: Seq<char>| o != outcome@ implies #[trigger] count_lookup(counts@, o) == count_lookup(before, o) by {
                    if exists|j: int| 0 <= j < before.len() && before[j].0@ == o {
                        let j = choose|j: int| 0 <= j < before.len() && before[j].0@ == o;
                        lemma_lookup_found(before, j);
                        assert(counts@[j] == before[j]);
                        lemma_lookup_found(counts@, j);
                    } else {
                        lemma_lookup_absent(before, o);
                        assert forall|k: int| 0 <= k < counts@.len() implies #[trigger] counts@[k].0@ != o by {
                            if k != i {
                                assert(counts@[k] == before[k]);
                            }
                        }
                        lemma_lookup_absent(counts@, o);
                    }
                }
                assert forall|k: int| 0 <= k < counts@.len() implies (#[trigger] counts@[k].0@ == outcome@ || exists|j: int| 0 <= j < before.len() && before[j] == counts@[k]) by {
                    if k != i {
                        assert(before[k] == counts@[k]);
                    }
                }
            }
        },
        None => {
            let ghost before = counts@;
            counts.push((outcome, value));
            proof {
                assert(counts@.drop_last() =~= before);
                lemma_lookup_absent(before, outcome@);
                assert(outcomes_distinct(counts@));
                lemma_lookup_found(counts@, before.len() as int);
                assert forall|o: Seq<char>| o != outcome@ implies #[trigger] count_lookup(counts@, o) == count_lookup(before, o) by {
                    assert(counts@.drop_last() =~= before);
                }
                assert forall|k: int| 0 <= k < counts@.len() implies (#[trigger] counts@[k].0@ == outcome@ || exists|j: int| 0 <= j < before.len() && before[j] == counts@[k]) by {
                    if k < before.len() {
                        assert(before[k] == counts@[k]);
                    }
                }
            }
        },
    }
}

/// The sum of the counts.
pub open spec fn count_total(counts: Seq<(String, u64)>) -> nat
    decreases counts.len(),
{
    if counts.len() == 0 {
        0
    } else {
        count_total(counts.drop_last()) + counts.last().1 as nat
    }
}

proof fn lemma_count_total_update(s: Seq<(String, u64)>, i: int, e: (String, u64))
    requires
        0 <= i < s.len(),
    ensures
        count_total(s.update(i, e)) + s[i].1 == count_total(s) + e.1,
    decreases s.len(),
{
    let t = s.update(i, e);
    if i == s.len() - 1 {
        assert(t.drop_last() =~= s.drop_last());
    } else {
        assert(t.drop_last() =~= s.drop_last().update(i, e));
        lemma_count_total_update(s.drop_last(), i, e);
    }
}

/// Adds one to the count of `outcome` (starting from zero).
pub fn increment_count(counts: &mut Vec<(String, u64)>, outcome: String)
    requires
        outcomes_distinct(old(counts)@),
        forall|i: int| 0 <= i < old(counts)@.len() ==> #[trigger] old(counts)@[i].1 < u64::MAX,
    ensures
        outcomes_distinct(final(counts)@),
        count_lookup(final(counts)@, outcome@) == Some(
            (match count_lookup(old(counts)@, outcome@) {
                Some(c) => c + 1,
                None => 1,
            }) as u64,
        ),
        forall|o: Seq<char>| o != outcome@ ==> #[trigger] count_lookup(final(counts)@, o) == count_lookup(old(counts)@, o),
        forall|i: int| 0 <= i < final(counts)@.len() ==> (#[trigger] final(counts)@[i].0@ == outcome@ || exists|j: int| 0 <= j < old(counts)@.len() && old(counts)@[j] == final(counts)@[i]),
        count_total(final(counts)@) == count_total(old(counts)@) + 1,
{
    let current = match find_outcome(counts, &outcome) {
        Some(i) => counts[i].1,
        None => 0,
    };
    insert_count(counts, outcome, current + 1);
}

/// Result of measuring a quantum circuit.
#[derive(Debug, Clone)]
pub struct MeasurementResult {
    /// Measurement outcomes (bitstrings such as "01") and their counts, each
    /// outcome at most once.
    pub counts: Vec<(String, u64)>,
    /// Total number of shots.
    pub shots: u32,
    /// Execution time in whole milliseconds, when measured.
    pub execution_time_ms: Option<u64>,
    /// Backend that executed the circuit.
    pub backend_name: String,
}

/// The character of bit `qubit` of `outcome`, counting from the right; `'0'`
/// past the left end.
pub open spec fn outcome_bit(outcome: Seq<char>, qubit: nat) -> char {
    if qubit < outcome.len() {
        outcome[outcome.len() - 1 - qubit]
    } else {
        '0'
    }
}

impl MeasurementResult {
    /// A result with the given counts, no execution time, from the given backend.
    pub fn new(counts: Vec<(String, u64)>, shots: u32, backend_name: String) -> (r: Self)
        requires
            outcomes_distinct(counts@),
        ensures
            r.counts@ == counts@,
            r.shots == shots,
            r.execution_time_ms is None,
            r.backend_name@ == backend_name@,
    {
        Self { counts, shots, execution_time_ms: None, backend_name }
    }

    /// The count recorded for `outcome` (zero when absent). The probability
    /// of the outcome is this count divided by the number of shots.
    pub fn count_of(&self, outcome: &str) -> (r: u64)
        requires
            outcomes_distinct(self.counts@),
        ensures
            r == match count_lookup(self.counts@, outcome@) {
                Some(c) => c,
                None => 0,
            },
    {
        let key = outcome.to_owned();
        match find_outcome(&self.counts, &key) {
            Some(i) => self.counts[i].1,
            None => 0,
        }
    }

    /// An outcome with the largest count, with that count; `None` when there
    /// are no outcomes.
    pub fn most_likely_outcome(&self) -> (r: Option<(String, u64)>)
        ensures
            r is None <==> self.counts@.len() == 0,
            r matches Some((outcome, count)) ==> {
                &&& exists|i: int|
                    0 <= i < self.counts@.len() && self.counts@[i].0@ == outcome@ && self.counts@[i].1 == count
                        && forall|j: int| 0 <= j < i ==> #[trigger] self.counts@[j].1 < count
                &&& forall|i: int| 0 <= i < self.counts@.len() ==> #[trigger] self.counts@[i].1 <= count
            },
    {
        if self.counts.len() == 0 {
            return None;
        }
        let mut best: usize = 0;
        let mut i: usize = 1;
        while i < self.counts.len()
            invariant
                1 <= i <= self.counts.len(),
                best < i,
                forall|j: int| 0 <= j < i ==> #[trigger] self.counts@[j].1 <= self.counts@[best as int].1,
                forall|j: int| 0 <= j < best ==> #[trigger] self.counts@[j].1 < self.counts@[best as int].1,
            decreases self.counts.len() - i,
        {
            if self.counts[i].1 > self.counts[best].1 {
                best = i;
            }
            i += 1;
        }
        Some((self.counts[best].0.clone(), self.counts[best].1))
    }

    /// Whether bit `qubit` of `outcome` (counted from the right) is `1`.
    /// An outcome contributes `-1` to the Z expectation of that qubit when it
    /// is, and `+1` otherwise.
    pub fn qubit_is_one(outcome: &str, qubit: usize) -> (r: bool)
        ensures
            r == (outcome_bit(outcome@, qubit as nat) == '1'),
    {
        let len = outcome.unicode_len();
        if qubit < len {
            outcome.get_char(len - 1 - qubit) == '1'
        } else {
            false
        }
    }
}

} // verus!
