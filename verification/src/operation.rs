//! The values the translation reads of each operation of a circuit.
use vstd::prelude::*;
use crate::error::BackendError;

verus! {

/// An operation of a nested circuit (the body of a gate definition, of a
/// conditional pragma or of a loop pragma): its hqslang name and its
/// rendered QASM gate definition.
pub struct InnerOperation {
    /// The hqslang name of the operation.
    pub hqslang: String,
    /// The QASM gate definition of the operation, or the error its rendering gave.
    pub definition: Result<String, BackendError>,
}

/// What kind of operation an operation is, as far as the translation cares.
pub enum OperationKind {
    /// Any operation without a nested circuit.
    Gate,
    /// A gate definition: the name of the defined gate and its body.
    GateDefinition {
        /// The name of the defined gate.
        name: String,
        /// The operations of the definition's body.
        circuit: Vec<InnerOperation>,
    },
    /// A conditional pragma with the circuit it guards.
    PragmaConditional {
        /// The operations of the guarded circuit.
        circuit: Vec<InnerOperation>,
    },
    /// A loop pragma with the circuit it repeats.
    PragmaLoop {
        /// The operations of the repeated circuit.
        circuit: Vec<InnerOperation>,
    },
}

/// One operation of a circuit, as the QASM translation reads it.
pub struct QasmOperation {
    /// The hqslang name of the operation.
    pub hqslang: String,
    /// The qubits the operation acts on, when it names a set of them;
    /// `None` for operations that act on all qubits or on none.
    pub involved_qubits: Option<Vec<usize>>,
    /// The kind of the operation, with its nested circuit where it has one.
    pub kind: OperationKind,
    /// The QASM gate definition of the operation, or the error its rendering gave.
    pub definition: Result<String, BackendError>,
    /// Whether a line break follows the definition: true unless the operation
    /// is one of those that need no gate definition.
    pub definition_line_break: bool,
    /// The QASM instruction that applies the operation, or the error its rendering gave.
    pub instruction: Result<String, BackendError>,
    /// Whether a line break follows the instruction: false for the operations
    /// that the backend accepts without writing an instruction line.
    pub instruction_line_break: bool,
    /// The symbolic parameters the instruction declares as inputs.
    pub variables: Vec<String>,
}

/// The QASM definitions of the gates every translation defines up front:
/// `rx`, `ry`, `rz` and `cx`.
pub struct StandardDefinitions {
    /// The definition of the X rotation.
    pub rotate_x: Result<String, BackendError>,
    /// The definition of the Y rotation.
    pub rotate_y: Result<String, BackendError>,
    /// The definition of the Z rotation.
    pub rotate_z: Result<String, BackendError>,
    /// The definition of the controlled NOT.
    pub cnot: Result<String, BackendError>,
}

/// The characters of each string of a sequence.
pub open spec fn string_views(v: Seq<String>) -> Seq<Seq<char>> {
    v.map_values(|s: String| s@)
}

/// The nested circuit of an operation; empty for plain gates.
pub open spec fn nested_circuit(kind: OperationKind) -> Seq<InnerOperation> {
    match kind {
        OperationKind::Gate => Seq::empty(),
        OperationKind::GateDefinition { circuit, .. } => circuit@,
        OperationKind::PragmaConditional { circuit } => circuit@,
        OperationKind::PragmaLoop { circuit } => circuit@,
    }
}

/// The largest qubit index of a sequence, 0 for an empty one.
pub open spec fn qubit_max(q: Seq<usize>) -> nat
    decreases q.len(),
{
    if q.len() == 0 {
        0
    } else {
        let m = qubit_max(q.drop_last());
        if q.last() > m {
            q.last() as nat
        } else {
            m
        }
    }
}

/// Whether every qubit index an operation names is below `usize::MAX`.
pub open spec fn qubits_in_range(op: QasmOperation) -> bool {
    op.involved_qubits matches Some(q) ==> forall|j: int| 0 <= j < q@.len() ==> q@[j] < usize::MAX
}

/// The largest qubit index is one of the indices, or 0 for an empty sequence.
pub proof fn lemma_qubit_max_bound(q: Seq<usize>, bound: nat)
    requires
        forall|j: int| 0 <= j < q.len() ==> q[j] < bound,
        bound > 0,
    ensures
        qubit_max(q) < bound,
        forall|j: int| 0 <= j < q.len() ==> q[j] <= qubit_max(q),
    decreases q.len(),
{
    if q.len() > 0 {
        lemma_qubit_max_bound(q.drop_last(), bound);
        assert forall|j: int| 0 <= j < q.len() implies q[j] <= qubit_max(q) by {
            if j < q.len() - 1 {
                assert(q[j] == q.drop_last()[j]);
            }
        }
    }
}

/// Returns the largest qubit index in `q`, 0 when `q` is empty.
pub fn largest_qubit(q: &Vec<usize>) -> (r: usize)
    ensures
        r == qubit_max(q@),
{
    let mut m: usize = 0;
    let mut i: usize = 0;
    while i < q.len()
        invariant
            i <= q@.len(),
            m == qubit_max(q@.take(i as int)),
        decreases q@.len() - i,
    {
        assert(q@.take(i + 1).drop_last() =~= q@.take(i as int));
        if q[i] > m {
            m = q[i];
        }
        i = i + 1;
    }
    assert(q@.take(q@.len() as int) =~= q@);
    m
}

} // verus!
