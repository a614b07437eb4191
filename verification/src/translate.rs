//! The translation of a circuit to QASM text: its specification as a
//! left-to-right fold over the operations, and the code that computes it.
use vstd::prelude::*;
use crate::error::BackendError;
use crate::operation::{
    lemma_qubit_max_bound, largest_qubit, qubits_in_range, nested_circuit, qubit_max, string_views, InnerOperation, OperationKind, QasmOperation,
    StandardDefinitions,
};
use crate::text::{contains_name, decimal, push_decimal};
use crate::version::{Qasm2Dialect, Qasm3Dialect, QasmVersion};

verus! {

/// What the translation has gathered after a prefix of the circuit.
pub struct TranslationState {
    /// Names of the gates defined so far (or defined up front).
    pub seen: Seq<Seq<char>>,
    /// The definitions of gates written so far.
    pub definitions: Seq<char>,
    /// The instructions written so far.
    pub data: Seq<char>,
    /// The largest qubit index named so far.
    pub max_qubit: nat,
    /// The symbolic input parameters declared so far, each once.
    pub variables: Seq<Seq<char>>,
}

/// `text` followed by a line break when `text` is not empty and `line_break` holds.
pub open spec fn with_line_break(text: Seq<char>, line_break: bool) -> Seq<char> {
    if text.len() > 0 && line_break {
        text + "\n"@
    } else {
        text
    }
}

/// One operation of a nested circuit: an operation whose name was not seen
/// adds its name and its definition, followed by a line break.
pub open spec fn inner_step(
    seen: Seq<Seq<char>>,
    definitions: Seq<char>,
    op: InnerOperation,
) -> Result<(Seq<Seq<char>>, Seq<char>), BackendError> {
    if seen.contains(op.hqslang@) {
        Ok((seen, definitions))
    } else {
        match op.definition {
            Err(e) => Err(e),
            Ok(d) => Ok((seen.push(op.hqslang@), with_line_break(definitions + d@, true))),
        }
    }
}

/// The definitions of a nested circuit, operation by operation; the first error stops it.
pub open spec fn process_inner(
    seen: Seq<Seq<char>>,
    definitions: Seq<char>,
    ops: Seq<InnerOperation>,
) -> Result<(Seq<Seq<char>>, Seq<char>), BackendError>
    decreases ops.len(),
{
    if ops.len() == 0 {
        Ok((seen, definitions))
    } else {
        match process_inner(seen, definitions, ops.drop_last()) {
            Ok((s, d)) => inner_step(s, d, ops.last()),
            Err(e) => Err(e),
        }
    }
}

/// The names an operation marks as seen before its definition is written,
/// and whether its definition is to be written at all.
pub open spec fn mark_seen(seen: Seq<Seq<char>>, op: QasmOperation) -> (bool, Seq<Seq<char>>) {
    match op.kind {
        OperationKind::GateDefinition { name, .. } => if seen.contains(name@) {
            (false, seen)
        } else {
            (true, seen.push(name@))
        },
        _ => (true, seen.push(op.hqslang@)),
    }
}

/// The definitions of gates an operation of the circuit adds: none when its name
/// (or, for a gate definition, the defined name) was seen before; otherwise the
/// definitions of its nested circuit, then its own.
pub open spec fn definition_step(
    seen: Seq<Seq<char>>,
    definitions: Seq<char>,
    op: QasmOperation,
) -> Result<(Seq<Seq<char>>, Seq<char>), BackendError> {
    if seen.contains(op.hqslang@) {
        Ok((seen, definitions))
    } else {
        let (fresh, seen1) = mark_seen(seen, op);
        if !fresh {
            Ok((seen1, definitions))
        } else {
            match process_inner(seen1, definitions, nested_circuit(op.kind)) {
                Err(e) => Err(e),
                Ok((seen2, defs2)) => match op.definition {
                    Err(e) => Err(e),
                    Ok(d) => Ok((seen2, with_line_break(defs2 + d@, op.definition_line_break))),
                },
            }
        }
    }
}

/// The symbolic parameters `vars` followed by those of `new` that it does not hold yet.
pub open spec fn gather(vars: Seq<Seq<char>>, new: Seq<Seq<char>>) -> Seq<Seq<char>>
    decreases new.len(),
{
    if new.len() == 0 {
        vars
    } else {
        let g = gather(vars, new.drop_last());
        if g.contains(new.last()) {
            g
        } else {
            g.push(new.last())
        }
    }
}

/// The largest qubit index after an operation.
pub open spec fn next_max_qubit(max_qubit: nat, op: QasmOperation) -> nat {
    match op.involved_qubits {
        Some(q) => if qubit_max(q@) > max_qubit {
            qubit_max(q@)
        } else {
            max_qubit
        },
        None => max_qubit,
    }
}

/// One operation of the circuit: its definitions, then its instruction.
pub open spec fn op_step(st: TranslationState, op: QasmOperation) -> Result<TranslationState, BackendError> {
    match definition_step(st.seen, st.definitions, op) {
        Err(e) => Err(e),
        Ok((seen, definitions)) => match op.instruction {
            Err(e) => Err(e),
            Ok(i) => Ok(
                TranslationState {
                    seen,
                    definitions,
                    data: with_line_break(st.data + i@, op.instruction_line_break),
                    max_qubit: next_max_qubit(st.max_qubit, op),
                    variables: gather(st.variables, string_views(op.variables@)),
                },
            ),
        },
    }
}

/// The operations of the circuit, one after the other; the first error stops it.
pub open spec fn translate_ops(st: TranslationState, ops: Seq<QasmOperation>) -> Result<TranslationState, BackendError>
    decreases ops.len(),
{
    if ops.len() == 0 {
        Ok(st)
    } else {
        match translate_ops(st, ops.drop_last()) {
            Ok(s) => op_step(s, ops.last()),
            Err(e) => Err(e),
        }
    }
}

/// The names of the gates defined up front.
pub open spec fn standard_names() -> Seq<Seq<char>> {
    seq!["RotateX"@, "RotateY"@, "RotateZ"@, "CNOT"@]
}

/// The definitions every translation starts with: `u3`, `u2`, `u1`, then the
/// standard rotations and the controlled NOT.
pub open spec fn initial_definitions(standard: StandardDefinitions) -> Result<Seq<char>, BackendError> {
    match standard.rotate_x {
        Err(e) => Err(e),
        Ok(rx) => match standard.rotate_y {
            Err(e) => Err(e),
            Ok(ry) => match standard.rotate_z {
                Err(e) => Err(e),
                Ok(rz) => match standard.cnot {
                    Err(e) => Err(e),
                    Ok(cx) => Ok(
                        "gate u3(theta,phi,lambda) q { U(theta,phi,lambda) q; }\n"@
                            + "gate u2(phi,lambda) q { U(pi/2,phi,lambda) q; }\n"@
                            + "gate u1(lambda) q { U(0,0,lambda) q; }\n"@ + rx@ + "\n"@ + ry@ + "\n"@
                            + rz@ + "\n"@ + cx@ + "\n\n"@,
                    ),
                },
            },
        },
    }
}

/// The state before the first operation.
pub open spec fn initial_state(definitions: Seq<char>) -> TranslationState {
    TranslationState {
        seen: standard_names(),
        definitions,
        data: Seq::empty(),
        max_qubit: 0,
        variables: Seq::empty(),
    }
}

/// The first line of the output.
pub open spec fn version_line(v: QasmVersion) -> Seq<char> {
    "OPENQASM "@ + match v {
        QasmVersion::V2point0(_) => "2.0;\n\n"@,
        QasmVersion::V3point0(_) => "3.0;\n\n"@,
    }
}

/// The definitions part of the output: nothing for Braket, the standard
/// include for Qulacs, the gathered definitions otherwise.
pub open spec fn definitions_section(v: QasmVersion, definitions: Seq<char>) -> Seq<char> {
    match v {
        QasmVersion::V3point0(Qasm3Dialect::Braket) => Seq::empty(),
        QasmVersion::V2point0(Qasm2Dialect::Qulacs) => "include \"qelib1.inc\";\n\n"@,
        _ => definitions,
    }
}

/// One input declaration line per symbolic parameter.
pub open spec fn input_lines(vars: Seq<Seq<char>>) -> Seq<char>
    decreases vars.len(),
{
    if vars.len() == 0 {
        Seq::empty()
    } else {
        input_lines(vars.drop_last()) + "input angle[32] "@ + vars.last() + ";\n"@
    }
}

/// The input declarations: only in OpenQASM 3.0, and only when there are parameters.
pub open spec fn variables_section(v: QasmVersion, vars: Seq<Seq<char>>) -> Seq<char> {
    if v is V3point0 && vars.len() > 0 {
        "\n"@ + input_lines(vars) + "\n"@
    } else {
        Seq::empty()
    }
}

/// The declaration of the qubit register of `n` qubits named `name`.
pub open spec fn register_section(v: QasmVersion, name: Seq<char>, n: nat) -> Seq<char> {
    match v {
        QasmVersion::V2point0(_) => "\nqreg "@ + name + "["@ + decimal(n) + "];\n\n"@,
        QasmVersion::V3point0(_) => "\nqubit["@ + decimal(n) + "] "@ + name + ";\n\n"@,
    }
}

/// The output for the final state of a translation.
pub open spec fn assemble(v: QasmVersion, name: Seq<char>, st: TranslationState) -> Seq<char> {
    version_line(v) + definitions_section(v, st.definitions) + variables_section(v, st.variables)
        + register_section(v, name, st.max_qubit + 1) + st.data
}

/// The QASM text of a circuit for the given version and register name, or the
/// first error among the rendered definitions and instructions it reads.
pub open spec fn spec_translate(
    v: QasmVersion,
    name: Seq<char>,
    standard: StandardDefinitions,
    ops: Seq<QasmOperation>,
) -> Result<Seq<char>, BackendError> {
    match initial_definitions(standard) {
        Err(e) => Err(e),
        Ok(d) => match translate_ops(initial_state(d), ops) {
            Err(e) => Err(e),
            Ok(st) => Ok(assemble(v, name, st)),
        },
    }
}

/// Once the definitions of a prefix of a nested circuit fail, so do those of the whole circuit.
pub proof fn lemma_process_inner_error_persists(
    seen: Seq<Seq<char>>,
    definitions: Seq<char>,
    ops: Seq<InnerOperation>,
    k: int,
)
    requires
        0 <= k <= ops.len(),
        process_inner(seen, definitions, ops.take(k)) is Err,
    ensures
        process_inner(seen, definitions, ops) == process_inner(seen, definitions, ops.take(k)),
    decreases ops.len() - k,
{
    if k < ops.len() {
        let next = ops.take(k + 1);
        assert(next.drop_last() =~= ops.take(k));
        lemma_process_inner_error_persists(seen, definitions, ops, k + 1);
    } else {
        assert(ops.take(k) =~= ops);
    }
}

/// Once the translation of a prefix of the circuit fails, so does that of the whole circuit.
pub proof fn lemma_translate_error_persists(st: TranslationState, ops: Seq<QasmOperation>, k: int)
    requires
        0 <= k <= ops.len(),
        translate_ops(st, ops.take(k)) is Err,
    ensures
        translate_ops(st, ops) == translate_ops(st, ops.take(k)),
    decreases ops.len() - k,
{
    if k < ops.len() {
        let next = ops.take(k + 1);
        assert(next.drop_last() =~= ops.take(k));
        lemma_translate_error_persists(st, ops, k + 1);
    } else {
        assert(ops.take(k) =~= ops);
    }
}

/// The state a pass over a nested circuit leaves when the operation at `k` is
/// the first whose definition fails: the operations before it were processed,
/// its name was not seen and is now marked as seen, and no definition of it or
/// of a later operation was written.
pub open spec fn inner_failure_at(
    seen: Seq<Seq<char>>,
    definitions: Seq<char>,
    ops: Seq<InnerOperation>,
    k: int,
    seen_after: Seq<Seq<char>>,
    definitions_after: Seq<char>,
) -> bool {
    &&& 0 <= k < ops.len()
    &&& process_inner(seen, definitions, ops.take(k)) matches Ok((s, d)) && !s.contains(ops[k].hqslang@)
        && ops[k].definition is Err && seen_after == s.push(ops[k].hqslang@) && definitions_after == d
}

/// Adds the definitions of the operations of a nested circuit whose names
/// were not seen yet, and marks those names as seen. An operation's name is
/// marked before its definition is read; the first definition that fails
/// stops the pass with its error.
pub fn process_operation_circuit(
    circuit: &Vec<InnerOperation>,
    already_seen_declarations: &mut Vec<String>,
    declarations: &mut String,
) -> (r: Result<(), BackendError>)
    ensures
        match process_inner(string_views(old(already_seen_declarations)@), old(declarations)@, circuit@) {
            Ok((s, d)) => r is Ok && string_views(final(already_seen_declarations)@) == s
                && final(declarations)@ == d,
            Err(e) => r == Err::<(), BackendError>(e) && exists|k: int|
                inner_failure_at(
                    string_views(old(already_seen_declarations)@),
                    old(declarations)@,
                    circuit@,
                    k,
                    string_views(final(already_seen_declarations)@),
                    final(declarations)@,
                ),
        },
        string_views(old(already_seen_declarations)@).is_prefix_of(string_views(final(already_seen_declarations)@)),
        old(declarations)@.is_prefix_of(final(declarations)@),
        string_views(old(already_seen_declarations)@).no_duplicates() ==> string_views(
            final(already_seen_declarations)@,
        ).no_duplicates(),
{
    let ghost seen0 = string_views(already_seen_declarations@);
    let ghost defs0 = declarations@;
    let mut i: usize = 0;
    while i < circuit.len()
        invariant
            i <= circuit@.len(),
            seen0 == string_views(old(already_seen_declarations)@),
            defs0 == old(declarations)@,
            process_inner(seen0, defs0, circuit@.take(i as int)) == Ok::<(Seq<Seq<char>>, Seq<char>), BackendError>(
                (string_views(already_seen_declarations@), declarations@),
            ),
        decreases circuit@.len() - i,
    {
        let op = &circuit[i];
        assert(circuit@.take(i + 1).drop_last() =~= circuit@.take(i as int));
        assert(circuit@.take(i + 1).last() == circuit@[i as int]);
        proof {
            crate::laws::lemma_process_inner_extends(seen0, defs0, circuit@.take(i as int));
        }
        if !contains_name(already_seen_declarations, op.hqslang.as_str()) {
            let ghost prev = already_seen_declarations@;
            already_seen_declarations.push(op.hqslang.clone());
            assert(string_views(already_seen_declarations@) =~= string_views(prev).push(op.hqslang@));
            match &op.definition {
                Ok(d) => {
                    declarations.append(d.as_str());
                    if !declarations.as_str().is_empty() {
                        declarations.append("\n");
                    }
                },
                Err(e) => {
                    proof {
                        lemma_process_inner_error_persists(seen0, defs0, circuit@, i + 1);
                        assert(inner_failure_at(
                            seen0,
                            defs0,
                            circuit@,
                            i as int,
                            string_views(already_seen_declarations@),
                            declarations@,
                        ));
                        assert(seen0.is_prefix_of(string_views(already_seen_declarations@))) by {
                            assert forall|k: int| 0 <= k < seen0.len() implies seen0[k] == string_views(
                                already_seen_declarations@,
                            )[k] by {
                                assert(seen0[k] == string_views(prev)[k]);
                            }
                        }
                    }
                    return Err(e.duplicate());
                },
            }
        }
        i = i + 1;
    }
    assert(circuit@.take(circuit@.len() as int) =~= circuit@);
    proof {
        crate::laws::lemma_process_inner_extends(seen0, defs0, circuit@);
    }
    Ok(())
}

/// Appends to `vars` each string of `new` that it does not hold yet, in order.
pub fn gather_variables(vars: &mut Vec<String>, new: &Vec<String>)
    ensures
        string_views(final(vars)@) == gather(string_views(old(vars)@), string_views(new@)),
{
    let ghost vars0 = string_views(vars@);
    let ghost new_views = string_views(new@);
    let mut i: usize = 0;
    while i < new.len()
        invariant
            i <= new@.len(),
            vars0 == string_views(old(vars)@),
            new_views == string_views(new@),
            string_views(vars@) == gather(vars0, new_views.take(i as int)),
        decreases new@.len() - i,
    {
        assert(new_views.take(i + 1).drop_last() =~= new_views.take(i as int));
        assert(new_views.take(i + 1).last() == new@[i as int]@);
        if !contains_name(vars, new[i].as_str()) {
            let ghost prev = vars@;
            vars.push(new[i].clone());
            assert(string_views(vars@) =~= string_views(prev).push(new@[i as int]@));
        }
        i = i + 1;
    }
    assert(new_views.take(new@.len() as int) =~= new_views);
}

/// The working state of a translation.
struct Translation {
    seen: Vec<String>,
    definitions: String,
    data: String,
    max_qubit: usize,
    variables: Vec<String>,
}

impl Translation {
    spec fn state(&self) -> TranslationState {
        TranslationState {
            seen: string_views(self.seen@),
            definitions: self.definitions@,
            data: self.data@,
            max_qubit: self.max_qubit as nat,
            variables: string_views(self.variables@),
        }
    }

    /// Translates one operation of the circuit.
    fn translate_operation(&mut self, op: &QasmOperation) -> (r: Result<(), BackendError>)
        requires
            qubits_in_range(*op),
            old(self).max_qubit < usize::MAX,
        ensures
            match op_step(old(self).state(), *op) {
                Ok(st) => r is Ok && final(self).state() == st && final(self).max_qubit < usize::MAX,
                Err(e) => r == Err::<(), BackendError>(e),
            },
    {
        let ghost st0 = self.state();
        let new_max = match &op.involved_qubits {
            Some(q) => {
                let m = largest_qubit(q);
                proof {
                    lemma_qubit_max_bound(q@, usize::MAX as nat);
                }
                if m > self.max_qubit {
                    m
                } else {
                    self.max_qubit
                }
            },
            None => self.max_qubit,
        };
        if !contains_name(&self.seen, op.hqslang.as_str()) {
            let mut fresh = false;
            match &op.kind {
                OperationKind::GateDefinition { name, .. } => {
                    if !contains_name(&self.seen, name.as_str()) {
                        let ghost prev = self.seen@;
                        self.seen.push(name.clone());
                        assert(string_views(self.seen@) =~= string_views(prev).push(name@));
                        fresh = true;
                    }
                },
                _ => {
                    let ghost prev = self.seen@;
                    self.seen.push(op.hqslang.clone());
                    assert(string_views(self.seen@) =~= string_views(prev).push(op.hqslang@));
                    fresh = true;
                },
            }
            assert(mark_seen(st0.seen, *op) == (fresh, string_views(self.seen@)));
            if fresh {
                let nested = match &op.kind {
                    OperationKind::GateDefinition { circuit, .. } => process_operation_circuit(
                        circuit,
                        &mut self.seen,
                        &mut self.definitions,
                    ),
                    OperationKind::PragmaConditional { circuit } => process_operation_circuit(
                        circuit,
                        &mut self.seen,
                        &mut self.definitions,
                    ),
                    OperationKind::PragmaLoop { circuit } => process_operation_circuit(
                        circuit,
                        &mut self.seen,
                        &mut self.definitions,
                    ),
                    OperationKind::Gate => Ok(()),
                };
                match nested {
                    Ok(()) => {},
                    Err(e) => {
                        return Err(e);
                    },
                }
                match &op.definition {
                    Ok(d) => {
                        self.definitions.append(d.as_str());
                        if !self.definitions.as_str().is_empty() && op.definition_line_break {
                            self.definitions.append("\n");
                        }
                    },
                    Err(e) => {
                        return Err(e.duplicate());
                    },
                }
            }
        }
        assert(definition_step(st0.seen, st0.definitions, *op) == Ok::<(Seq<Seq<char>>, Seq<char>), BackendError>(
            (string_views(self.seen@), self.definitions@),
        ));
        match &op.instruction {
            Ok(i) => {
                self.data.append(i.as_str());
                if !self.data.as_str().is_empty() && op.instruction_line_break {
                    self.data.append("\n");
                }
            },
            Err(e) => {
                return Err(e.duplicate());
            },
        }
        gather_variables(&mut self.variables, &op.variables);
        self.max_qubit = new_max;
        Ok(())
    }
}

/// Writes the definitions every translation starts with.
fn initial_definitions_text(standard: &StandardDefinitions) -> (r: Result<String, BackendError>)
    ensures
        match initial_definitions(*standard) {
            Ok(d) => r matches Ok(t) && t@ == d,
            Err(e) => r == Err::<String, BackendError>(e),
        },
{
    let mut definitions = String::new();
    definitions.append("gate u3(theta,phi,lambda) q { U(theta,phi,lambda) q; }\n");
    definitions.append("gate u2(phi,lambda) q { U(pi/2,phi,lambda) q; }\n");
    definitions.append("gate u1(lambda) q { U(0,0,lambda) q; }\n");
    match &standard.rotate_x {
        Ok(d) => {
            definitions.append(d.as_str());
            definitions.append("\n");
        },
        Err(e) => {
            return Err(e.duplicate());
        },
    }
    match &standard.rotate_y {
        Ok(d) => {
            definitions.append(d.as_str());
            definitions.append("\n");
        },
        Err(e) => {
            return Err(e.duplicate());
        },
    }
    match &standard.rotate_z {
        Ok(d) => {
            definitions.append(d.as_str());
            definitions.append("\n");
        },
        Err(e) => {
            return Err(e.duplicate());
        },
    }
    match &standard.cnot {
        Ok(d) => {
            definitions.append(d.as_str());
            definitions.append("\n\n");
        },
        Err(e) => {
            return Err(e.duplicate());
        },
    }
    assert(definitions@ =~= initial_definitions(*standard).unwrap());
    Ok(definitions)
}

/// Appends one input declaration line per symbolic parameter.
fn push_input_lines(out: &mut String, vars: &Vec<String>)
    ensures
        final(out)@ == old(out)@ + input_lines(string_views(vars@)),
{
    let ghost views = string_views(vars@);
    let mut i: usize = 0;
    while i < vars.len()
        invariant
            i <= vars@.len(),
            views == string_views(vars@),
            out@ == old(out)@ + input_lines(views.take(i as int)),
        decreases vars@.len() - i,
    {
        assert(views.take(i + 1).drop_last() =~= views.take(i as int));
        assert(views.take(i + 1).last() == vars@[i as int]@);
        out.append("input angle[32] ");
        out.append(vars[i].as_str());
        out.append(";\n");
        assert(out@ =~= old(out)@ + input_lines(views.take(i + 1)));
        i = i + 1;
    }
    assert(views.take(vars@.len() as int) =~= views);
}

/// Writes the QASM text of a circuit: the version line, the definitions of gates
/// (or the standard include, or nothing, by dialect), the input declarations
/// in OpenQASM 3.0, the qubit register sized by the largest qubit index, and
/// the instructions in circuit order.
#[verifier::rlimit(40)]
pub fn translate_circuit(
    version: QasmVersion,
    register: &str,
    standard: &StandardDefinitions,
    circuit: &[QasmOperation],
) -> (r: Result<String, BackendError>)
    requires
        forall|i: int| 0 <= i < circuit@.len() ==> qubits_in_range(#[trigger] circuit@[i]),
    ensures
        match spec_translate(version, register@, *standard, circuit@) {
            Ok(s) => r matches Ok(t) && t@ == s,
            Err(e) => r == Err::<String, BackendError>(e),
        },
{
    let definitions = match initial_definitions_text(standard) {
        Ok(d) => d,
        Err(e) => {
            return Err(e);
        },
    };
    let ghost st0 = initial_state(definitions@);
    let mut tr = Translation {
        seen: vec!["RotateX".to_owned(), "RotateY".to_owned(), "RotateZ".to_owned(), "CNOT".to_owned()],
        definitions,
        data: String::new(),
        max_qubit: 0,
        variables: Vec::new(),
    };
    assert(string_views(tr.seen@) =~= standard_names());
    assert(string_views(tr.variables@) =~= Seq::<Seq<char>>::empty());
    assert(tr.data@ =~= Seq::<char>::empty());
    assert(tr.state() == st0);
    assert(circuit@.take(0) =~= Seq::<QasmOperation>::empty());
    let mut i: usize = 0;
    while i < circuit.len()
        invariant
            i <= circuit@.len(),
            forall|j: int| 0 <= j < circuit@.len() ==> qubits_in_range(#[trigger] circuit@[j]),
            tr.max_qubit < usize::MAX,
            initial_definitions(*standard) matches Ok(d) && st0 == initial_state(d),
            translate_ops(st0, circuit@.take(i as int)) == Ok::<TranslationState, BackendError>(tr.state()),
        decreases circuit@.len() - i,
    {
        assert(circuit@.take(i + 1).drop_last() =~= circuit@.take(i as int));
        assert(circuit@.take(i + 1).last() == circuit@[i as int]);
        match tr.translate_operation(&circuit[i]) {
            Ok(()) => {},
            Err(e) => {
                proof {
                    lemma_translate_error_persists(st0, circuit@, i + 1);
                }
                return Err(e);
            },
        }
        i = i + 1;
    }
    assert(circuit@.take(circuit@.len() as int) =~= circuit@);
    let ghost st = tr.state();
    let mut qasm = "OPENQASM ".to_owned();
    match version {
        QasmVersion::V2point0(_) => qasm.append("2.0;\n\n"),
        QasmVersion::V3point0(_) => qasm.append("3.0;\n\n"),
    }
    assert(qasm@ =~= version_line(version));
    match version {
        QasmVersion::V3point0(Qasm3Dialect::Braket) => {},
        QasmVersion::V2point0(Qasm2Dialect::Qulacs) => qasm.append("include \"qelib1.inc\";\n\n"),
        _ => qasm.append(tr.definitions.as_str()),
    }
    assert(qasm@ =~= version_line(version) + definitions_section(version, st.definitions));
    let ghost before_vars = qasm@;
    match version {
        QasmVersion::V3point0(_) => {
            if tr.variables.len() > 0 {
                qasm.append("\n");
                push_input_lines(&mut qasm, &tr.variables);
                qasm.append("\n");
            }
        },
        QasmVersion::V2point0(_) => {},
    }
    assert(qasm@ =~= before_vars + variables_section(version, st.variables));
    let ghost before_register = qasm@;
    match version {
        QasmVersion::V2point0(_) => {
            qasm.append("\nqreg ");
            qasm.append(register);
            qasm.append("[");
            push_decimal(&mut qasm, tr.max_qubit + 1);
            qasm.append("];\n\n");
        },
        QasmVersion::V3point0(_) => {
            qasm.append("\nqubit[");
            push_decimal(&mut qasm, tr.max_qubit + 1);
            qasm.append("] ");
            qasm.append(register);
            qasm.append(";\n\n");
        },
    }
    assert(qasm@ =~= before_register + register_section(version, register@, st.max_qubit + 1));
    qasm.append(tr.data.as_str());
    assert(qasm@ =~= assemble(version, register@, st));
    Ok(qasm)
}

} // verus!
