//! Properties of the translation that hold for every circuit.
use vstd::prelude::*;
use crate::error::BackendError;
use crate::operation::{nested_circuit, InnerOperation, QasmOperation, StandardDefinitions};
use crate::translate::{
    assemble, definition_step, gather, inner_step, initial_definitions, initial_state, mark_seen,
    next_max_qubit, op_step, process_inner, spec_translate, standard_names, translate_ops,
    version_line, with_line_break, TranslationState, definitions_section, variables_section,
    register_section, input_lines,
};
use crate::operation::{qubit_max, lemma_qubit_max_bound};
use crate::text::{decimal, numeral_value, lemma_decimal_is_numeral};
use crate::operation::string_views;

verus! {

/// Every operation of a nested circuit renders its definition.
pub open spec fn inner_renders_ok(ops: Seq<InnerOperation>) -> bool {
    forall|j: int| 0 <= j < ops.len() ==> (#[trigger] ops[j]).definition is Ok
}

/// An operation renders its definition, its instruction and the definitions of its nested circuit.
pub open spec fn operation_renders_ok(op: QasmOperation) -> bool {
    &&& op.definition is Ok
    &&& op.instruction is Ok
    &&& inner_renders_ok(nested_circuit(op.kind))
}

/// The standard definitions and every operation of the circuit render.
pub open spec fn renders_ok(standard: StandardDefinitions, ops: Seq<QasmOperation>) -> bool {
    &&& standard.rotate_x is Ok
    &&& standard.rotate_y is Ok
    &&& standard.rotate_z is Ok
    &&& standard.cnot is Ok
    &&& forall|i: int| 0 <= i < ops.len() ==> operation_renders_ok(#[trigger] ops[i])
}

/// `e` is an error that one of the rendered inputs holds.
pub open spec fn is_rendering_error(standard: StandardDefinitions, ops: Seq<QasmOperation>, e: BackendError) -> bool {
    ||| standard.rotate_x == Err::<String, BackendError>(e)
    ||| standard.rotate_y == Err::<String, BackendError>(e)
    ||| standard.rotate_z == Err::<String, BackendError>(e)
    ||| standard.cnot == Err::<String, BackendError>(e)
    ||| exists|i: int| 0 <= i < ops.len() && operation_holds_error(#[trigger] ops[i], e)
}

/// `e` is an error that an operation, or an operation of its nested circuit, holds.
pub open spec fn operation_holds_error(op: QasmOperation, e: BackendError) -> bool {
    ||| op.definition == Err::<String, BackendError>(e)
    ||| op.instruction == Err::<String, BackendError>(e)
    ||| exists|j: int| 0 <= j < nested_circuit(op.kind).len()
        && (#[trigger] nested_circuit(op.kind)[j]).definition == Err::<String, BackendError>(e)
}

proof fn lemma_process_inner_ok(seen: Seq<Seq<char>>, definitions: Seq<char>, ops: Seq<InnerOperation>)
    requires
        inner_renders_ok(ops),
    ensures
        process_inner(seen, definitions, ops) is Ok,
    decreases ops.len(),
{
    if ops.len() > 0 {
        assert(inner_renders_ok(ops.drop_last())) by {
            assert forall|j: int| 0 <= j < ops.drop_last().len() implies (#[trigger] ops.drop_last()[j]).definition is Ok by {
                assert(ops.drop_last()[j] == ops[j]);
            }
        }
        lemma_process_inner_ok(seen, definitions, ops.drop_last());
        assert(ops[ops.len() - 1].definition is Ok);
    }
}

proof fn lemma_op_step_ok(st: TranslationState, op: QasmOperation)
    requires
        operation_renders_ok(op),
    ensures
        op_step(st, op) is Ok,
{
    let (fresh, seen1) = mark_seen(st.seen, op);
    lemma_process_inner_ok(seen1, st.definitions, nested_circuit(op.kind));
}

proof fn lemma_translate_ops_ok(st: TranslationState, ops: Seq<QasmOperation>)
    requires
        forall|i: int| 0 <= i < ops.len() ==> operation_renders_ok(#[trigger] ops[i]),
    ensures
        translate_ops(st, ops) is Ok,
    decreases ops.len(),
{
    if ops.len() > 0 {
        assert forall|i: int| 0 <= i < ops.drop_last().len() implies operation_renders_ok(
            #[trigger] ops.drop_last()[i],
        ) by {
            assert(ops.drop_last()[i] == ops[i]);
        }
        lemma_translate_ops_ok(st, ops.drop_last());
        let s = translate_ops(st, ops.drop_last()).unwrap();
        assert(operation_renders_ok(ops[ops.len() - 1]));
        lemma_op_step_ok(s, ops.last());
    }
}

/// A circuit whose standard definitions, operation definitions, instructions
/// and nested definitions all render translates without error: the
/// translation itself never fails.
pub proof fn lemma_rendered_circuit_translates(
    v: crate::version::QasmVersion,
    name: Seq<char>,
    standard: StandardDefinitions,
    ops: Seq<QasmOperation>,
)
    requires
        renders_ok(standard, ops),
    ensures
        spec_translate(v, name, standard, ops) is Ok,
{
    let d = initial_definitions(standard).unwrap();
    lemma_translate_ops_ok(initial_state(d), ops);
}

proof fn lemma_process_inner_error(seen: Seq<Seq<char>>, definitions: Seq<char>, ops: Seq<InnerOperation>)
    requires
        process_inner(seen, definitions, ops) is Err,
    ensures
        exists|j: int| 0 <= j < ops.len()
            && (#[trigger] ops[j]).definition == Err::<String, BackendError>(
                process_inner(seen, definitions, ops)->Err_0,
            ),
    decreases ops.len(),
{
    let e = process_inner(seen, definitions, ops)->Err_0;
    match process_inner(seen, definitions, ops.drop_last()) {
        Err(e1) => {
            lemma_process_inner_error(seen, definitions, ops.drop_last());
            let j = choose|j: int| 0 <= j < ops.drop_last().len()
                && (#[trigger] ops.drop_last()[j]).definition == Err::<String, BackendError>(e1);
            assert(ops[j] == ops.drop_last()[j]);
        },
        Ok((s, d)) => {
            assert(inner_step(s, d, ops.last()) == Err::<(Seq<Seq<char>>, Seq<char>), BackendError>(e));
            assert(ops[ops.len() - 1].definition == Err::<String, BackendError>(e));
        },
    }
}

proof fn lemma_op_step_error(st: TranslationState, op: QasmOperation)
    requires
        op_step(st, op) is Err,
    ensures
        operation_holds_error(op, op_step(st, op)->Err_0),
{
    let e = op_step(st, op)->Err_0;
    let (fresh, seen1) = mark_seen(st.seen, op);
    if definition_step(st.seen, st.definitions, op) is Err {
        if process_inner(seen1, st.definitions, nested_circuit(op.kind)) is Err {
            lemma_process_inner_error(seen1, st.definitions, nested_circuit(op.kind));
        }
    }
}

proof fn lemma_translate_ops_error(st: TranslationState, ops: Seq<QasmOperation>)
    requires
        translate_ops(st, ops) is Err,
    ensures
        exists|i: int| 0 <= i < ops.len() && operation_holds_error(#[trigger] ops[i], translate_ops(st, ops)->Err_0),
    decreases ops.len(),
{
    let e = translate_ops(st, ops)->Err_0;
    match translate_ops(st, ops.drop_last()) {
        Err(e1) => {
            lemma_translate_ops_error(st, ops.drop_last());
            let i = choose|i: int| 0 <= i < ops.drop_last().len()
                && operation_holds_error(#[trigger] ops.drop_last()[i], e1);
            assert(ops[i] == ops.drop_last()[i]);
        },
        Ok(s) => {
            lemma_op_step_error(s, ops.last());
            assert(operation_holds_error(ops[ops.len() - 1], e));
        },
    }
}

/// A failed translation reports an error that one of its rendered inputs holds:
/// the translation adds no error of its own.
pub proof fn lemma_translation_error_is_rendering_error(
    v: crate::version::QasmVersion,
    name: Seq<char>,
    standard: StandardDefinitions,
    ops: Seq<QasmOperation>,
)
    requires
        spec_translate(v, name, standard, ops) is Err,
    ensures
        is_rendering_error(standard, ops, spec_translate(v, name, standard, ops)->Err_0),
{
    match initial_definitions(standard) {
        Err(e) => {},
        Ok(d) => {
            lemma_translate_ops_error(initial_state(d), ops);
        },
    }
}

/// The definitions of a nested circuit keep the names seen and the definitions
/// written before in front, and keep the names seen distinct.
pub proof fn lemma_process_inner_extends(seen: Seq<Seq<char>>, definitions: Seq<char>, ops: Seq<InnerOperation>)
    requires
        process_inner(seen, definitions, ops) is Ok,
    ensures
        ({
            let (s, d) = process_inner(seen, definitions, ops)->Ok_0;
            &&& seen.is_prefix_of(s)
            &&& definitions.is_prefix_of(d)
            &&& (seen.no_duplicates() ==> s.no_duplicates())
        }),
    decreases ops.len(),
{
    if ops.len() > 0 {
        lemma_process_inner_extends(seen, definitions, ops.drop_last());
        let (s1, d1) = process_inner(seen, definitions, ops.drop_last())->Ok_0;
        let op = ops.last();
        if !s1.contains(op.hqslang@) {
            let d = op.definition->Ok_0;
            assert(definitions.is_prefix_of(with_line_break(d1 + d@, true))) by {
                assert forall|k: int| 0 <= k < definitions.len() implies definitions[k] == with_line_break(d1 + d@, true)[k] by {
                    assert(definitions[k] == d1[k]);
                }
            }
            assert(seen.is_prefix_of(s1.push(op.hqslang@))) by {
                assert forall|k: int| 0 <= k < seen.len() implies seen[k] == s1.push(op.hqslang@)[k] by {
                    assert(seen[k] == s1[k]);
                }
            }
            if seen.no_duplicates() {
                assert(s1.push(op.hqslang@).no_duplicates());
            }
        }
    }
}

/// What one operation adds extends the state: the names seen, the definitions
/// of gates and the instructions written before stay in front, unchanged,
/// the largest qubit index does not decrease, and the names seen stay distinct.
pub proof fn lemma_step_extends(st: TranslationState, op: QasmOperation)
    requires
        op_step(st, op) is Ok,
    ensures
        ({
            let s = op_step(st, op)->Ok_0;
            &&& st.seen.is_prefix_of(s.seen)
            &&& st.definitions.is_prefix_of(s.definitions)
            &&& st.data.is_prefix_of(s.data)
            &&& st.max_qubit <= s.max_qubit
            &&& (st.seen.no_duplicates() ==> s.seen.no_duplicates())
        }),
{
    let s = op_step(st, op)->Ok_0;
    let i = op.instruction->Ok_0;
    assert(st.data.is_prefix_of(s.data)) by {
        assert forall|k: int| 0 <= k < st.data.len() implies st.data[k] == s.data[k] by {
            assert(s.data == with_line_break(st.data + i@, op.instruction_line_break));
        }
    }
    if !st.seen.contains(op.hqslang@) {
        let (fresh, seen1) = mark_seen(st.seen, op);
        assert(st.seen.is_prefix_of(seen1)) by {
            assert forall|k: int| 0 <= k < st.seen.len() implies st.seen[k] == seen1[k] by {}
        }
        if fresh {
            lemma_process_inner_extends(seen1, st.definitions, nested_circuit(op.kind));
            let (seen2, defs2) = process_inner(seen1, st.definitions, nested_circuit(op.kind))->Ok_0;
            let d = op.definition->Ok_0;
            assert(st.definitions.is_prefix_of(s.definitions)) by {
                assert forall|k: int| 0 <= k < st.definitions.len() implies st.definitions[k] == s.definitions[k] by {
                    assert(st.definitions[k] == defs2[k]);
                    assert(s.definitions == with_line_break(defs2 + d@, op.definition_line_break));
                }
            }
            assert(st.seen.is_prefix_of(s.seen)) by {
                assert forall|k: int| 0 <= k < st.seen.len() implies st.seen[k] == s.seen[k] by {
                    assert(st.seen[k] == seen1[k]);
                }
            }
        }
    }
}

/// Whether an operation's definitions are already accounted for: its name is
/// seen, or, for a gate definition, the defined name is.
pub open spec fn marked(seen: Seq<Seq<char>>, op: QasmOperation) -> bool {
    ||| seen.contains(op.hqslang@)
    ||| (op.kind matches crate::operation::OperationKind::GateDefinition { name, .. } && seen.contains(name@))
}

proof fn lemma_step_marks(st: TranslationState, op: QasmOperation)
    requires
        op_step(st, op) is Ok,
    ensures
        marked(op_step(st, op)->Ok_0.seen, op),
{
    let s1 = op_step(st, op)->Ok_0;
    lemma_step_extends(st, op);
    if st.seen.contains(op.hqslang@) {
        let k = choose|k: int| 0 <= k < st.seen.len() && st.seen[k] == op.hqslang@;
        assert(s1.seen[k] == st.seen[k]);
    } else {
        let (fresh, seen1) = mark_seen(st.seen, op);
        let k = st.seen.len() as int;
        match op.kind {
            crate::operation::OperationKind::GateDefinition { name, .. } => {
                if st.seen.contains(name@) {
                    let j = choose|j: int| 0 <= j < st.seen.len() && st.seen[j] == name@;
                    assert(s1.seen[j] == st.seen[j]);
                } else {
                    lemma_process_inner_extends(seen1, st.definitions, nested_circuit(op.kind));
                    assert(seen1[k] == name@);
                    assert(s1.seen[k] == seen1[k]);
                }
            },
            _ => {
                lemma_process_inner_extends(seen1, st.definitions, nested_circuit(op.kind));
                assert(seen1[k] == op.hqslang@);
                assert(s1.seen[k] == seen1[k]);
            },
        }
    }
}

proof fn lemma_marked_extends(seen: Seq<Seq<char>>, seen2: Seq<Seq<char>>, op: QasmOperation)
    requires
        marked(seen, op),
        seen.is_prefix_of(seen2),
    ensures
        marked(seen2, op),
{
    if seen.contains(op.hqslang@) {
        let k = choose|k: int| 0 <= k < seen.len() && seen[k] == op.hqslang@;
        assert(seen2[k] == seen[k]);
    } else {
        match op.kind {
            crate::operation::OperationKind::GateDefinition { name, .. } => {
                let k = choose|k: int| 0 <= k < seen.len() && seen[k] == name@;
                assert(seen2[k] == seen[k]);
            },
            _ => {},
        }
    }
}

proof fn lemma_translate_prefix(st: TranslationState, ops: Seq<QasmOperation>, k: int)
    requires
        translate_ops(st, ops) is Ok,
        0 <= k <= ops.len(),
    ensures
        translate_ops(st, ops.take(k)) is Ok,
        translate_ops(st, ops.take(k))->Ok_0.seen.is_prefix_of(translate_ops(st, ops)->Ok_0.seen),
    decreases ops.len() - k,
{
    if k == ops.len() {
        assert(ops.take(k) =~= ops);
        assert(translate_ops(st, ops)->Ok_0.seen.is_prefix_of(translate_ops(st, ops)->Ok_0.seen));
    } else {
        lemma_translate_prefix(st, ops, k + 1);
        let next = ops.take(k + 1);
        assert(next.drop_last() =~= ops.take(k));
        let sk = translate_ops(st, ops.take(k))->Ok_0;
        let sk1 = translate_ops(st, next)->Ok_0;
        let sn = translate_ops(st, ops)->Ok_0;
        lemma_step_extends(sk, next.last());
        assert(sk.seen.is_prefix_of(sn.seen)) by {
            assert forall|j: int| 0 <= j < sk.seen.len() implies sk.seen[j] == sn.seen[j] by {
                assert(sk.seen[j] == sk1.seen[j]);
            }
        }
    }
}

/// An operation that occurs again, after any earlier occurrence in the
/// circuit, writes no definition the second time: the names seen and the
/// definitions stay as they were, and only its instruction is appended.
pub proof fn lemma_repeated_operation_defines_once(st: TranslationState, ops: Seq<QasmOperation>, i: int)
    requires
        translate_ops(st, ops) is Ok,
        0 <= i < ops.len(),
        op_step(translate_ops(st, ops)->Ok_0, ops[i]) is Ok,
    ensures
        ({
            let before = translate_ops(st, ops)->Ok_0;
            let after = op_step(before, ops[i])->Ok_0;
            &&& after.seen == before.seen
            &&& after.definitions == before.definitions
            &&& after.data == with_line_break(
                before.data + ops[i].instruction->Ok_0@,
                ops[i].instruction_line_break,
            )
        }),
{
    let before = translate_ops(st, ops)->Ok_0;
    let op = ops[i];
    lemma_translate_prefix(st, ops, i + 1);
    let next = ops.take(i + 1);
    assert(next.drop_last() =~= ops.take(i));
    assert(next.last() == op);
    let si = translate_ops(st, ops.take(i))->Ok_0;
    let si1 = translate_ops(st, next)->Ok_0;
    lemma_step_marks(si, op);
    lemma_marked_extends(si1.seen, before.seen, op);
}

/// The instructions of a circuit in order, each followed by a line break
/// where it asks for one and the text so far is not empty.
pub open spec fn instructions_text(ops: Seq<QasmOperation>) -> Seq<char>
    decreases ops.len(),
{
    if ops.len() == 0 {
        Seq::empty()
    } else {
        with_line_break(
            instructions_text(ops.drop_last()) + ops.last().instruction->Ok_0@,
            ops.last().instruction_line_break,
        )
    }
}

/// The largest qubit index any operation of a circuit names, 0 when none does.
pub open spec fn circuit_max_qubit(ops: Seq<QasmOperation>) -> nat
    decreases ops.len(),
{
    if ops.len() == 0 {
        0
    } else {
        next_max_qubit(circuit_max_qubit(ops.drop_last()), ops.last())
    }
}

/// The symbolic parameters of a circuit, each once, in order of first appearance.
pub open spec fn circuit_variables(ops: Seq<QasmOperation>) -> Seq<Seq<char>>
    decreases ops.len(),
{
    if ops.len() == 0 {
        Seq::empty()
    } else {
        gather(circuit_variables(ops.drop_last()), string_views(ops.last().variables@))
    }
}

proof fn lemma_gather_distinct(vars: Seq<Seq<char>>, new: Seq<Seq<char>>)
    requires
        vars.no_duplicates(),
    ensures
        gather(vars, new).no_duplicates(),
    decreases new.len(),
{
    if new.len() > 0 {
        lemma_gather_distinct(vars, new.drop_last());
    }
}

proof fn lemma_standard_names_distinct()
    ensures
        standard_names().no_duplicates(),
{
    reveal_strlit("RotateX");
    reveal_strlit("RotateY");
    reveal_strlit("RotateZ");
    reveal_strlit("CNOT");
    let n = standard_names();
    assert(n[0] != n[1] && n[0] != n[2] && n[0] != n[3] && n[1] != n[2] && n[1] != n[3] && n[2] != n[3]) by {
        assert(n[0][6] != n[1][6]);
        assert(n[0][6] != n[2][6]);
        assert(n[1][6] != n[2][6]);
        assert(n[0].len() != n[3].len());
        assert(n[1].len() != n[3].len());
        assert(n[2].len() != n[3].len());
    }
}

proof fn lemma_translate_ops_layout(d: Seq<char>, ops: Seq<QasmOperation>)
    requires
        translate_ops(initial_state(d), ops) is Ok,
    ensures
        ({
            let st = translate_ops(initial_state(d), ops)->Ok_0;
            &&& st.data == instructions_text(ops)
            &&& st.max_qubit == circuit_max_qubit(ops)
            &&& st.variables == circuit_variables(ops)
            &&& st.variables.no_duplicates()
            &&& st.seen.no_duplicates()
            &&& standard_names().is_prefix_of(st.seen)
            &&& d.is_prefix_of(st.definitions)
        }),
    decreases ops.len(),
{
    if ops.len() == 0 {
        lemma_standard_names_distinct();
        assert(standard_names().is_prefix_of(standard_names()));
        assert(d.is_prefix_of(d));
    } else {
        lemma_translate_ops_layout(d, ops.drop_last());
        let s = translate_ops(initial_state(d), ops.drop_last())->Ok_0;
        lemma_step_extends(s, ops.last());
        lemma_gather_distinct(s.variables, string_views(ops.last().variables@));
        let st = op_step(s, ops.last())->Ok_0;
        assert(standard_names().is_prefix_of(st.seen)) by {
            assert forall|k: int| 0 <= k < standard_names().len() implies standard_names()[k] == st.seen[k] by {
                assert(standard_names()[k] == s.seen[k]);
            }
        }
        assert(d.is_prefix_of(st.definitions)) by {
            assert forall|k: int| 0 <= k < d.len() implies d[k] == st.definitions[k] by {
                assert(d[k] == s.definitions[k]);
            }
        }
    }
}

/// The layout of every translated circuit: the version line; the definitions
/// of gates (which start with the standard ones), the standard include or
/// nothing, by dialect; the input declarations of the circuit's symbolic
/// parameters, each once; the qubit register, one qubit more than the
/// largest index named; and the instructions in circuit order, whatever the
/// definitions were.
pub proof fn lemma_output_layout(
    v: crate::version::QasmVersion,
    name: Seq<char>,
    standard: StandardDefinitions,
    ops: Seq<QasmOperation>,
)
    requires
        spec_translate(v, name, standard, ops) is Ok,
    ensures
        version_line(v).is_prefix_of(spec_translate(v, name, standard, ops)->Ok_0),
        circuit_variables(ops).no_duplicates(),
        exists|defs: Seq<char>|
            initial_definitions(standard)->Ok_0.is_prefix_of(defs) && spec_translate(v, name, standard, ops)->Ok_0
                == version_line(v) + definitions_section(v, defs) + variables_section(v, circuit_variables(ops))
                + register_section(v, name, circuit_max_qubit(ops) + 1) + instructions_text(ops),
{
    let d = initial_definitions(standard)->Ok_0;
    lemma_translate_ops_layout(d, ops);
    let st = translate_ops(initial_state(d), ops)->Ok_0;
    let out = spec_translate(v, name, standard, ops)->Ok_0;
    assert(out == assemble(v, name, st));
    assert(version_line(v).is_prefix_of(out)) by {
        assert forall|k: int| 0 <= k < version_line(v).len() implies version_line(v)[k] == out[k] by {}
    }
}

/// The names of the gates defined in a translation are distinct: no
/// definition is written twice under one name.
pub proof fn lemma_defined_names_distinct(standard: StandardDefinitions, ops: Seq<QasmOperation>)
    requires
        initial_definitions(standard) is Ok,
        translate_ops(initial_state(initial_definitions(standard)->Ok_0), ops) is Ok,
    ensures
        translate_ops(initial_state(initial_definitions(standard)->Ok_0), ops)->Ok_0.seen.no_duplicates(),
{
    lemma_translate_ops_layout(initial_definitions(standard)->Ok_0, ops);
}

/// In the Qulacs dialect of OpenQASM 2.0 and the Braket dialect of OpenQASM
/// 3.0 the output holds no gate definitions: the Qulacs output includes the
/// standard gate library in their place, the Braket output nothing.
pub proof fn lemma_dialects_without_definitions(
    v: crate::version::QasmVersion,
    name: Seq<char>,
    standard: StandardDefinitions,
    ops: Seq<QasmOperation>,
)
    requires
        spec_translate(v, name, standard, ops) is Ok,
        v == crate::version::QasmVersion::V2point0(crate::version::Qasm2Dialect::Qulacs)
            || v == crate::version::QasmVersion::V3point0(crate::version::Qasm3Dialect::Braket),
    ensures
        spec_translate(v, name, standard, ops)->Ok_0 == version_line(v) + (if v is V2point0 {
            "include \"qelib1.inc\";\n\n"@
        } else {
            Seq::empty()
        }) + variables_section(v, circuit_variables(ops)) + register_section(v, name, circuit_max_qubit(ops) + 1)
            + instructions_text(ops),
{
    lemma_output_layout(v, name, standard, ops);
}

/// `part` occurs in `whole` as a contiguous piece.
pub open spec fn occurs_in(part: Seq<char>, whole: Seq<char>) -> bool {
    exists|p: int| 0 <= p && p + part.len() <= whole.len() && #[trigger] whole.subrange(p, p + part.len()) == part
}

/// A piece of a text stays a piece of it when text is added before or after.
pub proof fn lemma_occurs_in_context(part: Seq<char>, a: Seq<char>, x: Seq<char>, y: Seq<char>)
    requires
        occurs_in(part, a),
    ensures
        occurs_in(part, x + a + y),
{
    let p = choose|p: int| 0 <= p && p + part.len() <= a.len() && #[trigger] a.subrange(p, p + part.len()) == part;
    let w = x + a + y;
    let q = p + x.len();
    assert(w.subrange(q, q + part.len()) =~= a.subrange(p, p + part.len()));
}

proof fn lemma_occurs_self(a: Seq<char>)
    ensures
        occurs_in(a, a),
{
    assert(a.subrange(0, 0 + a.len() as int) =~= a);
}

proof fn lemma_occurs_in_prefix(part: Seq<char>, a: Seq<char>, b: Seq<char>)
    requires
        occurs_in(part, a),
        a.is_prefix_of(b),
    ensures
        occurs_in(part, b),
{
    let p = choose|p: int| 0 <= p && p + part.len() <= a.len() && #[trigger] a.subrange(p, p + part.len()) == part;
    assert(b.subrange(p, p + part.len()) =~= a.subrange(p, p + part.len()));
}

/// The operation at `k` of a nested circuit has a name that is neither in
/// `seen` nor the name of an operation before it.
pub open spec fn first_new_name(seen: Seq<Seq<char>>, ops: Seq<InnerOperation>, k: int) -> bool {
    &&& !seen.contains(ops[k].hqslang@)
    &&& forall|j: int| 0 <= j < k ==> (#[trigger] ops[j]).hqslang@ != ops[k].hqslang@
}

proof fn lemma_process_inner_marks_and_defines(seen: Seq<Seq<char>>, definitions: Seq<char>, ops: Seq<InnerOperation>)
    requires
        process_inner(seen, definitions, ops) is Ok,
    ensures
        ({
            let (s, d) = process_inner(seen, definitions, ops)->Ok_0;
            &&& forall|k: int| 0 <= k < ops.len() ==> s.contains((#[trigger] ops[k]).hqslang@)
            &&& forall|x: Seq<char>| #[trigger] s.contains(x) ==> seen.contains(x) || exists|j: int|
                0 <= j < ops.len() && (#[trigger] ops[j]).hqslang@ == x
            &&& forall|k: int| 0 <= k < ops.len() && #[trigger] first_new_name(seen, ops, k) ==> ops[k].definition is Ok
                && occurs_in(ops[k].definition->Ok_0@, d)
        }),
    decreases ops.len(),
{
    if ops.len() > 0 {
        let init = ops.drop_last();
        lemma_process_inner_marks_and_defines(seen, definitions, init);
        lemma_process_inner_extends(seen, definitions, init);
        let (s1, d1) = process_inner(seen, definitions, init)->Ok_0;
        let (s, d) = process_inner(seen, definitions, ops)->Ok_0;
        let last = ops.last();
        let n = ops.len() - 1;
        assert(s1.is_prefix_of(s) && d1.is_prefix_of(d)) by {
            if !s1.contains(last.hqslang@) {
                let t = last.definition->Ok_0;
                assert forall|i: int| 0 <= i < d1.len() implies d1[i] == d[i] by {
                    assert(d == with_line_break(d1 + t@, true));
                }
            }
        }
        assert forall|k: int| 0 <= k < ops.len() implies s.contains((#[trigger] ops[k]).hqslang@) by {
            if k < n {
                assert(init[k] == ops[k]);
                assert(s1.contains(init[k].hqslang@));
                let i = choose|i: int| 0 <= i < s1.len() && s1[i] == init[k].hqslang@;
                assert(s[i] == s1[i]);
            } else if s1.contains(last.hqslang@) {
                let i = choose|i: int| 0 <= i < s1.len() && s1[i] == last.hqslang@;
                assert(s[i] == s1[i]);
            } else {
                assert(s[s1.len() as int] == last.hqslang@);
            }
        }
        assert forall|x: Seq<char>| #[trigger] s.contains(x) implies seen.contains(x) || exists|j: int|
            0 <= j < ops.len() && (#[trigger] ops[j]).hqslang@ == x by {
            let i = choose|i: int| 0 <= i < s.len() && s[i] == x;
            if i < s1.len() {
                assert(s1[i] == s[i]);
                assert(s1.contains(x));
                if !seen.contains(x) {
                    let j = choose|j: int| 0 <= j < init.len() && (#[trigger] init[j]).hqslang@ == x;
                    assert(ops[j] == init[j]);
                }
            } else {
                assert(ops[n].hqslang@ == x);
            }
        }
        assert forall|k: int| 0 <= k < ops.len() && #[trigger] first_new_name(seen, ops, k) implies ops[k].definition is Ok
            && occurs_in(ops[k].definition->Ok_0@, d) by {
            if k < n {
                assert(init[k] == ops[k]);
                assert forall|j: int| 0 <= j < k implies (#[trigger] init[j]).hqslang@ != init[k].hqslang@ by {
                    assert(init[j] == ops[j]);
                }
                assert(first_new_name(seen, init, k));
                lemma_occurs_in_prefix(ops[k].definition->Ok_0@, d1, d);
            } else {
                assert(!s1.contains(last.hqslang@)) by {
                    if s1.contains(last.hqslang@) {
                        if !seen.contains(last.hqslang@) {
                            let j = choose|j: int| 0 <= j < init.len() && (#[trigger] init[j]).hqslang@ == last.hqslang@;
                            assert(ops[j] == init[j]);
                        }
                    }
                }
                let t = last.definition->Ok_0;
                assert(d =~= d1 + t@ + "\n"@ || d =~= d1 + t@);
                assert(d.subrange(d1.len() as int, (d1.len() + t@.len()) as int) =~= t@);
            }
        }
    }
}

/// Whether the definitions of a nested circuit are accounted for after an
/// operation: every name of the nested circuit is seen, and every nested
/// operation whose name was not seen before, is not the operation's own
/// marked name and does not repeat an earlier nested name has its definition
/// written among the definitions.
pub open spec fn nested_defined(
    seen_before: Seq<Seq<char>>,
    marked_name: Seq<char>,
    circuit: Seq<InnerOperation>,
    after: TranslationState,
) -> bool {
    forall|k: int| 0 <= k < circuit.len() ==> {
        &&& after.seen.contains((#[trigger] circuit[k]).hqslang@)
        &&& (first_new_name(seen_before, circuit, k) && circuit[k].hqslang@ != marked_name) ==> occurs_in(
            circuit[k].definition->Ok_0@,
            after.definitions,
        )
    }
}

/// A gate definition, a conditional pragma and a loop pragma whose definitions
/// are written (their name, or for a gate definition the defined name, was
/// not seen) also write the definitions of the operations of their body whose
/// names are new, and mark every name of the body as seen.
pub proof fn lemma_nested_definitions_written(st: TranslationState, op: QasmOperation)
    requires
        op_step(st, op) is Ok,
        !st.seen.contains(op.hqslang@),
    ensures
        ({
            let after = op_step(st, op)->Ok_0;
            match op.kind {
                crate::operation::OperationKind::GateDefinition { name, circuit } => !st.seen.contains(name@)
                    ==> nested_defined(st.seen, name@, circuit@, after),
                crate::operation::OperationKind::PragmaConditional { circuit } => nested_defined(
                    st.seen,
                    op.hqslang@,
                    circuit@,
                    after,
                ),
                crate::operation::OperationKind::PragmaLoop { circuit } => nested_defined(
                    st.seen,
                    op.hqslang@,
                    circuit@,
                    after,
                ),
                crate::operation::OperationKind::Gate => true,
            }
        }),
{
    let after = op_step(st, op)->Ok_0;
    let (fresh, seen1) = mark_seen(st.seen, op);
    if fresh {
        let c = nested_circuit(op.kind);
        let marked_name = seen1.last();
        lemma_process_inner_marks_and_defines(seen1, st.definitions, c);
        lemma_process_inner_extends(seen1, st.definitions, c);
        let (s2, d2) = process_inner(seen1, st.definitions, c)->Ok_0;
        let t = op.definition->Ok_0;
        assert(d2.is_prefix_of(after.definitions)) by {
            assert forall|i: int| 0 <= i < d2.len() implies d2[i] == after.definitions[i] by {
                assert(after.definitions == with_line_break(d2 + t@, op.definition_line_break));
            }
        }
        assert(after.seen == s2);
        assert forall|k: int| 0 <= k < c.len() implies {
            &&& after.seen.contains((#[trigger] c[k]).hqslang@)
            &&& (first_new_name(st.seen, c, k) && c[k].hqslang@ != marked_name) ==> occurs_in(
                c[k].definition->Ok_0@,
                after.definitions,
            )
        } by {
            if first_new_name(st.seen, c, k) && c[k].hqslang@ != marked_name {
                assert(!seen1.contains(c[k].hqslang@)) by {
                    if seen1.contains(c[k].hqslang@) {
                        let i = choose|i: int| 0 <= i < seen1.len() && seen1[i] == c[k].hqslang@;
                        if i < st.seen.len() {
                            assert(st.seen[i] == seen1[i]);
                        }
                    }
                }
                assert(first_new_name(seen1, c, k));
                lemma_occurs_in_prefix(c[k].definition->Ok_0@, d2, after.definitions);
            }
        }
    }
}

proof fn lemma_gather_contains(vars: Seq<Seq<char>>, new: Seq<Seq<char>>)
    ensures
        forall|k: int| 0 <= k < vars.len() ==> gather(vars, new).contains(#[trigger] vars[k]),
        forall|k: int| 0 <= k < new.len() ==> gather(vars, new).contains(#[trigger] new[k]),
    decreases new.len(),
{
    if new.len() > 0 {
        let init = new.drop_last();
        lemma_gather_contains(vars, init);
        let g = gather(vars, init);
        let h = gather(vars, new);
        assert(forall|x: Seq<char>| g.contains(x) ==> h.contains(x)) by {
            assert forall|x: Seq<char>| g.contains(x) implies h.contains(x) by {
                let i = choose|i: int| 0 <= i < g.len() && g[i] == x;
                if !g.contains(new.last()) {
                    assert(h[i] == g[i]);
                }
            }
        }
        assert forall|k: int| 0 <= k < new.len() implies h.contains(#[trigger] new[k]) by {
            if k < init.len() {
                assert(init[k] == new[k]);
                assert(g.contains(init[k]));
            } else if !g.contains(new.last()) {
                assert(h[g.len() as int] == new.last());
            }
        }
        assert forall|k: int| 0 <= k < vars.len() implies h.contains(#[trigger] vars[k]) by {
            assert(g.contains(vars[k]));
        }
    }
}

proof fn lemma_circuit_variables_contains(ops: Seq<QasmOperation>)
    ensures
        forall|i: int, j: int|
            0 <= i < ops.len() && 0 <= j < ops[i].variables@.len() ==> circuit_variables(ops).contains(
                #[trigger] ops[i].variables@[j]@,
            ),
    decreases ops.len(),
{
    if ops.len() > 0 {
        let init = ops.drop_last();
        lemma_circuit_variables_contains(init);
        let new = string_views(ops.last().variables@);
        lemma_gather_contains(circuit_variables(init), new);
        assert forall|i: int, j: int|
            0 <= i < ops.len() && 0 <= j < ops[i].variables@.len() implies circuit_variables(ops).contains(
                #[trigger] ops[i].variables@[j]@,
            ) by {
            if i < init.len() {
                assert(init[i] == ops[i]);
                assert(circuit_variables(init).contains(init[i].variables@[j]@));
                let k = choose|k: int| 0 <= k < circuit_variables(init).len() && circuit_variables(init)[k] == init[i].variables@[j]@;
                assert(circuit_variables(ops).contains(circuit_variables(init)[k]));
            } else {
                assert(new[j] == ops[i].variables@[j]@);
            }
        }
    }
}

/// The input declaration line of a symbolic parameter.
pub open spec fn input_line(var: Seq<char>) -> Seq<char> {
    "input angle[32] "@ + var + ";\n"@
}

proof fn lemma_input_lines_contains(vars: Seq<Seq<char>>)
    ensures
        forall|k: int| 0 <= k < vars.len() ==> occurs_in(input_line(#[trigger] vars[k]), input_lines(vars)),
    decreases vars.len(),
{
    if vars.len() > 0 {
        let init = vars.drop_last();
        lemma_input_lines_contains(init);
        let whole = input_lines(vars);
        assert forall|k: int| 0 <= k < vars.len() implies occurs_in(input_line(#[trigger] vars[k]), whole) by {
            if k < init.len() {
                assert(init[k] == vars[k]);
                lemma_occurs_in_context(input_line(init[k]), input_lines(init), Seq::empty(), input_line(vars.last()));
                assert(Seq::<char>::empty() + input_lines(init) + input_line(vars.last()) =~= whole);
            } else {
                let l = input_line(vars.last());
                let p = input_lines(init).len() as int;
                assert(whole =~= input_lines(init) + l);
                assert(whole.subrange(p, p + l.len()) =~= l);
            }
        }
    }
}

proof fn lemma_qubit_max_attained(q: Seq<usize>)
    ensures
        qubit_max(q) == 0 || exists|j: int| 0 <= j < q.len() && q[j] == qubit_max(q),
    decreases q.len(),
{
    if q.len() > 0 {
        lemma_qubit_max_attained(q.drop_last());
        if qubit_max(q) != 0 && qubit_max(q) == qubit_max(q.drop_last()) {
            let j = choose|j: int| 0 <= j < q.drop_last().len() && q.drop_last()[j] == qubit_max(q.drop_last());
            assert(q[j] == q.drop_last()[j]);
        }
        if qubit_max(q) != qubit_max(q.drop_last()) {
            assert(q[q.len() - 1] == qubit_max(q));
        }
    }
}

/// The qubit indices an operation names; none for operations on all or no qubits.
pub open spec fn named_qubits(op: QasmOperation) -> Seq<usize> {
    match op.involved_qubits {
        Some(q) => q@,
        None => Seq::empty(),
    }
}

/// Whether `n` is one more than the largest qubit index any operation names
/// (1 when no operation names a qubit).
pub open spec fn register_size(ops: Seq<QasmOperation>, n: int) -> bool {
    &&& forall|i: int, j: int|
        0 <= i < ops.len() && 0 <= j < named_qubits(ops[i]).len() ==> #[trigger] named_qubits(ops[i])[j] < n
    &&& (n == 1 || exists|i: int, j: int|
        0 <= i < ops.len() && 0 <= j < named_qubits(ops[i]).len() && #[trigger] named_qubits(ops[i])[j] == n - 1)
}

proof fn lemma_circuit_max_qubit_is_max(ops: Seq<QasmOperation>)
    ensures
        register_size(ops, circuit_max_qubit(ops) + 1int),
    decreases ops.len(),
{
    if ops.len() > 0 {
        let init = ops.drop_last();
        lemma_circuit_max_qubit_is_max(init);
        let m0 = circuit_max_qubit(init);
        let m = circuit_max_qubit(ops);
        let last = ops.last();
        let n = ops.len() - 1;
        assert(m0 <= m);
        assert forall|i: int, j: int|
            0 <= i < ops.len() && 0 <= j < named_qubits(ops[i]).len() implies #[trigger] named_qubits(ops[i])[j] < m + 1 by {
            if i < n {
                assert(init[i] == ops[i]);
                assert(named_qubits(init[i])[j] < m0 + 1);
            } else {
                lemma_qubit_max_bound(named_qubits(last), usize::MAX as nat + 1);
            }
        }
        if m != 0 {
            if m == m0 {
                let (i, j) = choose|i: int, j: int|
                    0 <= i < init.len() && 0 <= j < named_qubits(init[i]).len() && #[trigger] named_qubits(init[i])[j] == m0;
                assert(ops[i] == init[i]);
                assert(named_qubits(ops[i])[j] == m);
            } else {
                let q = last.involved_qubits->Some_0;
                lemma_qubit_max_attained(q@);
                let j = choose|j: int| 0 <= j < q@.len() && q@[j] == qubit_max(q@);
                assert(named_qubits(ops[n])[j] == m);
            }
        }
    }
}

/// Whether `out` is laid out from `defs` as the translation writes it.
pub open spec fn laid_out(
    v: crate::version::QasmVersion,
    name: Seq<char>,
    ops: Seq<QasmOperation>,
    defs: Seq<char>,
    out: Seq<char>,
) -> bool {
    out == version_line(v) + definitions_section(v, defs) + variables_section(v, circuit_variables(ops))
        + register_section(v, name, circuit_max_qubit(ops) + 1) + instructions_text(ops)
}

/// Unless the dialect writes no definitions (2.0 Qulacs, 3.0 Braket), the
/// standard definitions follow the version line directly, and each of the
/// rotations' and the controlled NOT's definitions is in the output.
pub proof fn lemma_output_defines_standard_gates(
    v: crate::version::QasmVersion,
    name: Seq<char>,
    standard: StandardDefinitions,
    ops: Seq<QasmOperation>,
)
    requires
        spec_translate(v, name, standard, ops) is Ok,
        v != crate::version::QasmVersion::V2point0(crate::version::Qasm2Dialect::Qulacs),
        v != crate::version::QasmVersion::V3point0(crate::version::Qasm3Dialect::Braket),
    ensures
        ({
            let out = spec_translate(v, name, standard, ops)->Ok_0;
            let vl = version_line(v);
            let d0 = initial_definitions(standard)->Ok_0;
            &&& out.subrange(vl.len() as int, (vl.len() + d0.len()) as int) == d0
            &&& occurs_in(standard.rotate_x->Ok_0@, out)
            &&& occurs_in(standard.rotate_y->Ok_0@, out)
            &&& occurs_in(standard.rotate_z->Ok_0@, out)
            &&& occurs_in(standard.cnot->Ok_0@, out)
        }),
{
    lemma_output_layout(v, name, standard, ops);
    let out = spec_translate(v, name, standard, ops)->Ok_0;
    let vl = version_line(v);
    let d0 = initial_definitions(standard)->Ok_0;
    let defs = choose|defs: Seq<char>| d0.is_prefix_of(defs) && laid_out(v, name, ops, defs, out);
    assert(definitions_section(v, defs) == defs);
    let rest = variables_section(v, circuit_variables(ops)) + register_section(v, name, circuit_max_qubit(ops) + 1)
        + instructions_text(ops);
    assert(out =~= vl + defs + rest);
    assert(out.subrange(vl.len() as int, (vl.len() + d0.len()) as int) =~= d0) by {
        assert forall|k: int| 0 <= k < d0.len() implies out[vl.len() + k] == d0[k] by {
            assert(out[vl.len() + k] == defs[k]);
        }
    }
    lemma_standard_definitions_occur(standard);
    lemma_occurs_in_prefix(standard.rotate_x->Ok_0@, d0, defs);
    lemma_occurs_in_context(standard.rotate_x->Ok_0@, defs, vl, rest);
    lemma_occurs_in_prefix(standard.rotate_y->Ok_0@, d0, defs);
    lemma_occurs_in_context(standard.rotate_y->Ok_0@, defs, vl, rest);
    lemma_occurs_in_prefix(standard.rotate_z->Ok_0@, d0, defs);
    lemma_occurs_in_context(standard.rotate_z->Ok_0@, defs, vl, rest);
    lemma_occurs_in_prefix(standard.cnot->Ok_0@, d0, defs);
    lemma_occurs_in_context(standard.cnot->Ok_0@, defs, vl, rest);
}

proof fn lemma_standard_definitions_occur(standard: StandardDefinitions)
    requires
        initial_definitions(standard) is Ok,
    ensures
        occurs_in(standard.rotate_x->Ok_0@, initial_definitions(standard)->Ok_0),
        occurs_in(standard.rotate_y->Ok_0@, initial_definitions(standard)->Ok_0),
        occurs_in(standard.rotate_z->Ok_0@, initial_definitions(standard)->Ok_0),
        occurs_in(standard.cnot->Ok_0@, initial_definitions(standard)->Ok_0),
{
    let d0 = initial_definitions(standard)->Ok_0;
    let rx = standard.rotate_x->Ok_0@;
    let ry = standard.rotate_y->Ok_0@;
    let rz = standard.rotate_z->Ok_0@;
    let cx = standard.cnot->Ok_0@;
    let u = "gate u3(theta,phi,lambda) q { U(theta,phi,lambda) q; }\n"@ + "gate u2(phi,lambda) q { U(pi/2,phi,lambda) q; }\n"@
        + "gate u1(lambda) q { U(0,0,lambda) q; }\n"@;
    let nl = "\n"@;
    let nn = "\n\n"@;
    assert(d0 == u + rx + nl + ry + nl + rz + nl + cx + nn);
    lemma_occurs_self(rx);
    lemma_occurs_in_context(rx, rx, u, nl + ry + nl + rz + nl + cx + nn);
    assert(u + rx + (nl + ry + nl + rz + nl + cx + nn) =~= d0);
    lemma_occurs_self(ry);
    lemma_occurs_in_context(ry, ry, u + rx + nl, nl + rz + nl + cx + nn);
    assert(u + rx + nl + ry + (nl + rz + nl + cx + nn) =~= d0);
    lemma_occurs_self(rz);
    lemma_occurs_in_context(rz, rz, u + rx + nl + ry + nl, nl + cx + nn);
    assert(u + rx + nl + ry + nl + rz + (nl + cx + nn) =~= d0);
    lemma_occurs_self(cx);
    lemma_occurs_in_context(cx, cx, u + rx + nl + ry + nl + rz + nl, nn);
}

/// In OpenQASM 3.0 every symbolic parameter of every operation of the
/// circuit is declared by an input line.
pub proof fn lemma_output_declares_all_variables(
    v: crate::version::QasmVersion,
    name: Seq<char>,
    standard: StandardDefinitions,
    ops: Seq<QasmOperation>,
)
    requires
        spec_translate(v, name, standard, ops) is Ok,
        v is V3point0,
    ensures
        forall|i: int, j: int|
            0 <= i < ops.len() && 0 <= j < ops[i].variables@.len() ==> occurs_in(
                input_line(#[trigger] ops[i].variables@[j]@),
                spec_translate(v, name, standard, ops)->Ok_0,
            ),
{
    lemma_output_layout(v, name, standard, ops);
    let out = spec_translate(v, name, standard, ops)->Ok_0;
    let vl = version_line(v);
    let d0 = initial_definitions(standard)->Ok_0;
    let defs = choose|defs: Seq<char>| d0.is_prefix_of(defs) && laid_out(v, name, ops, defs, out);
    let ds = definitions_section(v, defs);
    let vars = circuit_variables(ops);
    let vs = variables_section(v, vars);
    let rs = register_section(v, name, circuit_max_qubit(ops) + 1);
    let it = instructions_text(ops);
    lemma_circuit_variables_contains(ops);
    lemma_input_lines_contains(vars);
    assert forall|i: int, j: int|
        0 <= i < ops.len() && 0 <= j < ops[i].variables@.len() implies occurs_in(
            input_line(#[trigger] ops[i].variables@[j]@),
            out,
        ) by {
        let x = ops[i].variables@[j]@;
        assert(vars.contains(x));
        let k = choose|k: int| 0 <= k < vars.len() && vars[k] == x;
        assert(occurs_in(input_line(vars[k]), input_lines(vars)));
        assert(vs == "\n"@ + input_lines(vars) + "\n"@);
        lemma_occurs_in_context(input_line(x), input_lines(vars), vl + ds + "\n"@, "\n"@ + rs + it);
        assert(vl + ds + "\n"@ + input_lines(vars) + ("\n"@ + rs + it) =~= out);
    }
}

/// The output declares the qubit register under the backend's name, with a
/// decimal numeral worth one more than the largest qubit index any operation
/// names (1 when none does).
pub proof fn lemma_output_register_line(
    v: crate::version::QasmVersion,
    name: Seq<char>,
    standard: StandardDefinitions,
    ops: Seq<QasmOperation>,
)
    requires
        spec_translate(v, name, standard, ops) is Ok,
    ensures
        exists|num: Seq<char>| {
            &&& register_size(ops, numeral_value(num))
            &&& match v {
                crate::version::QasmVersion::V2point0(_) => occurs_in(
                    "\nqreg "@ + name + "["@ + num + "];\n\n"@,
                    spec_translate(v, name, standard, ops)->Ok_0,
                ),
                crate::version::QasmVersion::V3point0(_) => occurs_in(
                    "\nqubit["@ + num + "] "@ + name + ";\n\n"@,
                    spec_translate(v, name, standard, ops)->Ok_0,
                ),
            }
        },
{
    lemma_output_layout(v, name, standard, ops);
    let out = spec_translate(v, name, standard, ops)->Ok_0;
    let vl = version_line(v);
    let d0 = initial_definitions(standard)->Ok_0;
    let defs = choose|defs: Seq<char>| d0.is_prefix_of(defs) && laid_out(v, name, ops, defs, out);
    let ds = definitions_section(v, defs);
    let vs = variables_section(v, circuit_variables(ops));
    let n = circuit_max_qubit(ops) + 1;
    let rs = register_section(v, name, n);
    let it = instructions_text(ops);
    lemma_circuit_max_qubit_is_max(ops);
    lemma_decimal_is_numeral(n);
    let num = decimal(n);
    lemma_occurs_self(rs);
    lemma_occurs_in_context(rs, rs, vl + ds + vs, it);
    assert(vl + ds + vs + rs + it =~= out);
    assert(register_size(ops, numeral_value(num)));
    match v {
        crate::version::QasmVersion::V2point0(_) => {
            assert(rs == "\nqreg "@ + name + "["@ + num + "];\n\n"@);
        },
        crate::version::QasmVersion::V3point0(_) => {
            assert(rs == "\nqubit["@ + num + "] "@ + name + ";\n\n"@);
        },
    }
}

} // verus!
