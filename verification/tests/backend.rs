use roqoqo_qasm::backend::Backend;
use roqoqo_qasm::error::BackendError;
use roqoqo_qasm::operation::{InnerOperation, OperationKind, QasmOperation, StandardDefinitions};
use roqoqo_qasm::translate::process_operation_circuit;
use roqoqo_qasm::version::{Qasm2Dialect, Qasm3Dialect, QasmVersion};

const PREAMBLE: &str = "gate u3(theta,phi,lambda) q { U(theta,phi,lambda) q; }\ngate u2(phi,lambda) q { U(pi/2,phi,lambda) q; }\ngate u1(lambda) q { U(0,0,lambda) q; }\n";
const RX: &str = "gate rx(theta) a { u3(theta,-pi/2,pi/2) a; }";
const RY: &str = "gate ry(theta) a { u3(theta,0,0) a; }";
const RZ: &str = "gate rz(phi) a { u1(phi) a; }";
const CX: &str = "gate cx c,t { CX c,t; }";
const H_DEF: &str = "gate h a { u2(0,pi) a; }";

fn standard() -> StandardDefinitions {
    StandardDefinitions {
        rotate_x: Ok(RX.to_string()),
        rotate_y: Ok(RY.to_string()),
        rotate_z: Ok(RZ.to_string()),
        cnot: Ok(CX.to_string()),
    }
}

fn standard_definitions() -> String {
    format!("{}{}\n{}\n{}\n{}\n\n", PREAMBLE, RX, RY, RZ, CX)
}

fn gate(name: &str, qubits: Vec<usize>, definition: &str, instruction: &str) -> QasmOperation {
    QasmOperation {
        hqslang: name.to_string(),
        involved_qubits: Some(qubits),
        kind: OperationKind::Gate,
        definition: Ok(definition.to_string()),
        definition_line_break: true,
        instruction: Ok(instruction.to_string()),
        instruction_line_break: true,
        variables: Vec::new(),
    }
}

fn generic(msg: &str) -> BackendError {
    BackendError::GenericError { msg: msg.to_string() }
}

#[test]
fn version_names_are_read() {
    assert_eq!(QasmVersion::from_str("2.0"), Ok(QasmVersion::V2point0(Qasm2Dialect::Vanilla)));
    assert_eq!(QasmVersion::from_str("2.0Vanilla"), Ok(QasmVersion::V2point0(Qasm2Dialect::Vanilla)));
    assert_eq!(QasmVersion::from_str("2.0Qulacs"), Ok(QasmVersion::V2point0(Qasm2Dialect::Qulacs)));
    assert_eq!(QasmVersion::from_str("3.0Roqoqo"), Ok(QasmVersion::V3point0(Qasm3Dialect::Roqoqo)));
    assert_eq!(QasmVersion::from_str("3.0Braket"), Ok(QasmVersion::V3point0(Qasm3Dialect::Braket)));
    assert_eq!(QasmVersion::from_str("3.0Vanilla"), Ok(QasmVersion::V3point0(Qasm3Dialect::Vanilla)));
    assert_eq!(QasmVersion::from_str("3.0"), Ok(QasmVersion::V3point0(Qasm3Dialect::Vanilla)));
}

#[test]
fn unknown_version_is_refused_with_message() {
    assert_eq!(
        QasmVersion::from_str("4.0"),
        Err(generic("Version for OpenQASM used is neither 2.0 nor 3.0: 4.0"))
    );
    assert_eq!(
        QasmVersion::from_str(""),
        Err(generic("Version for OpenQASM used is neither 2.0 nor 3.0: "))
    );
}

#[test]
fn version_parses_through_from_str_trait() {
    let v: Result<QasmVersion, BackendError> = "3.0Braket".parse();
    assert_eq!(v, Ok(QasmVersion::V3point0(Qasm3Dialect::Braket)));
}

#[test]
fn new_backend_defaults() {
    let b = Backend::new(None, None).unwrap();
    assert_eq!(b.qubit_register_name(), "q");
    assert_eq!(b.qasm_version(), QasmVersion::V2point0(Qasm2Dialect::Vanilla));
}

#[test]
fn new_backend_with_name_and_version() {
    let b = Backend::new(Some("qr".to_string()), Some("3.0Roqoqo".to_string())).unwrap();
    assert_eq!(b.qubit_register_name(), "qr");
    assert_eq!(b.qasm_version(), QasmVersion::V3point0(Qasm3Dialect::Roqoqo));
}

#[test]
fn new_backend_refuses_unknown_version() {
    let b = Backend::new(Some("qr".to_string()), Some("2.1".to_string()));
    assert_eq!(b, Err(generic("Version for OpenQASM used is neither 2.0 nor 3.0: 2.1")));
}

#[test]
fn empty_circuit_has_one_qubit() {
    let b = Backend::new(None, None).unwrap();
    let out = b.circuit_iterator_to_qasm_str(&standard(), &[]).unwrap();
    assert_eq!(out, format!("OPENQASM 2.0;\n\n{}\nqreg q[1];\n\n", standard_definitions()));
}

#[test]
fn simple_circuit_in_qasm_2() {
    let b = Backend::new(None, None).unwrap();
    let circuit = vec![
        gate("RotateX", vec![0], RX, "rx(0.1) q[0];"),
        gate("Hadamard", vec![2], H_DEF, "h q[2];"),
    ];
    let out = b.circuit_to_qasm_str(&standard(), &circuit).unwrap();
    let expected = format!(
        "OPENQASM 2.0;\n\n{}{}\n\nqreg q[3];\n\nrx(0.1) q[0];\nh q[2];\n",
        standard_definitions(),
        H_DEF
    );
    assert_eq!(out, expected);
}

#[test]
fn repeated_gate_is_defined_once() {
    let b = Backend::new(None, None).unwrap();
    let circuit = vec![
        gate("Hadamard", vec![0], H_DEF, "h q[0];"),
        gate("Hadamard", vec![1], H_DEF, "h q[1];"),
    ];
    let out = b.circuit_to_qasm_str(&standard(), &circuit).unwrap();
    assert_eq!(out.matches(H_DEF).count(), 1);
    assert!(out.ends_with("\nqreg q[2];\n\nh q[0];\nh q[1];\n"));
}

#[test]
fn register_size_uses_decimal_numeral() {
    let b = Backend::new(Some("reg".to_string()), Some("3.0".to_string())).unwrap();
    let circuit = vec![gate("PauliX", vec![3, 11, 7], "gate x a { u3(pi,0,pi) a; }", "x reg[11];")];
    let out = b.circuit_to_qasm_str(&standard(), &circuit).unwrap();
    assert!(out.starts_with("OPENQASM 3.0;\n\n"));
    assert!(out.ends_with("\nqubit[12] reg;\n\nx reg[11];\n"));
}

#[test]
fn qulacs_includes_standard_library() {
    let b = Backend::new(None, Some("2.0Qulacs".to_string())).unwrap();
    let circuit = vec![gate("Hadamard", vec![0], H_DEF, "h q[0];")];
    let out = b.circuit_to_qasm_str(&standard(), &circuit).unwrap();
    assert_eq!(out, "OPENQASM 2.0;\n\ninclude \"qelib1.inc\";\n\n\nqreg q[1];\n\nh q[0];\n");
}

#[test]
fn braket_has_no_definitions() {
    let b = Backend::new(None, Some("3.0Braket".to_string())).unwrap();
    let circuit = vec![gate("Hadamard", vec![1], H_DEF, "h q[1];")];
    let out = b.circuit_to_qasm_str(&standard(), &circuit).unwrap();
    assert_eq!(out, "OPENQASM 3.0;\n\n\nqubit[2] q;\n\nh q[1];\n");
}

#[test]
fn qasm_3_declares_each_variable_once() {
    let b = Backend::new(None, Some("3.0".to_string())).unwrap();
    let mut first = gate("RotateZ", vec![0], RZ, "rz(theta) q[0];");
    first.variables = vec!["theta".to_string(), "phi".to_string()];
    let mut second = gate("RotateZ", vec![1], RZ, "rz(theta) q[1];");
    second.variables = vec!["theta".to_string()];
    let out = b.circuit_to_qasm_str(&standard(), &vec![first, second]).unwrap();
    let expected = format!(
        "OPENQASM 3.0;\n\n{}\ninput angle[32] theta;\ninput angle[32] phi;\n\n\nqubit[2] q;\n\nrz(theta) q[0];\nrz(theta) q[1];\n",
        standard_definitions()
    );
    assert_eq!(out, expected);
}

#[test]
fn qasm_2_declares_no_variables() {
    let b = Backend::new(None, None).unwrap();
    let mut op = gate("RotateZ", vec![0], RZ, "rz(theta) q[0];");
    op.variables = vec!["theta".to_string()];
    let out = b.circuit_to_qasm_str(&standard(), &vec![op]).unwrap();
    assert!(!out.contains("input angle"));
}

#[test]
fn silent_operation_adds_no_line_break() {
    let b = Backend::new(None, None).unwrap();
    let mut pragma = gate("PragmaSetNumberOfMeasurements", vec![], "", "");
    pragma.involved_qubits = None;
    pragma.definition_line_break = false;
    pragma.instruction_line_break = false;
    let circuit = vec![pragma, gate("Hadamard", vec![0], H_DEF, "h q[0];")];
    let out = b.circuit_to_qasm_str(&standard(), &circuit).unwrap();
    let expected = format!("OPENQASM 2.0;\n\n{}{}\n\nqreg q[1];\n\nh q[0];\n", standard_definitions(), H_DEF);
    assert_eq!(out, expected);
}

#[test]
fn gate_definition_writes_its_body_first() {
    let b = Backend::new(None, None).unwrap();
    let body = vec![
        InnerOperation { hqslang: "Hadamard".to_string(), definition: Ok(H_DEF.to_string()) },
        InnerOperation { hqslang: "CNOT".to_string(), definition: Ok(CX.to_string()) },
    ];
    let definition = QasmOperation {
        hqslang: "GateDefinition".to_string(),
        involved_qubits: None,
        kind: OperationKind::GateDefinition { name: "bell".to_string(), circuit: body },
        definition: Ok("gate bell a,b { h a; cx a,b; }".to_string()),
        definition_line_break: true,
        instruction: Ok(String::new()),
        instruction_line_break: false,
        variables: Vec::new(),
    };
    let call = QasmOperation {
        hqslang: "CallDefinedGate".to_string(),
        involved_qubits: Some(vec![0, 1]),
        kind: OperationKind::Gate,
        definition: Ok(String::new()),
        definition_line_break: false,
        instruction: Ok("bell q[0],q[1];".to_string()),
        instruction_line_break: true,
        variables: Vec::new(),
    };
    let out = b.circuit_to_qasm_str(&standard(), &vec![definition, call]).unwrap();
    let expected = format!(
        "OPENQASM 2.0;\n\n{}{}\ngate bell a,b {{ h a; cx a,b; }}\n\nqreg q[2];\n\nbell q[0],q[1];\n",
        standard_definitions(),
        H_DEF
    );
    assert_eq!(out, expected);
}

#[test]
fn pragma_loop_body_is_defined() {
    let b = Backend::new(None, None).unwrap();
    let body = vec![InnerOperation { hqslang: "Hadamard".to_string(), definition: Ok(H_DEF.to_string()) }];
    let looped = QasmOperation {
        hqslang: "PragmaLoop".to_string(),
        involved_qubits: Some(vec![0]),
        kind: OperationKind::PragmaLoop { circuit: body },
        definition: Ok(String::new()),
        definition_line_break: false,
        instruction: Ok("for uint i in [0:1] { h q[0]; }".to_string()),
        instruction_line_break: true,
        variables: Vec::new(),
    };
    let out = b.circuit_to_qasm_str(&standard(), &vec![looped]).unwrap();
    let expected = format!(
        "OPENQASM 2.0;\n\n{}{}\n\nqreg q[1];\n\nfor uint i in [0:1] {{ h q[0]; }}\n",
        standard_definitions(),
        H_DEF
    );
    assert_eq!(out, expected);
}

#[test]
fn instruction_error_is_returned() {
    let b = Backend::new(None, None).unwrap();
    let mut op = gate("PragmaDamping", vec![0], "", "");
    let err = BackendError::OperationNotInBackend {
        backend: "QASM".to_string(),
        hqslang: "PragmaDamping".to_string(),
    };
    op.instruction = Err(err.clone());
    assert_eq!(b.circuit_to_qasm_str(&standard(), &vec![op]), Err(err));
}

#[test]
fn definition_error_of_new_gate_is_returned() {
    let b = Backend::new(None, None).unwrap();
    let mut op = gate("Hadamard", vec![0], "", "h q[0];");
    op.definition = Err(generic("no definition"));
    assert_eq!(b.circuit_to_qasm_str(&standard(), &vec![op]), Err(generic("no definition")));
}

#[test]
fn definition_error_of_seen_gate_is_not_read() {
    let b = Backend::new(None, None).unwrap();
    let first = gate("Hadamard", vec![0], H_DEF, "h q[0];");
    let mut second = gate("Hadamard", vec![0], "", "h q[0];");
    second.definition = Err(generic("not read"));
    assert!(b.circuit_to_qasm_str(&standard(), &vec![first, second]).is_ok());
}

#[test]
fn standard_definition_error_comes_first() {
    let b = Backend::new(None, None).unwrap();
    let mut std = standard();
    std.rotate_y = Err(generic("ry"));
    std.cnot = Err(generic("cx"));
    let mut op = gate("Hadamard", vec![0], H_DEF, "h q[0];");
    op.instruction = Err(generic("h"));
    assert_eq!(b.circuit_to_qasm_str(&std, &vec![op]), Err(generic("ry")));
}

#[test]
fn output_file_is_refused_only_when_it_exists_without_overwrite() {
    assert_eq!(
        Backend::check_output_file("out/c.qasm".to_string(), true, false),
        Err(BackendError::FileAlreadyExists { path: "out/c.qasm".to_string() })
    );
    assert_eq!(Backend::check_output_file("c.qasm".to_string(), true, true), Ok(()));
    assert_eq!(Backend::check_output_file("c.qasm".to_string(), false, false), Ok(()));
    assert_eq!(Backend::check_output_file("c.qasm".to_string(), false, true), Ok(()));
}

#[test]
fn backend_clone_is_equal() {
    let b = Backend::new(Some("r".to_string()), Some("2.0Qulacs".to_string())).unwrap();
    assert_eq!(b.clone(), b);
}

#[test]
fn appending_an_operation_extends_definitions_and_instructions() {
    let b = Backend::new(None, None).unwrap();
    let short = vec![gate("Hadamard", vec![0], H_DEF, "h q[0];")];
    let mut long = vec![gate("Hadamard", vec![0], H_DEF, "h q[0];")];
    long.push(gate("PauliX", vec![0], "gate x a { u3(pi,0,pi) a; }", "x q[0];"));
    let a = b.circuit_to_qasm_str(&standard(), &short).unwrap();
    let c = b.circuit_to_qasm_str(&standard(), &long).unwrap();
    let (a_defs, a_data) = a.split_once("\nqreg q[1];\n\n").unwrap();
    let (c_defs, c_data) = c.split_once("\nqreg q[1];\n\n").unwrap();
    assert!(c_defs.starts_with(a_defs));
    assert!(c_data.starts_with(a_data));
    assert_eq!(c_data, "h q[0];\nx q[0];\n");
}

#[test]
fn failing_nested_definition_leaves_its_name_marked() {
    let circuit = vec![
        InnerOperation { hqslang: "Hadamard".to_string(), definition: Ok(H_DEF.to_string()) },
        InnerOperation { hqslang: "CNOT".to_string(), definition: Err(generic("not read")) },
        InnerOperation { hqslang: "PauliX".to_string(), definition: Err(generic("x")) },
        InnerOperation { hqslang: "PauliY".to_string(), definition: Ok("gate y a { u3(pi,pi/2,pi/2) a; }".to_string()) },
    ];
    let mut seen = vec!["CNOT".to_string()];
    let mut declarations = "start\n".to_string();
    let r = process_operation_circuit(&circuit, &mut seen, &mut declarations);
    assert_eq!(r, Err(generic("x")));
    assert_eq!(seen, vec!["CNOT".to_string(), "Hadamard".to_string(), "PauliX".to_string()]);
    assert_eq!(declarations, format!("start\n{}\n", H_DEF));
}

#[test]
fn nested_definitions_are_added_once() {
    let circuit = vec![
        InnerOperation { hqslang: "Hadamard".to_string(), definition: Ok(H_DEF.to_string()) },
        InnerOperation { hqslang: "Hadamard".to_string(), definition: Ok(H_DEF.to_string()) },
    ];
    let mut seen = Vec::new();
    let mut declarations = String::new();
    assert_eq!(process_operation_circuit(&circuit, &mut seen, &mut declarations), Ok(()));
    assert_eq!(seen, vec!["Hadamard".to_string()]);
    assert_eq!(declarations, format!("{}\n", H_DEF));
}

#[test]
fn later_repeat_of_earlier_gate_adds_only_its_instruction() {
    let b = Backend::new(None, None).unwrap();
    let circuit = vec![
        gate("Hadamard", vec![0], H_DEF, "h q[0];"),
        gate("PauliX", vec![1], "gate x a { u3(pi,0,pi) a; }", "x q[1];"),
        gate("Hadamard", vec![1], H_DEF, "h q[1];"),
    ];
    let out = b.circuit_to_qasm_str(&standard(), &circuit).unwrap();
    assert_eq!(out.matches(H_DEF).count(), 1);
    assert!(out.ends_with("\nqreg q[2];\n\nh q[0];\nx q[1];\nh q[1];\n"));
}
