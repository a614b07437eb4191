//! The QASM backend: its configuration and the translation entry points.
use vstd::prelude::*;
use crate::error::BackendError;
use crate::operation::{qubits_in_range, QasmOperation, StandardDefinitions};
use crate::translate::{spec_translate, translate_circuit};
use crate::laws::{lemma_rendered_circuit_translates, renders_ok};
use crate::version::{spec_parse_version, spec_version_error_message, Qasm2Dialect, QasmVersion};

verus! {

/// QASM backend: writes circuits as OpenQASM 2.0 or 3.0 text.
///
/// roqoqo addresses qubits in one address space; QASM declares an explicit
/// qubit register, whose name the backend holds, together with the version
/// and dialect of OpenQASM it writes.
#[derive(Debug, PartialEq, Eq)]
pub struct Backend {
    qubit_register_name: String,
    qasm_version: QasmVersion,
}

/// What a backend is: the name of its qubit register and the QASM version it writes.
pub struct BackendView {
    /// The name of the qubit register.
    pub register: Seq<char>,
    /// The version and dialect of OpenQASM.
    pub version: QasmVersion,
}

impl View for Backend {
    type V = BackendView;

    closed spec fn view(&self) -> BackendView {
        BackendView { register: self.qubit_register_name@, version: self.qasm_version }
    }
}

/// The register name a backend gets: the given one, or `q`.
pub open spec fn spec_register_name(name: Option<String>) -> Seq<char> {
    match name {
        Some(s) => s@,
        None => "q"@,
    }
}

/// Whether every operation of a circuit names only qubit indices below `usize::MAX`.
pub open spec fn circuit_in_range(circuit: Seq<QasmOperation>) -> bool {
    forall|i: int| 0 <= i < circuit.len() ==> qubits_in_range(#[trigger] circuit[i])
}

impl Clone for Backend {
    fn clone(&self) -> (r: Backend)
        ensures
            r == *self,
    {
        Backend { qubit_register_name: self.qubit_register_name.clone(), qasm_version: self.qasm_version }
    }
}

impl Backend {
    /// Creates a new QASM backend.
    ///
    /// The register is named `qubit_register_name`, `q` by default; the
    /// version is read from `qasm_version` (see [`QasmVersion::from_str`]),
    /// OpenQASM 2.0 Vanilla by default. A version string that names no version
    /// is an error.
    pub fn new(qubit_register_name: Option<String>, qasm_version: Option<String>) -> (r: Result<
        Self,
        BackendError,
    >)
        ensures
            match qasm_version {
                None => r matches Ok(b) && b@.register == spec_register_name(qubit_register_name)
                    && b@.version == QasmVersion::V2point0(Qasm2Dialect::Vanilla),
                Some(v) => match spec_parse_version(v@) {
                    Some(ver) => r matches Ok(b) && b@.register == spec_register_name(qubit_register_name)
                        && b@.version == ver,
                    None => r matches Err(BackendError::GenericError { msg })
                        && msg@ == spec_version_error_message(v@),
                },
            },
            (r is Ok && qubit_register_name is Some) ==> r->Ok_0@.register == qubit_register_name->Some_0@,
            (r is Ok && qubit_register_name is None) ==> r->Ok_0@.register == "q"@,
    {
        let qubit_reg = match qubit_register_name {
            None => "q".to_owned(),
            Some(s) => s,
        };
        let qasm_v = match qasm_version {
            None => QasmVersion::V2point0(Qasm2Dialect::Vanilla),
            Some(v) => match QasmVersion::from_str(v.as_str()) {
                Ok(ver) => ver,
                Err(e) => {
                    return Err(e);
                },
            },
        };
        Ok(Backend { qubit_register_name: qubit_reg, qasm_version: qasm_v })
    }

    /// The name of the qubit register.
    pub fn qubit_register_name(&self) -> (r: &str)
        ensures
            r@ == self@.register,
    {
        self.qubit_register_name.as_str()
    }

    /// The version and dialect of OpenQASM the backend writes.
    pub fn qasm_version(&self) -> (r: QasmVersion)
        ensures
            r == self@.version,
    {
        self.qasm_version
    }

    /// Translates a sequence of operations to QASM text.
    ///
    /// `standard` holds the definitions of the rotations and the controlled
    /// NOT that every output defines up front. The result is the text that
    /// [`spec_translate`] describes, or the first error among the rendered
    /// definitions and instructions it reads.
    pub fn circuit_iterator_to_qasm_str(
        &self,
        standard: &StandardDefinitions,
        circuit: &[QasmOperation],
    ) -> (r: Result<String, BackendError>)
        requires
            circuit_in_range(circuit@),
        ensures
            match spec_translate(self@.version, self@.register, *standard, circuit@) {
                Ok(s) => r matches Ok(t) && t@ == s,
                Err(e) => r == Err::<String, BackendError>(e),
            },
            renders_ok(*standard, circuit@) ==> r is Ok,
    {
        proof {
            if renders_ok(*standard, circuit@) {
                lemma_rendered_circuit_translates(self@.version, self@.register, *standard, circuit@);
            }
        }
        translate_circuit(self.qasm_version, self.qubit_register_name.as_str(), standard, circuit)
    }

    /// Translates a circuit to QASM text; see [`Backend::circuit_iterator_to_qasm_str`].
    pub fn circuit_to_qasm_str(&self, standard: &StandardDefinitions, circuit: &Vec<QasmOperation>) -> (r:
        Result<String, BackendError>)
        requires
            circuit_in_range(circuit@),
        ensures
            match spec_translate(self@.version, self@.register, *standard, circuit@) {
                Ok(s) => r matches Ok(t) && t@ == s,
                Err(e) => r == Err::<String, BackendError>(e),
            },
            renders_ok(*standard, circuit@) ==> r is Ok,
    {
        self.circuit_iterator_to_qasm_str(standard, circuit.as_slice())
    }

    /// Decides whether the QASM text may be written to `path`: refused with
    /// `FileAlreadyExists` when a file is there and `overwrite` is false.
    pub fn check_output_file(path: String, file_exists: bool, overwrite: bool) -> (r: Result<(), BackendError>)
        ensures
            file_exists && !overwrite ==> r == Err::<(), BackendError>(BackendError::FileAlreadyExists { path }),
            !(file_exists && !overwrite) ==> r is Ok,
    {
        if file_exists && !overwrite {
            Err(BackendError::FileAlreadyExists { path })
        } else {
            Ok(())
        }
    }
}

} // verus!
