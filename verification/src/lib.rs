//! Translation of quantum circuits to OpenQASM 2.0 and 3.0 text.
//!
//! The circuit is handed to the library as a sequence of [`operation::QasmOperation`]
//! values: each one carries what the translation reads of a roqoqo operation
//! (its hqslang name, the qubits it touches, the nested circuit of a gate
//! definition or pragma) together with its rendered QASM definition and
//! instruction text.
use vstd::prelude::*;

pub mod error;
pub mod version;
pub mod operation;
pub mod text;
pub mod translate;
pub mod backend;
pub mod laws;

verus! {

} // verus!
