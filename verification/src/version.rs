//! The OpenQASM versions and dialects the backend writes.
use vstd::prelude::*;
use crate::error::BackendError;

verus! {

/// Dialects of OpenQASM 2.0.
#[derive(Debug, Clone, Copy, PartialEq, Eq, Structural)]
pub enum Qasm2Dialect {
    /// Vanilla OpenQasm 2.0
    Vanilla,
    /// Without gate definitions
    Qulacs,
}

/// Dialects of OpenQASM 3.0.
#[derive(Debug, Clone, Copy, PartialEq, Eq, Structural)]
pub enum Qasm3Dialect {
    /// No Pragma operations
    Vanilla,
    /// With Pragma operations
    Roqoqo,
    /// With Braket's Pragma operations
    Braket,
}

/// The version of OpenQASM the backend writes.
#[derive(Debug, Clone, Copy, PartialEq, Eq, Structural)]
pub enum QasmVersion {
    /// OpenQASM 2.0
    V2point0(Qasm2Dialect),
    /// OpenQASM 3.0
    V3point0(Qasm3Dialect),
}

/// The version named by `s`, if `s` names one.
pub open spec fn spec_parse_version(s: Seq<char>) -> Option<QasmVersion> {
    if s == "2.0"@ || s == "2.0Vanilla"@ {
        Some(QasmVersion::V2point0(Qasm2Dialect::Vanilla))
    } else if s == "2.0Qulacs"@ {
        Some(QasmVersion::V2point0(Qasm2Dialect::Qulacs))
    } else if s == "3.0Roqoqo"@ {
        Some(QasmVersion::V3point0(Qasm3Dialect::Roqoqo))
    } else if s == "3.0Braket"@ {
        Some(QasmVersion::V3point0(Qasm3Dialect::Braket))
    } else if s == "3.0Vanilla"@ || s == "3.0"@ {
        Some(QasmVersion::V3point0(Qasm3Dialect::Vanilla))
    } else {
        None
    }
}

/// The message of the error for a string that names no version.
pub open spec fn spec_version_error_message(s: Seq<char>) -> Seq<char> {
    "Version for OpenQASM used is neither 2.0 nor 3.0: "@ + s
}

/// Whether two strings hold the same characters.
pub fn str_equal(a: &str, b: &str) -> (r: bool)
    ensures
        r == (a@ == b@),
{
    a.to_owned() == b.to_owned()
}

impl QasmVersion {
    /// Reads a version from its name: `2.0`, `2.0Vanilla`, `2.0Qulacs`,
    /// `3.0`, `3.0Vanilla`, `3.0Roqoqo` or `3.0Braket`.
    pub fn from_str(s: &str) -> (r: Result<QasmVersion, BackendError>)
        ensures
            spec_parse_version(s@) matches Some(v) ==> r == Ok::<QasmVersion, BackendError>(v),
            spec_parse_version(s@) is None ==> (r matches Err(BackendError::GenericError { msg })
                && msg@ == spec_version_error_message(s@)),
    {
        if str_equal(s, "2.0") || str_equal(s, "2.0Vanilla") {
            Ok(QasmVersion::V2point0(Qasm2Dialect::Vanilla))
        } else if str_equal(s, "2.0Qulacs") {
            Ok(QasmVersion::V2point0(Qasm2Dialect::Qulacs))
        } else if str_equal(s, "3.0Roqoqo") {
            Ok(QasmVersion::V3point0(Qasm3Dialect::Roqoqo))
        } else if str_equal(s, "3.0Braket") {
            Ok(QasmVersion::V3point0(Qasm3Dialect::Braket))
        } else if str_equal(s, "3.0Vanilla") || str_equal(s, "3.0") {
            Ok(QasmVersion::V3point0(Qasm3Dialect::Vanilla))
        } else {
            let mut msg = "Version for OpenQASM used is neither 2.0 nor 3.0: ".to_owned();
            msg.append(s);
            Err(BackendError::GenericError { msg })
        }
    }
}

impl std::str::FromStr for QasmVersion {
    type Err = BackendError;

    fn from_str(s: &str) -> (r: Result<QasmVersion, BackendError>)
        ensures
            spec_parse_version(s@) matches Some(v) ==> r == Ok::<QasmVersion, BackendError>(v),
            spec_parse_version(s@) is None ==> (r matches Err(BackendError::GenericError { msg })
                && msg@ == spec_version_error_message(s@)),
    {
        QasmVersion::from_str(s)
    }
}

} // verus!
