//! The error type of the backend.
use vstd::prelude::*;

verus! {

/// Errors the QASM backend reports.
#[derive(Debug, PartialEq, Eq)]
pub enum BackendError {
    /// The operation is not supported by the backend.
    OperationNotInBackend {
        /// Name of the backend.
        backend: String,
        /// hqslang name of the operation.
        hqslang: String,
    },
    /// The file at this location already exists.
    FileAlreadyExists {
        /// Path of the file to be created.
        path: String,
    },
    /// A generic error with a message.
    GenericError {
        /// The error message.
        msg: String,
    },
    /// An error raised by roqoqo itself, carried as its message.
    RoqoqoError {
        /// The error message.
        msg: String,
    },
    /// An error raised while evaluating a symbolic parameter, carried as its message.
    CalculatorError {
        /// The error message.
        msg: String,
    },
}

impl BackendError {
    /// Returns an equal copy of this error.
    pub fn duplicate(&self) -> (r: BackendError)
        ensures
            r == *self,
    {
        match self {
            BackendError::OperationNotInBackend { backend, hqslang } => BackendError::OperationNotInBackend {
                backend: backend.clone(),
                hqslang: hqslang.clone(),
            },
            BackendError::FileAlreadyExists { path } => BackendError::FileAlreadyExists {
                path: path.clone(),
            },
            BackendError::GenericError { msg } => BackendError::GenericError { msg: msg.clone() },
            BackendError::RoqoqoError { msg } => BackendError::RoqoqoError { msg: msg.clone() },
            BackendError::CalculatorError { msg } => BackendError::CalculatorError { msg: msg.clone() },
        }
    }
}

impl Clone for BackendError {
    fn clone(&self) -> (r: BackendError)
        ensures
            r == *self,
    {
        self.duplicate()
    }
}

} // verus!
