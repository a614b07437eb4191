[package]
name = "roqoqo-qasm"
version = "0.1.0"
edition = "2021"
publish = false

[dependencies]
roqoqo = { version = "=1.22.2", features = ["unstable_operation_definition"] }
qoqo_calculator = "=1.9.1"
