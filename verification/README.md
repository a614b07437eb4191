# roqoqo-qasm

Writes quantum circuits as OpenQASM 2.0 or 3.0 text, with the translation
logic verified by Verus.

- `src/version.rs`: the OpenQASM versions and dialects, read from their names.
- `src/backend.rs`: the backend (register name and version) and its entry points.
- `src/operation.rs`: the values the translation reads of each operation: its
  hqslang name, involved qubits, nested circuit, and its rendered QASM
  definition and instruction.
- `src/translate.rs`: the specification of the output as a fold over the
  circuit, and the code that computes it.
- `src/laws.rs`: properties proved of every translation (layout of the output,
  definitions written once per name, errors only from the rendered inputs,
  success whenever every input renders).
- `src/text.rs`: decimal numerals and name lookups.
- `app/`: the roqoqo front end: converts roqoqo operations and errors, and
  writes QASM files.
