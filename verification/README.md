# kontra

Contracts as code: a small language for legal agreements (parties, events,
terms, obligations, remedies with phases), compiled to bytecode, run by a VM
into a contract model, and evaluated over time by a runtime engine that can
simulate what-if scenarios, trace breach cascades and diff two versions.

The library in `src/` is written in Verus: each public function carries a
contract over mathematical models of its data, and Verus proves the code
against it.

- `scanner`, `token`: the lexer; `grammar` states the language and its
  compilation as spec functions over the scanner's tokens, and `compiler`
  is proved to emit exactly what `grammar::compile_result` says, or its first
  error.
- `chunk`, `vm`: bytecode and the machine that builds a `ContractDef`.
- `types`, `namemap`, `calendar`, `dates`: the contract model, ordered name
  maps, business-day arithmetic; `dates` reads and writes dates through chrono.
- `semantics`, `engine`, `cascade`: obligation states, evaluation to a fixed
  point, simulation, breach cascades.
- `diff`: semantic comparison of two contracts and risk warnings.
- `config`, `cli`: calendar configuration and the command-line decisions;
  `app/` holds the binary (argument handling, files, JSON, the REPL loop).
