# etch

The verified core of the Etch circuit-description language toolchain, written
in Verus. Every function in `src/` carries a contract over mathematical
models (spec functions over sequences, sets and maps) that Verus proves.

## Layout

- `src/lexer.rs`, `src/parser.rs`, `src/scoping.rs`, `src/compile.rs`: the
  language front end. The lexer and the parser are each specified by a
  grammar written as spec functions; the parser produces a uniform syntax
  tree. Name resolution assigns scopes and reports undefined names; the
  front end runs the three stages over a source text.
- `src/resolver.rs`, `src/semantic.rs`, `src/results.rs`, `src/ast.rs`,
  `src/operations.rs`: symbols and scopes, the type algebra and typing rules
  of the checker, and value-with-diagnostics accumulation.
- `src/highlighting.rs`, `src/tokenizer.rs`, `src/editor.rs`: editor
  support: highlighting, positions and byte offsets, completions, hovers and
  semantic tokens.
- `src/circuit.rs`, `src/layering.rs`: the circuit design (nodes, wires,
  components, net labels, sections), net roots and names, and the column of
  each component in a schematic.
- `src/sexpr.rs`, `src/kicad.rs`: S-expressions and the KiCad
  symbol-library text processing (definitions, inheritance, pins, reference
  designators).
- `src/cli.rs`: the command-line rules on output paths, display file names
  and test reports.
- `src/text.rs`: character-level helpers shared by the modules above.
- `app/main.rs`: the `etch check` command: file reading, import following
  and printing around the verified front end.
- `tests/`: tests of the library through its public interface.
