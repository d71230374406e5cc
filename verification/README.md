# compete_spec

The logic of a competitive-programming workspace tool, verified with Verus:
reading problem statements and their constraints, writing and resolving
test-suite sections, rendering random test inputs whose values, in every
block of the format, keep the declared ranges and charsets (and, at the top
level, the `ordering` / `not_equal` pairs), and the decisions of the `test`
command.

Every function in `src/` has a `requires` / `ensures` contract that Verus
proves. The few calls into outside crates (`regex`, `rand`, `camino`, `heck`,
`toml_edit`) and into std where vstd gives no specification stand behind
small trusted items, each with a doc comment saying what its contract
claims of the outside function.

Layout of `src/`:

- `text.rs`, `maps.rs`: character-sequence helpers and text-keyed maps and
  sets, kept in ascending key order by a type invariant.
- `regex_ops.rs`: the regular-expression calls and what is stated of them.
- `parse/`: statement HTML, constraint lines, input formats, orderings and
  ranges, and the YAML text of test-suite sections.
- `random_test/`: resolving a section, the strategies, the renderers of
  each format block, the generation of named cases, and the `Cargo.toml`
  registration of the cross-check binary.
- `template.rs`, `project.rs`, `commands.rs`, `testing.rs`, `interrupt.rs`:
  code templates, package metadata, command-line decisions, test runs and
  system test cases.

`tests/` exercises the library on concrete values. Reading and writing
files, running processes and printing are left to the caller.
