# Layer contracts, verified

A small task and order application with explicit architectural layers, and
the engine that checks such layers: the reference graph of a crate's
modules, its text interchange format, and policies that say which layer owns
each module and which layers may reference which. Everything under `src/` is
verified with Verus, except three small trusted wrappers of std in
`src/text.rs`, whose contracts are believed: `push_char` (`String::push`),
`string_from_utf8` (`String::from_utf8`, its error given as its message) and
`debug_str` (`str`'s `Debug` text).

## Layout

- `src/text.rs`: character-level helpers (string order, Unicode trimming,
  decimal and hexadecimal text, substring search).
- `src/graph.rs`: modules and references, kept as sorted sets; validation,
  the `layer-graph-v1` encoding and the Graphviz export.
- `src/wire.rs`: decoding `layer-graph-v1`; decoding what encoding wrote
  gives the graph back (`lemma_wire_roundtrip`), and text cut short or
  followed by more is refused.
- `src/cycle.rs`: depth-first search for a cycle; the cycle it returns is a
  simple cycle, and it returns none exactly when the graph has none.
- `src/collect.rs`: building the graph from what the compiler resolved:
  which references are recorded, and how the type of an expression is
  followed, up to a nesting limit.
- `src/policy.rs`: layers, findings, `Policy::check` and `Policy::report`,
  each with a contract that gives the exact outcome.
- `src/pup.rs`: the logic of the architecture harness: rule lookup, path
  normalisation, generated lint configuration, and judging a lint run.
- `src/domain.rs`, `src/application.rs`, `src/infrastructure.rs`,
  `src/presentation.rs`: tasks and orders, the use case that places an
  order, an in-memory task store, and the adapter that renders receipts.
- `app/main.rs`: the command-line entry point that stores one task.
- `tests/`: executable tests of the library.
