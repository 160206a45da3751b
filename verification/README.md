# patchiest

A structural code-mutation engine driven by protocol actions (`MUTATE_CALL`,
`TRANSLATE_DIALECT`, `RESTRUCTURE_TOPOLOGY`, `MANAGE_IMPORT`, `READ_TOPOLOGY`,
`EXECUTE_RECIPE`), written in Verus.  Source text is parsed with `ast-grep`;
everything the engine decides from the syntax tree is verified.

Layout:

- `src/text.rs` — character-level string operations with exact specifications.
- `src/edits.rs` — byte-range edits and how a batch of them is applied.
- `src/syntax.rs` — the syntax tree as a pre-order list of plain nodes; the
  calls into `ast-grep`.
- `src/helpers.rs` — call-snippet rewriting and finding the callable that
  encloses a name.
- `src/actions.rs` — what each action yields on a syntax tree.
- `src/engine.rs` — running a payload's actions in order and deciding the
  report's status.
- `src/cli.rs` — the command line's decisions (arguments, refused input,
  payload selection).
- `src/models.rs`, `src/registry.rs` — the protocol's data and the recipe
  catalogue.
- `app/` — the program: reading input, JSON decoding and encoding, file I/O.
