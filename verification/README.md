# org_tools_core

Parsing, linting, formatting and editing of org-mode files, written in Verus.
Every function under `src/` carries a `requires`/`ensures` contract that Verus
proves; the few calls into std and outside crates that Verus cannot read stand
behind small trusted wrappers whose doc comments say what they claim.

## Layout

- `src/document.rs` — the document model: `OrgDocument::from_source` reads the
  preamble (`#+KEY:` lines, file drawer), every heading line as an entry with
  its planning line, property drawer and clock lines, and links entries into a
  tree.
- `src/edna.rs` — the `:BLOCKER:`/`:TRIGGER:` expression language: parser,
  finders, conditions, `is_blocked` and `blocking_details`.
- `src/archive.rs`, `src/cookie.rs`, `src/state.rs`, `src/id.rs` — edits of a
  document, each returned as new text or as fixes that splice into the text.
- `src/locator.rs` — stable locators of entries and their resolution.
- `src/tblfm.rs`, `src/rules/format/table_formatter.rs` — table formulas and
  table alignment.
- `src/rules/` and `src/runner.rs` — lint and format rules and the runner that
  applies them; `src/diagnostic.rs` holds diagnostics and fixes.
- `src/cache.rs` — what the index of a file records.
- `app/` — the unverified edge: file and database I/O, external commands,
  floating-point formula evaluation.
- `tests/` — tests run against the compiled library.

## Laws

Besides each function's own contract, public proof functions state properties
that span functions, for example `lemma_locator_round_trip` (a locator built
for an entry resolves back to it), `lemma_details_empty_iff_unblocked`,
`lemma_slug_idempotent`, `lemma_slug_letters`, `lemma_archivable_exact` and
`lemma_archivable_ordered`.

Text offsets in spans and fixes count characters.
