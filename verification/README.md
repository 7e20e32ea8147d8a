# tau_core

The core of a local-first coding agent, as a library whose logic is proved
with Verus: every function under `src/` carries a `requires`/`ensures`
contract over mathematical models (`Seq`, `Set`, spec functions), and the
laws that span functions are public proof functions.

- `src/text.rs` — character-level text helpers (trim, split, lines, find,
  words, decimal digits) with their specifications.
- `src/hashline.rs` — hash-anchored read/edit: 3-character line anchors
  allocated uniquely per file, survivor reuse across edits, strict
  rejection of stale or malformed anchors.
- `src/om.rs`, `src/om/` — observational memory: token estimates, trigger
  thresholds, buffered-chunk activation, the append-only observation log,
  observation groups (wrap, parse, strip, ranges, provenance) and the
  reflector prompt.
- `src/om_integration.rs` — the memory in a running session: the active
  branch of the entry tree, transcripts, the turn-end plan and its commit,
  promotion of buffered chunks, the overflow ladder of a frozen prefix, the
  raw window, and the `recall` tool.
- `src/provider.rs`, `src/provider/` — the server-sent-events parser, the
  stream-frame fold into a turn result, the retry decision, and the
  request's input items.
- `src/session.rs`, `src/session/` — the session store's bookkeeping, file
  paths, entry ids, line checksums, the lines a paged read takes, header
  rewrites, sidecar blobs and archives.
- `src/skills.rs` — skill files: frontmatter, validation messages, the
  catalog, and the registry rule (project wins, first in a scope wins).
- `src/harness.rs`, `src/harness/` — the decisions of the command surface:
  session names, the files pane's stale directories and directory
  listings, file pages, thinking budgets, the subtree a delete takes, the
  children an archive takes, the merged session listing, snapshot previews,
  usage and model notes, the post-turn reconciliation, the event pipe's
  drop bookkeeping, workspace identity and its open flag, `/skill:`
  invocations and the refusals each operation answers with.

`app/` is the ordinary Rust around the library: file-system walks and
reads, the JSON shapes of session lines, provider frames and the
workspace index, the floating-point memory configuration, and the `names`
dictionaries.
