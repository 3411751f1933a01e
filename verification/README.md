# Scope environment

A verified library for lexical scopes held in a flat arena. Blocks form a
left-child/right-sibling tree; regions own contiguous block ranges and hold
the symbol bindings of their blocks; a first-fit range allocator recycles the
ranges of released regions. Lookups climb parent links from a cursor.

Layout:

- `src/env.rs` – the `Context` (its abstract state `ContextView`, the
  well-formedness invariant and the operations with their contracts).
- `src/env/allocator.rs` – the block range allocator.
- `src/env/region.rs`, `src/env/block.rs`, `src/env/cursor.rs` – records and
  handles.
- `src/env/iter.rs` – borrowing tree cursors.
- `src/env/ranges.rs`, `src/env/wf_proofs.rs` – disjointness of owned ranges
  and the proofs that every operation keeps a context well formed.
- `src/env/laws.rs`, `src/env/scope.rs` – properties spanning several
  operations: ranges never overlap, first-fit reuse, the identifier limit,
  what a binding makes visible, lookups ending on a forest of parent links,
  the scoping discipline under which every lookup ends and a new block or
  nested region sees exactly its enclosing scopes, and what a pushed block
  sees and keeps in general.
- `src/env/runs.rs` – runs of public calls: every state stays well formed
  and the arena never shrinks.
- `src/scenarios.rs` – sample programs: the scopes of a small nested
  program, cursors walking them, and scopes built from nested regions.
- `app/main.rs` – a demonstration program that runs the samples.
- `tests/` – tests run against the compiled library.
