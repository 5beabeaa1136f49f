# Acyclic filesystem

Verified core of a local filesystem state engine: content-addressed objects,
authenticated pages, and a Git-shaped compatibility layer over exact filesystem
generations. The library under `src/` is written in Verus; every function states
what it returns or changes, and its proofs are checked with the code.

- `digest`, `foundation`, `order`, `sort`, `text`, `performance`, `storage`:
  identities, ordered collections, text, work accounting and object stores.
- `kernel`: canonical page codecs, blob indexes, extent trees, attributes, file
  tables, batched lookups and listings, namespaces, whole-generation proofs,
  checkpoints and export manifests.
- `git`: commands, history, bisection, ignore rules, patches, captures and the state
  machine that publishes compatibility state.
- `hosted`: messages, limits and checks of the hosted service client.

`app/` holds the asynchronous edges: drivers over stores, workspaces, executors
and transports, and the serialized forms of repository state. `tests/` runs the library.
