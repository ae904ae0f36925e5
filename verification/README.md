# trufflepig

Code search for a repository: an index of its sources, embeddings of their regions, and the
services that answer from both.

## Layout

- `src/` is the library. Every function states what it returns or changes, and Verus proves it.
  The methods of the `Engine`, `RerankEngine` and `RootIdent` traits have no contract of their
  own: an implementation may answer anything, and what calls it is proved for every answer.
  - `store` cuts sources into regions, stages and publishes an index, resolves names and module
    paths, and warms the cache of a worktree.
  - `semantic` holds the embedding cache, the plan of inference batches, the preparation of a
    generation, and the worker that serves embeddings and scores to many roots.
  - `source` acquires and pages sources; `system` and `workspace` decide what a daemon does with a
    request.
  - `text`, `unicode`, `paths`, `digest` and `tables` are what the rest is written with.
- `tests/` runs the library on concrete values.
- `app/` is the program around it: files, sockets, SQLite, CUDA and ONNX Runtime.

## What is believed

The library calls `serde_json`, `toml`, `sha2`, `blake3` and `uuid`, and some functions of the
standard library that Verus does not specify. Each such call stands in a small function whose
contract is believed, with a comment that says what it claims.

Vectors and scores cross the library as the bits of their floats. Lengths and similarities of
vectors are computed in `app/`.
