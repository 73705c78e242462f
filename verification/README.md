# vecvec

The engine behind an in-memory-primary vector database with git-like versioning of
collections, written in Rust and verified with Verus.

- `src/` is the engine. It performs no I/O and holds no floating point: vector components
  are whatever a `Kernel` works on, scores are totally ordered bit patterns, and files are
  byte buffers. Contracts say what each function returns or changes.
  - `ordered`, `id`, `text`, `sorting`, `ranking`, `idset`: ordered floats, identifiers and
    the orderings everything else rests on.
  - `distance`, `vector`, `quantization`: metrics, kernels, vector storage, int8 codes.
  - `index`: exact search, and the HNSW graph: construction, sealing, search, and the
    concurrent builder.
  - `segment`: appendable and sealed segments, and the plain record of a sealed one.
  - `version`: manifests, deletion vectors, the version store, commit policies.
  - `collection`: inserts, deletes, search, time travel, commit, restore, compaction,
    garbage collection, recovery.
  - `payload`, `lines`, `jsonl`, `query`: JSON payloads and filters, lines of text, import
    lines, rank fusion.
  - `persist`, `durable`: framed files, the log, replay and checkpoints.
- `app/` is the program around it: the `f32` kernel, files, serialization, the CLI.
- `tests/` run the engine, mostly over an `f32` kernel.

Functions named `law_*` state what holds across operations: a commit freezes the live view,
a restore brings it back, compaction keeps every row, replaying the log reproduces live
writes, a checkpoint survives a restart, no later operation changes what a retained version
shows, a version id is never reused, and so on.
