# mpdelta

Verified building blocks of the mpdelta video editor, written in Verus.

`src/` is the library. Its functions are verified by Verus, but for the
small wrappers around calls into outside crates and std, whose short
contracts are trusted and name the call they stand for. Where a result
depends on another thread, the clock or randomness, the contract says what
holds of every outcome:

- `union_find` — disjoint sets with path compression; the contracts say which
  representative each key has after every call.
- `history` — per-key undo and redo histories with a bounded length.
- `invalidate_range` — sets of invalid frames kept as sorted, disjoint,
  merged intervals in a persistent tree (`rpds`), with the point-by-point
  meaning of every answer proved.
- `rendering_controller` — the look-ahead policy that decides which frames to
  render and which to evict.
- `signal_queue` — the ring of audio samples that a producer and the audio
  callback share: each operation on the ring state is stated exactly, and
  the two ends of the queue, which meet the other thread's changes between
  calls, state their outcome over the ring as each call found it.
- `project_editor` — the decisions of the project editor: where a pin may be
  split, which neighbours a newly locked pin is measured against, whether a
  pin may be unlocked, how links are re-anchored when a component or a
  marker is deleted, which link goes when two pins are connected, and which
  links follow a move of a pin or a component or a new length of the root.
- `project_format` — the header of a project file.
- `multimedia` — file formats and the validation of codec options.
- `id_generator` — version 1 UUIDs from the clock and a counter (`uuid`,
  `time`).
- `heartbeat`, `thread_cancel` — liveness and cancellation flags.
- the remaining modules hold the plain data types of the renderer, the
  project file format and the services.

`tests/` runs the library. `app/` holds what Verus does not take: the
executable, the serde and thiserror copies of library types, floating-point
options, trait-object plumbing and file access.
