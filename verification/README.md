# binpack_to_h5

Converts Stockfish binpack training data into the HDF5 `sparse_v1` layout
(HalfP features, white point of view), with the conversion core verified by
Verus.

- `src/` — the verified library:
  - `chess`: plain-value boards, moves and training entries, read from
    sfbinpack values; the in-check test goes through sfbinpack.
  - `filter`: capture / in-check / malformed-entry tests.
  - `encoding`: HalfP feature encoding and the integer part of score
    normalization.
  - `pipeline`: per-entry outcome, batch encoding, the val split and the
    reader's numbering of entries into batches.
  - `h5_writer`: per-split position buffers, the layout of flushed chunks in
    the datasets, and the writer's routing and flushing decisions.
- `app/` — the program: command line, binpack reading, worker threads,
  float normalization and the HDF5 writes.
- `tests/` — tests of the library.
