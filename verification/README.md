# fastbogo

A client that searches shuffles of 1..=25 for the one with the most fixed points, with
the search kernel verified in Verus.

Each candidate index of a seed gets its own xoshiro128++ stream, seeded by two splitmix64
steps; a Fisher-Yates shuffle driven by uniform (rejection-sampled) draws arranges 1..=25,
and the candidate scores the number of positions that keep their own value. A search of a
range returns the first candidate with the highest score.

## Layout

- `src/rng.rs`: splitmix64 seeding, the xoshiro128++ stream, the rejection draw, and the
  cursor over consecutive candidates; proves that a candidate's state is never all zero.
- `src/kernel.rs`: the model of a shuffle and its fixed points, the bitmask scorer with
  pruning (proved to return the exact score whenever it beats the floor), and the range
  search (proved to return the first best candidate, whatever the tuning).
- `src/libdivide.rs`: division by a constant through a multiply and two shifts, proved
  equal to `%` for every 32-bit dividend.
- `src/kernel_simd.rs`: the eight-lane search written as lanes of plain arrays, with
  plain-remainder draws and exact re-scoring; proved to agree with the scalar search when
  no candidate's lane score falls below its true score.
- `src/benchmark.rs`, `src/worker.rs`, `src/session.rs`, `src/text.rs`: how leases are
  split and merged, a worker's chunked progress, the session state driven by server
  messages, and the command-line list parsing.
- `app/main.rs`: the command-line program around the library: networking, threads,
  timing, JSON, and printing.
