# task_pool

Storage-engine building blocks with machine-checked contracts.

`src/` is the library, verified with Verus:

- `foundations/endianness.rs`: little- and big-endian integer encodings and a
  fixed 7-byte record format, with round-trip laws.
- `foundations/row_vs_col.rs`: one table trait and three layouts (rows,
  columns, PAX pages) whose contracts describe the same table of rows.
- `foundations/task_pool.rs`: the reply text of a simulated fetch.
- `storage/page/`: the slotted page, specified byte by byte (header, slot
  directory, record area), and the layout checks a fuzzing run applies.
- `storage/fsm/`: the free-space map, a max-tree over page buckets, with the
  laws that its search is sound and complete and that the root is the maximum.
- `storage/heap/`: heap files (slotted pages plus a free-space map) and their
  scans, with the laws that insertion keeps the map in step with the pages and
  puts a record into the first page with room.
- `storage/buffer_pool/`: frames, the free-frame queue, the page table, the
  CLOCK replacer and the pool's decision steps. Every step keeps the page table
  and the frames in agreement, except a move of a frame from one page to
  another that the page table refuses; the contracts say when.
- `bench/io_matrix.rs`: offsets and labels of a block-read benchmark.

`app/` holds what the verifier does not see: the program entry point, disk I/O,
the thread-safe pool that runs the decision steps under locks with disk
transfers in between, the async task runner, the benchmark and a fuzzing
driver. Floating-point rates and the hit ratio are computed there too.

`tests/` exercises the library through its public interface.
