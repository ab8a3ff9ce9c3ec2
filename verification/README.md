# external_sort

An external sorter for files of unsigned 64-bit integers stored as 8-byte
little-endian records. Phase 1 streams the input in 16 KB blocks, cuts it into
chunks that fit the memory budget, sorts each chunk in parallel with rayon and
writes it as a run file. Phase 2 opens every run file at once and streams them
through one binary min-heap into the sorted output file, in a single pass.

Layout:

- `src/` is the verified library (Verus): the record codec, the run builder of
  phase 1, the min-heap and k-way merge state of phase 2,
  the dataset generator, argument parsing and the decimal text used in file names
  and previews, each with its contract, and the lemmas that tie the phases together
  (phase 1 keeps every value, a merge of sorted runs is sorted and keeps every
  value, the sorted output depends only on the input's values).
- `app/` is the command-line program and the benchmark harness: file and directory
  handling, timing and throughput figures, and the loops that feed file contents to
  the library.
- `tests/` exercises the library on concrete inputs.

Usage: `external_sort <input.bin> <run_dir> <output.bin> [thread_count] [fan_in_factor]`,
or `external_sort benchmark <work_dir> <csv_path> [options]`.
