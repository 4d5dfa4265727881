# aevum

Trace recording and deterministic replay for time-travel debugging.

- `src/` is the verified library: vector clocks and their causality order, the
  deterministic and the controlled replay schedulers, the trace log's record format
  (framing, compression, reading back, counting), memory snapshots and memory diffs,
  the replay engine, and the text of trace and snapshot file names.
- `app/` is the `aevum` command line tool: argument parsing, files, serialization of
  events and snapshots, and terminal output.
- `tests/` exercises the library on concrete values.
