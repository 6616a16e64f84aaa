# profiler

A metrics oriented profiler and bencher. Spans are marked with `tracing`; every span
that is entered and left yields one measurement of a set of metrics (CPU cycles,
instructions, task clock, wall time, memory, ...). Measurements with the same span
path are merged into one tree, ordered by the primary metric and printed as a table,
compared with the previous run.

## Layout

- `src/` is the verified library (Verus). Its modules:
  - `analysis`: span events and the paths they give;
  - `tree`, `tree_laws`, `order`: the span tree, what every built tree satisfies,
    and the report order;
  - `collector`: the recording of span events;
  - `bench`, `schedule`: benchmark declarations, their run order, and the decisions
    of a run (warmup, measured phase, when progress is shown);
  - `text`, `path`, `label`, `render`: text rules, row labels and the table layout;
  - `store`: report file paths and the path table of a snapshot;
  - `metrics`, `mem`: counter arithmetic and per-span memory accounting.
- `app/` holds what does I/O around the library: metric providers reading hardware
  and OS counters, the `tracing` layer, the runner with its terminal progress, the
  printer, the JSON files and the global allocator.
- `tests/` exercises the library on concrete values.
