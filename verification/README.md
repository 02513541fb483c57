# rustics

Statistics for performance monitoring, with the data structures and the
counting, merging and formatting rules proved correct with Verus.

## Layout

- `src/` is the verified library:
  - `window.rs`: `Window<T>`, a fixed-capacity window over the newest items
    pushed into it, with a live subset of the newest few, indexing by age and
    scans oldest first.
  - `log_histogram.rs`: the pseudo-log histogram of integer samples and its
    printed lines.
  - `float_histogram.rs`: the histogram of binary64 samples by sign and
    exponent, taken as bit patterns, and its printed lines.
  - `merge.rs`: bucket-wise sums of histograms, and the merged sample
    counts and integer extremes of several instances.
  - `hier.rs`, `gen_hier.rs`: the configuration of a statistics hierarchy and
    the decisions of when it starts a new level 0 instance and which levels
    then receive a summary, `HierLevels<M>`, the windows of members at
    each level with a complete advance step and the number of members each
    level holds after any number of advances, and the lines printed for an
    index that names no member.
    `gen_hier.rs` names the same configuration types.
  - `counter.rs`: a counter of events or summed values.
  - `printable.rs`: decimal text, comma separators, justified fields and
    the printed mode value of a pseudo-log mode, and the mantissa and
    exponent printed for the scientific text of a number.
  - `ticks.rs`: the ticks a timer reports between two clock readings.
  - `lib.rs`: print options, units, titles, finding a set member by id, and
    the binary64 exponent limits.
- `tests/` runs the library on concrete values.
- `app/` is the rest, including handing the histograms' lines to a
  printer: the statistics types that compute in f64, sets of
  statistics, hierarchies of them, timers, printing to stdout, and a small
  example program.
