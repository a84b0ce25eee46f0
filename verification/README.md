# buildline

Normalizes each build tool's native profiling output (ninja's `.ninja_log`,
cargo's `--timings` report) into one span schema, packs parallel work into
swim lanes, places every tool on one session clock and emits Chrome Trace
Event Format events that Perfetto opens.

- `src/` is the library, written in Verus and verified: the parsers, lane
  packing, the session clock and pid table, trace events, the trace-file
  framing and the command-line wrapper's decisions, each with its contract and
  the laws that tie them together.
- `app/` is the `buildline` binary around it: arguments, running the tool,
  files, the system clock, JSON encoding, and decoding cargo's unit array
  (whose times are fractional seconds).
- `tests/` exercises the library through its public API.
