//! Build-timeline normalization: parses each build tool's native profiling
//! output into one shared span schema, packs parallel work into swim lanes,
//! and lays every tool onto a single session clock as Chrome-trace events.
//!
//! Module map: `span` is the normalized representation and the shared
//! `Category` vocabulary. `adapters` holds one parser per build tool (native
//! format to relative spans). `lane` packs parallel work into rows.
//! `session` holds each tool's launch time and pid and offsets spans onto the
//! shared clock. `chrome_trace` turns spans into trace events, and `appender`
//! frames them for the growing trace file. `wrapper` holds the decisions of
//! the command-line wrapper. `text` and `text_map` are the character-level
//! helpers underneath.
pub mod adapters;
pub mod appender;
pub mod chrome_trace;
pub mod lane;
pub mod session;
pub mod span;
pub mod text;
pub mod text_map;
pub mod wrapper;
