//! The core of a tool that moves time series from one VictoriaMetrics instance to another and
//! rewrites some of them on the way.
//!
//! The library decides; it neither reads nor sends. `metrics` holds the time series, `migrator`
//! the rules that say what becomes of each, `stat` the statistics of a run, and `processor`
//! the run itself: the addresses to ask, and what each line of the export and each answer
//! of the target means for it. `text` has the string tests that the others are written in,
//! `options` what the command line settles.

pub mod metrics;
pub mod migrator;
pub mod options;
pub mod processor;
pub mod stat;
pub mod text;
