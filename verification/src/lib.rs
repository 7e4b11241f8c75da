//! Differential-testing core for a shader-like program under test.
//!
//! The library runs one program across many backend configurations in
//! isolated worker processes, normalizes the raw output buffers so that
//! layout padding cannot influence comparison, groups the normalized
//! outputs into agreement classes, and exposes the crash- and
//! mismatch-seeking predicates that a test-case reduction search consumes.
//!
//! Everything that computes or decides lives here, verified; process
//! spawning, I/O and presentation live outside the library.

pub mod bytes;
pub mod config;
pub mod pipeline;
pub mod normalize;
pub mod consensus;
pub mod codec;
pub mod events;
pub mod orchestrator;
pub mod runner;
pub mod oracle;
pub mod printer;
