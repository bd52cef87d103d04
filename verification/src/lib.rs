//! Reconstruction of a timeline from the binary execution trace of an
//! instrumented 68000 emulator.
//!
//! The trace is a header followed by a stream of fixed-format packets. The
//! crate decodes the stream, pairs subroutine and interrupt entries with
//! their exits, tracks user-defined intervals, and hands back the events of
//! the timeline, timed in processor cycles.

pub mod bytes;
pub mod interval_table;
pub mod intervals;
pub mod profiling;
pub mod symbols;
pub mod text;
pub mod timeline;
