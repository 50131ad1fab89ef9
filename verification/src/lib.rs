//! A minimal virtual machine for an eight-symbol, tape-based esoteric
//! language: a fixed-size byte tape addressed by a movable pointer, with
//! looping driven by bracket-matched jumps conditioned on the current cell.
//!
//! The crate has two parts. The bracket resolver ([`resolve::resolve`]) scans
//! a program once and builds a bidirectional jump table mapping each opening
//! bracket to its matching closing bracket and back, or reports the unmatched
//! brackets. The execution engine ([`engine::Interpreter`]) consumes the jump
//! table and runs the dispatch loop, mutating the tape, moving the pointer
//! with wraparound arithmetic, and performing byte-oriented I/O against
//! in-memory buffers. Both are specified against the mathematical model in
//! [`machine`]: a step function on abstract machine states.
//!
//! Because the engine reads from and writes to byte buffers, no read or
//! write of its own can fail: running out of input is, by design, a no-op
//! rather than an error. A surrounding program that wires the buffers to
//! real streams reports its own stream failures; see the [`resolve::Error`]
//! variants for everything the engine itself reports.

pub mod engine;
pub mod machine;
pub mod resolve;

pub use engine::Interpreter;
pub use resolve::resolve;
pub use resolve::Error;

