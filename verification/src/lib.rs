//! A synthetic load generator for block devices and files: the logic that decides
//! where to write, what to write and when a target has stalled.
//!
//! * [`lcg`] is a pseudo-random generator over a power-of-two modulus that visits
//!   every value once per period; [`period`] holds the proof.
//! * [`sequencer`] turns an access mode and a range of blocks into the byte
//!   offsets of a run; [`coverage`] proves that the exactly-once mode writes
//!   every block of the range once.
//! * [`scramble`] changes the write buffer between iterations.
//! * [`fill`] makes the buffer's first content.
//! * [`watchdog`] finds the targets that have not been written to for too long.
//! * [`driver`] decides, write by write, what a run does next.
//! * [`options`] checks a configuration before a run starts.
//! * [`logger`] says which log records are printed and how a line reads.

pub mod coverage;
pub mod driver;
pub mod error;
pub mod fill;
pub mod lcg;
pub mod logger;
pub mod options;
pub mod period;
pub mod power2;
pub mod scramble;
pub mod sequencer;
pub mod watchdog;
