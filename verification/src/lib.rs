//! A verified tail-verify-forward pipeline core.
//!
//! The library models a pipeline that incrementally reads newline-terminated
//! lines from a growing file, interprets them as alternating checksum/payload
//! pairs, verifies each payload against its CRC-32 checksum, and decides which
//! payloads are forwarded to a collector. File watching and the network
//! transport live outside the library; it works on plain byte values and an
//! explicit event/state model.

pub mod bytes;
pub mod gate;
pub mod tail;
pub mod watch;
