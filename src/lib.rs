//! Frame synchronization for an air-quality sensor's serial telemetry stream.
//!
//! The sensor emits fixed 17-byte frames (two header bytes, five big-endian
//! concentrations, temperature and humidity as integer and tenth parts, and a
//! one-byte additive checksum). [`frame`] validates and decodes a single frame;
//! [`sync`] recovers frames from an arbitrarily chunked, possibly corrupted
//! byte stream.

pub mod frame;
pub mod sync;
