//! Consistent Overhead Byte Stuffing (COBS): a framing codec that removes all
//! zero bytes from an arbitrary payload so that a single 0x00 byte can serve
//! as an unambiguous frame delimiter on byte-oriented transports.
//!
//! The encoder ([`send::CobsSender`]) consumes a raw byte buffer and delivers
//! the encoded frame to a caller-supplied sink; the decoder
//! ([`recv::CobsReceiver`]) pulls an encoded frame from a caller-supplied
//! source and reconstructs the original buffer. Both keep cumulative byte
//! counters ([`statistics::CobsStatistics`]). The mathematical model of the
//! wire format, and the proofs that encoding is zero-free and that decoding
//! inverts it, live in [`model`].

pub mod model;
pub mod recv;
pub mod send;
pub mod statistics;
