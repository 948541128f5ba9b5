//! AirFerry: file transfer over a one-way optical QR link.
//!
//! The library is laid out in three layers, each with its own error type:
//!
//! - [`raptorq_core`]: the RaptorQ fountain codec with the metadata and the
//!   resource limits that guard its decoder.
//! - [`qr_protocol`]: the wire format of one QR frame, compression, session
//!   identifiers and QR rendering.
//! - [`transfer_engine`]: sender and receiver sessions, session descriptors,
//!   segmented transfers and resume state.
//!
//! [`wire`] and [`digest`] hold what the layers share: big-endian and
//! little-endian integers, CRC-32 and SHA-256.
use vstd::prelude::*;

pub mod digest;
pub mod qr_protocol;
pub mod raptorq_core;
pub mod text;
pub mod transfer_engine;
pub mod wire;

verus! {

} // verus!
