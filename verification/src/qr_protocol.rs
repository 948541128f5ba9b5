//! Wire format and helpers between the RaptorQ codec and the QR display and
//! scan layer.
//!
//! Every QR frame is a fixed-layout byte buffer:
//!
//! ```text
//! [ Header (60 B) ][ Payload (symbol_size B) ][ Footer (4 B) ]
//! ```
//!
//! - The header carries the session id, the RaptorQ symbol coordinates, block
//!   and symbol totals, a frame index, a timestamp and a CRC-32 of the payload.
//! - The payload is one RaptorQ symbol or one session descriptor.
//! - The footer is a CRC-32 over header and payload. A receiver drops a frame
//!   that fails either CRC and relies on fountain redundancy.
//!
//! All multi-byte integers are big-endian.
use crate::text;
use vstd::prelude::*;

pub mod chunker;
pub mod compress;
pub mod frame;
pub mod laws;
pub mod qr_render;
pub mod session;

pub use frame::{Frame, FrameHeader, FLAG_DESCRIPTOR, FRAME_FOOTER_SIZE, FRAME_HEADER_SIZE, MAGIC};
pub use session::SessionId;

verus! {

/// Errors of the protocol layer.
#[derive(Debug)]
#[allow(inconsistent_fields)]
pub enum Error {
    /// The buffer holds `have` bytes where `need` are needed.
    BufferTooShort { need: usize, have: usize },
    /// The frame does not start with the magic number.
    BadMagic { expected: u16, got: u16 },
    /// The protocol version is not supported.
    BadVersion(u8),
    /// The whole-frame CRC does not match.
    FrameCrcMismatch,
    /// The payload CRC does not match.
    PayloadCrcMismatch,
    /// The symbol size is not supported.
    BadSymbolSize(u32),
    /// The declared payload length does not match the frame length.
    LengthMismatch { expected: usize, actual: usize },
    /// Compression or decompression failed, with the reason.
    Compress(String),
}

impl Error {
    /// The message of the error.
    pub open spec fn text(self) -> Seq<char> {
        match self {
            Error::BufferTooShort { need, have } => "buffer too short: need "@ + text::decimal(
                need as nat,
            ) + " bytes, have "@ + text::decimal(have as nat),
            Error::BadMagic { expected, got } => "bad magic: expected 0x"@ + text::hex4(expected)
                + ", got 0x"@ + text::hex4(got),
            Error::BadVersion(version) => "unsupported protocol version "@ + text::decimal(
                version as nat,
            ),
            Error::FrameCrcMismatch => "frame CRC mismatch"@,
            Error::PayloadCrcMismatch => "payload CRC mismatch"@,
            Error::BadSymbolSize(size) => "unsupported symbol size "@ + text::decimal(size as nat),
            Error::LengthMismatch { expected, actual } => "frame length mismatch: expected "@
                + text::decimal(expected as nat) + " bytes, got "@ + text::decimal(actual as nat),
            Error::Compress(reason) => "compression error: "@ + reason@,
        }
    }

    /// The message of the error.
    pub fn message(&self) -> (message: String)
        ensures
            message@ == self.text(),
    {
        match self {
            Error::BufferTooShort { need, have } => {
                let mut m = text::numbered("buffer too short: need ", *need as u64);
                text::push_str(&mut m, " bytes, have ");
                text::push_decimal(&mut m, *have as u64);
                m
            },
            Error::BadMagic { expected, got } => {
                let mut m = "bad magic: expected 0x".to_owned();
                text::push_hex4(&mut m, *expected);
                text::push_str(&mut m, ", got 0x");
                text::push_hex4(&mut m, *got);
                m
            },
            Error::BadVersion(version) => text::numbered(
                "unsupported protocol version ",
                *version as u64,
            ),
            Error::FrameCrcMismatch => "frame CRC mismatch".to_owned(),
            Error::PayloadCrcMismatch => "payload CRC mismatch".to_owned(),
            Error::BadSymbolSize(size) => text::numbered("unsupported symbol size ", *size as u64),
            Error::LengthMismatch { expected, actual } => {
                let mut m = text::numbered("frame length mismatch: expected ", *expected as u64);
                text::push_str(&mut m, " bytes, got ");
                text::push_decimal(&mut m, *actual as u64);
                m
            },
            Error::Compress(reason) => {
                let mut m = "compression error: ".to_owned();
                text::push_str(&mut m, reason);
                m
            },
        }
    }
}

} // verus!
