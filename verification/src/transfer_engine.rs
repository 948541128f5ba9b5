//! Transfer sessions.
//!
//! - A sender session holds an already compressed payload and produces a stream
//!   of QR frames: source symbols first, then fresh repair symbols until the
//!   24-bit symbol id space is exhausted, with a session descriptor in between,
//!   so that a receiver can join at any time.
//! - A receiver session takes in decoded frames, feeds the RaptorQ decoder,
//!   tracks progress and reassembles the payload once it is complete.
//!
//! Compression is outside the engine: the caller hands in compressed bytes.
use crate::qr_protocol;
use crate::raptorq_core;
use crate::text;
use vstd::prelude::*;

pub mod assembler;
pub mod channel;
pub mod delivery;
pub mod descriptor;
pub mod host;
pub mod ingest_status;
pub mod joining;
pub mod progress;
pub mod receiver;
pub mod refusals;
pub mod replay_cache;
pub mod resume;
pub mod segment;
pub mod sender;
pub mod time;
pub mod wasm;

pub use crate::qr_protocol::{Frame, FrameHeader, FLAG_DESCRIPTOR};
pub use crate::raptorq_core::ObjectMeta;
pub use assembler::TransferAssembler;
pub use descriptor::{DescriptorInfo, FileMeta};
pub use progress::{Progress, Stats};
pub use receiver::ReceiverSession;
pub use resume::ResumeState;
pub use segment::{SegmentMeta, MAX_SEGMENT_COUNT, SEGMENT_RAW_BYTES};
pub use sender::{SenderConfig, SenderSession};

verus! {

/// The descriptor flag of a frame header.
pub const FLAG_DESCRIPTOR_BIT: u8 = FLAG_DESCRIPTOR;

/// Errors of the engine.
#[derive(Debug)]
pub enum Error {
    /// The codec failed.
    Raptorq(raptorq_core::Error),
    /// The protocol layer failed.
    Protocol(qr_protocol::Error),
    /// No payload is set.
    NoPayload,
    /// No metadata was received yet.
    NotInitialized,
    /// The frame belongs to another session.
    SessionMismatch { expected: u128, got: u128 },
    /// The object is already complete.
    AlreadyComplete,
    /// The redundancy percentage is not between 5 and 50.
    InvalidRedundancy(u8),
    /// Compression or decompression failed, with the reason.
    Compress(String),
    /// The 24-bit encoding symbol id space is exhausted.
    SymbolIdSpaceExhausted,
    /// The resume state was rejected, with the reason.
    InvalidResume(&'static str),
    /// The segment of a large transfer was rejected, with the reason.
    InvalidSegment(&'static str),
}

impl From<raptorq_core::Error> for Error {
    fn from(e: raptorq_core::Error) -> (error: Self) {
        Error::Raptorq(e)
    }
}

impl vstd::std_specs::convert::FromSpecImpl<raptorq_core::Error> for Error {
    open spec fn obeys_from_spec() -> bool {
        true
    }

    open spec fn from_spec(e: raptorq_core::Error) -> Self {
        Error::Raptorq(e)
    }
}

impl From<qr_protocol::Error> for Error {
    fn from(e: qr_protocol::Error) -> (error: Self) {
        Error::Protocol(e)
    }
}

impl vstd::std_specs::convert::FromSpecImpl<qr_protocol::Error> for Error {
    open spec fn obeys_from_spec() -> bool {
        true
    }

    open spec fn from_spec(e: qr_protocol::Error) -> Self {
        Error::Protocol(e)
    }
}

/// Parse and validate a frame from its wire bytes.
pub fn qr_protocol_frame_from_bytes(bytes: &[u8]) -> (r: Result<Frame, Error>)
    ensures
        match r {
            Ok(frame) => {
                &&& qr_protocol::frame::FrameView::read_error(bytes@) is None
                &&& frame@ == qr_protocol::frame::FrameView::read(bytes@)
            },
            Err(e) => e matches Error::Protocol(p)
                && qr_protocol::frame::FrameView::read_error(bytes@) == Some(p),
        },
{
    match Frame::from_bytes(bytes) {
        Ok(frame) => Ok(frame),
        Err(e) => Err(Error::Protocol(e)),
    }
}

impl Error {
    /// The message of the error.
    pub open spec fn text(self) -> Seq<char> {
        match self {
            Error::Raptorq(e) => "raptorq error: "@ + e.text(),
            Error::Protocol(e) => "protocol error: "@ + e.text(),
            Error::NoPayload => "no payload set"@,
            Error::NotInitialized => "session not yet initialized (no metadata received)"@,
            Error::SessionMismatch { expected, got } => "session id mismatch: expected "@
                + text::decimal(expected as nat) + ", got "@ + text::decimal(got as nat),
            Error::AlreadyComplete => "object already complete"@,
            Error::InvalidRedundancy(pct) => "invalid redundancy percentage: "@ + text::decimal(
                pct as nat,
            ) + " (must be between 5 and 50)"@,
            Error::Compress(reason) => "compression error: "@ + reason@,
            Error::SymbolIdSpaceExhausted =>
                "RaptorQ's 24-bit encoding-symbol id space is exhausted"@,
            Error::InvalidResume(reason) => "invalid resume state: "@ + reason@,
            Error::InvalidSegment(reason) => "invalid large-transfer segment: "@ + reason@,
        }
    }

    /// The message of the error.
    pub fn message(&self) -> (message: String)
        ensures
            message@ == self.text(),
    {
        match self {
            Error::Raptorq(e) => {
                let mut m = "raptorq error: ".to_owned();
                text::push_str(&mut m, &e.message());
                m
            },
            Error::Protocol(e) => {
                let mut m = "protocol error: ".to_owned();
                text::push_str(&mut m, &e.message());
                m
            },
            Error::NoPayload => "no payload set".to_owned(),
            Error::NotInitialized =>
                "session not yet initialized (no metadata received)".to_owned(),
            Error::SessionMismatch { expected, got } => {
                let mut m = "session id mismatch: expected ".to_owned();
                text::push_wide_decimal(&mut m, *expected);
                text::push_str(&mut m, ", got ");
                text::push_wide_decimal(&mut m, *got);
                m
            },
            Error::AlreadyComplete => "object already complete".to_owned(),
            Error::InvalidRedundancy(pct) => {
                let mut m = text::numbered("invalid redundancy percentage: ", *pct as u64);
                text::push_str(&mut m, " (must be between 5 and 50)");
                m
            },
            Error::Compress(reason) => {
                let mut m = "compression error: ".to_owned();
                text::push_str(&mut m, reason);
                m
            },
            Error::SymbolIdSpaceExhausted =>
                "RaptorQ's 24-bit encoding-symbol id space is exhausted".to_owned(),
            Error::InvalidResume(reason) => {
                let mut m = "invalid resume state: ".to_owned();
                text::push_str(&mut m, reason);
                m
            },
            Error::InvalidSegment(reason) => {
                let mut m = "invalid large-transfer segment: ".to_owned();
                text::push_str(&mut m, reason);
                m
            },
        }
    }
}

} // verus!
