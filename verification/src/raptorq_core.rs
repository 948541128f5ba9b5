//! RaptorQ (RFC 6330) fountain coding at symbol granularity.
//!
//! The caller deals in `(sbn, esi, bytes)` triples, which map one to one onto
//! QR frame payloads. Decoding accepts symbols in any order, with duplicates
//! and holes, and succeeds as soon as enough independent symbols of every
//! source block have arrived. The coding itself is the `raptorq` crate's; see
//! [`codec`] for what is taken from it.
use crate::text;
use vstd::prelude::*;

pub mod codec;
pub mod config;
pub mod decoder;
pub mod encoder;
pub mod laws;
pub mod layout;
pub mod meta;
pub mod symbol;

pub use config::{Config, MAX_SYMBOL_SIZE, MIN_SYMBOL_SIZE};
pub use decoder::Decoder;
pub use encoder::Encoder;
pub use meta::{
    ObjectMeta, SourceBlockMeta, MAX_OBJECT_BYTES, MAX_ORIGINAL_BYTES, MAX_SOURCE_BLOCKS,
    MAX_SOURCE_SYMBOLS_PER_BLOCK, MAX_TOTAL_SOURCE_SYMBOLS,
};
pub use symbol::{Symbol, SymbolId};

verus! {

/// Errors of the codec.
#[derive(Debug)]
pub enum Error {
    /// There is nothing to encode.
    EmptyData,
    /// The symbol size is not 8-byte aligned or not between 64 and 65528 bytes.
    InvalidSymbolSize,
    /// The object metadata was rejected, with the reason.
    InvalidObjectMeta(&'static str),
    /// The source block does not exist.
    BlockOutOfRange { sbn: u32, total: u32 },
    /// The source block needs more symbols.
    NotDecodable { sbn: u32 },
    /// The symbol does not belong to this object.
    UnknownSymbol { sbn: u32, esi: u32 },
}

impl Error {
    /// The message of the error.
    pub open spec fn text(self) -> Seq<char> {
        match self {
            Error::EmptyData => "data is empty"@,
            Error::InvalidSymbolSize =>
                "symbol size must be 8-byte aligned and between 64 and 65528 bytes"@,
            Error::InvalidObjectMeta(reason) => "invalid object metadata: "@ + reason@,
            Error::BlockOutOfRange { sbn, total } => "source block "@ + text::decimal(sbn as nat)
                + " out of range (have "@ + text::decimal(total as nat) + ")"@,
            Error::NotDecodable { sbn } => "source block "@ + text::decimal(sbn as nat)
                + " is not yet decodable (need more symbols)"@,
            Error::UnknownSymbol { sbn, esi } => "symbol (sbn="@ + text::decimal(sbn as nat)
                + ", esi="@ + text::decimal(esi as nat) + ") does not belong to this object"@,
        }
    }

    /// The message of the error.
    pub fn message(&self) -> (message: String)
        ensures
            message@ == self.text(),
    {
        match self {
            Error::EmptyData => "data is empty".to_owned(),
            Error::InvalidSymbolSize =>
                "symbol size must be 8-byte aligned and between 64 and 65528 bytes".to_owned(),
            Error::InvalidObjectMeta(reason) => {
                let mut m = "invalid object metadata: ".to_owned();
                text::push_str(&mut m, reason);
                m
            },
            Error::BlockOutOfRange { sbn, total } => {
                let mut m = text::numbered("source block ", *sbn as u64);
                text::push_str(&mut m, " out of range (have ");
                text::push_decimal(&mut m, *total as u64);
                text::push_str(&mut m, ")");
                m
            },
            Error::NotDecodable { sbn } => {
                let mut m = text::numbered("source block ", *sbn as u64);
                text::push_str(&mut m, " is not yet decodable (need more symbols)");
                m
            },
            Error::UnknownSymbol { sbn, esi } => {
                let mut m = text::numbered("symbol (sbn=", *sbn as u64);
                text::push_str(&mut m, ", esi=");
                text::push_decimal(&mut m, *esi as u64);
                text::push_str(&mut m, ") does not belong to this object");
                m
            },
        }
    }
}

} // verus!
