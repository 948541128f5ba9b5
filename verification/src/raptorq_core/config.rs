//! Codec configuration.
use crate::raptorq_core::Error;
use vstd::prelude::*;

verus! {

/// Default symbol size, which keeps a whole frame well within the capacity of
/// a sparse QR code.
pub const DEFAULT_SYMBOL_SIZE: u32 = 1024;

/// Smallest accepted symbol size.
pub const MIN_SYMBOL_SIZE: u32 = 64;

/// Largest aligned symbol size for which symbol and payload id still fit a
/// `u16` packet size.
pub const MAX_SYMBOL_SIZE: u32 = 65_528;

/// Bytes of the payload id that precedes a symbol in a RaptorQ packet.
pub const PAYLOAD_ID_SIZE: u16 = 4;

/// Codec configuration: the size in bytes of one RaptorQ symbol, which is the
/// payload of one QR frame.
#[derive(Debug, Clone, Copy, PartialEq, Eq, Structural)]
pub struct Config {
    symbol_size: u32,
}

/// A size that is 8-byte aligned and within the accepted range.
pub open spec fn valid_symbol_size(symbol_size: u32) -> bool {
    MIN_SYMBOL_SIZE <= symbol_size <= MAX_SYMBOL_SIZE && symbol_size % 8 == 0
}

impl Default for Config {
    fn default() -> (config: Self)
        ensures
            config.symbol_size() == DEFAULT_SYMBOL_SIZE,
    {
        Config { symbol_size: DEFAULT_SYMBOL_SIZE }
    }
}

impl Config {
    /// The symbol size, in contracts.
    pub closed spec fn spec_symbol_size(self) -> u32 {
        self.symbol_size
    }

    /// The configuration of a symbol size.
    pub closed spec fn sized(symbol_size: u32) -> Config {
        Config { symbol_size }
    }

    /// Accept exactly the aligned sizes within the range.
    pub fn new(symbol_size: u32) -> (r: Result<Self, Error>)
        ensures
            match r {
                Ok(config) => valid_symbol_size(symbol_size) && config.symbol_size()
                    == symbol_size && config == Config::sized(symbol_size),
                Err(e) => !valid_symbol_size(symbol_size) && e == Error::InvalidSymbolSize,
            },
    {
        if symbol_size < MIN_SYMBOL_SIZE || symbol_size > MAX_SYMBOL_SIZE || symbol_size % 8 != 0 {
            return Err(Error::InvalidSymbolSize);
        }
        Ok(Config { symbol_size })
    }

    /// Bytes per symbol.
    #[verifier::when_used_as_spec(spec_symbol_size)]
    pub fn symbol_size(self) -> (size: u32)
        ensures
            size == self.symbol_size(),
    {
        self.symbol_size
    }

    /// Packet size that the codec expects: symbol and payload id.
    pub fn mtu(self) -> (r: Result<u16, Error>)
        ensures
            match r {
                Ok(mtu) => mtu == self.symbol_size() + PAYLOAD_ID_SIZE,
                Err(e) => self.symbol_size() + PAYLOAD_ID_SIZE > u16::MAX && e
                    == Error::InvalidSymbolSize,
            },
    {
        match self.symbol_size.checked_add(PAYLOAD_ID_SIZE as u32) {
            Some(mtu) if mtu <= u16::MAX as u32 => Ok(mtu as u16),
            _ => Err(Error::InvalidSymbolSize),
        }
    }
}

} // verus!
