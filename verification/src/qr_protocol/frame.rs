//! The QR frame: header, payload and footer.
//!
//! The header is a fixed 60-byte big-endian structure, so a receiver can check
//! the magic number and the length before it touches anything else.
use crate::digest;
use crate::qr_protocol::Error;
use crate::wire;
use vstd::prelude::*;

verus! {

/// Protocol magic: ASCII `ET`. A receiver locks onto a frame by scanning for it.
pub const MAGIC: u16 = 0x4554;

/// Version byte of the frame format.
pub const PROTOCOL_VERSION: u8 = 1;

/// Bytes of the header.
pub const FRAME_HEADER_SIZE: usize = 60;

/// Bytes of the footer.
pub const FRAME_FOOTER_SIZE: usize = 4;

/// Flag bit: the payload is a session descriptor rather than a RaptorQ symbol.
pub const FLAG_DESCRIPTOR: u8 = 0x01;

/// 128-bit session identifier.
pub type SessionIdRaw = u128;

/// Frame header.
#[derive(Debug, Clone, Copy, PartialEq, Eq, Structural)]
pub struct FrameHeader {
    pub session_id: SessionIdRaw,
    /// Bitfield. Bit 0 ([`FLAG_DESCRIPTOR`]) marks a descriptor frame.
    pub flags: u8,
    /// RaptorQ source block number.
    pub sbn: u32,
    /// RaptorQ encoding symbol id (source below K, repair from K on).
    pub esi: u32,
    /// Source blocks of the object.
    pub total_blocks: u32,
    /// Source symbols of the whole object.
    pub total_symbols: u32,
    /// Bytes per symbol, which is the payload length.
    pub symbol_size: u32,
    /// Frame sequence number, for statistics.
    pub frame_index: u64,
    /// Sender wall-clock time in milliseconds.
    pub timestamp_ms: u64,
    /// CRC-32 of the payload.
    pub payload_crc32: u32,
}

/// A complete QR frame.
#[derive(Debug, PartialEq, Eq)]
pub struct Frame {
    pub header: FrameHeader,
    pub payload: Vec<u8>,
    /// CRC-32 over header and payload.
    pub frame_crc32: u32,
}

impl Clone for Frame {
    fn clone(&self) -> (frame: Self)
        ensures
            frame@ == self@,
    {
        Frame {
            header: self.header,
            payload: wire::copy_of(&self.payload),
            frame_crc32: self.frame_crc32,
        }
    }
}

/// What a [`Frame`] stands for.
#[verifier::ext_equal]
pub struct FrameView {
    pub header: FrameHeader,
    pub payload: Seq<u8>,
    pub frame_crc32: u32,
}

impl View for Frame {
    type V = FrameView;

    open spec fn view(&self) -> FrameView {
        FrameView {
            header: self.header,
            payload: self.payload@,
            frame_crc32: self.frame_crc32,
        }
    }
}

impl FrameHeader {
    /// The header on the wire.
    pub open spec fn wire(self) -> Seq<u8> {
        wire::be16(MAGIC)
            + seq![PROTOCOL_VERSION, self.flags]
            + wire::be128(self.session_id)
            + wire::be32(self.sbn)
            + wire::be32(self.esi)
            + wire::be32(self.total_blocks)
            + wire::be32(self.total_symbols)
            + wire::be32(self.symbol_size)
            + wire::be64(self.frame_index)
            + wire::be64(self.timestamp_ms)
            + wire::be32(self.payload_crc32)
    }

    /// The header that the first 60 bytes of `s` spell out.
    pub open spec fn read(s: Seq<u8>) -> FrameHeader {
        FrameHeader {
            session_id: wire::u128_at(s, 4),
            flags: s[3],
            sbn: wire::u32_at(s, 20),
            esi: wire::u32_at(s, 24),
            total_blocks: wire::u32_at(s, 28),
            total_symbols: wire::u32_at(s, 32),
            symbol_size: wire::u32_at(s, 36),
            frame_index: wire::u64_at(s, 40),
            timestamp_ms: wire::u64_at(s, 48),
            payload_crc32: wire::u32_at(s, 56),
        }
    }

    /// Why the first 60 bytes of `s` are no header of this protocol, if they
    /// are not.
    pub open spec fn read_error(s: Seq<u8>) -> Option<Error> {
        if wire::u16_at(s, 0) != MAGIC {
            Some(Error::BadMagic { expected: MAGIC, got: wire::u16_at(s, 0) })
        } else if s[2] != PROTOCOL_VERSION {
            Some(Error::BadVersion(s[2]))
        } else {
            None
        }
    }
}

impl FrameView {
    /// The frame on the wire.
    pub open spec fn wire(self) -> Seq<u8> {
        self.header.wire() + self.payload + wire::be32(self.frame_crc32)
    }

    /// The frame that `s` spells out.
    pub open spec fn read(s: Seq<u8>) -> FrameView {
        FrameView {
            header: FrameHeader::read(s),
            payload: s.subrange(60, s.len() - 4),
            frame_crc32: wire::u32_at(s, s.len() - 4),
        }
    }

    /// Why `s` is no valid frame, if it is not: the first of the checks, in
    /// their order, that fails.
    pub open spec fn read_error(s: Seq<u8>) -> Option<Error> {
        let header = FrameHeader::read(s);
        let declared = header.symbol_size as int + 64;
        if s.len() < 64 {
            Some(Error::BufferTooShort { need: 64, have: s.len() as usize })
        } else if FrameHeader::read_error(s) is Some {
            FrameHeader::read_error(s)
        } else if s.len() != declared {
            Some(
                Error::LengthMismatch {
                    expected: if declared <= usize::MAX {
                        declared as usize
                    } else {
                        usize::MAX
                    },
                    actual: s.len() as usize,
                },
            )
        } else if digest::crc32_of(s.subrange(60, s.len() - 4)) != header.payload_crc32 {
            Some(Error::PayloadCrcMismatch)
        } else if digest::crc32_of(s.subrange(0, s.len() - 4)) != wire::u32_at(s, s.len() - 4) {
            Some(Error::FrameCrcMismatch)
        } else {
            None
        }
    }

    /// The frame that carries `payload` under the fields of `header`, with both
    /// CRCs computed.
    pub open spec fn sealed(header: FrameHeader, payload: Seq<u8>) -> FrameView {
        let header = FrameHeader { payload_crc32: digest::crc32_of(payload), ..header };
        FrameView {
            header,
            payload,
            frame_crc32: digest::crc32_of(header.wire() + payload),
        }
    }
}

impl FrameHeader {
    /// Append this header to `out`.
    pub fn write_bytes(&self, out: &mut Vec<u8>)
        ensures
            final(out)@ == old(out)@ + self.wire(),
    {
        wire::push_u16(out, MAGIC);
        out.push(PROTOCOL_VERSION);
        out.push(self.flags);
        wire::push_u128(out, self.session_id);
        wire::push_u32(out, self.sbn);
        wire::push_u32(out, self.esi);
        wire::push_u32(out, self.total_blocks);
        wire::push_u32(out, self.total_symbols);
        wire::push_u32(out, self.symbol_size);
        wire::push_u64(out, self.frame_index);
        wire::push_u64(out, self.timestamp_ms);
        wire::push_u32(out, self.payload_crc32);
        assert(out@ =~= old(out)@ + self.wire());
    }

    /// Read and validate a header from the first 60 bytes of `bytes`.
    pub fn read_bytes(bytes: &[u8]) -> (r: Result<FrameHeader, Error>)
        requires
            bytes@.len() >= FRAME_HEADER_SIZE,
        ensures
            match r {
                Ok(header) => Self::read_error(bytes@) is None && header == Self::read(bytes@),
                Err(e) => Self::read_error(bytes@) == Some(e),
            },
    {
        let magic: u16 = wire::read_u16(bytes, 0);
        if magic != MAGIC {
            return Err(Error::BadMagic { expected: MAGIC, got: magic });
        }
        let version: u8 = bytes[2];
        if version != PROTOCOL_VERSION {
            return Err(Error::BadVersion(version));
        }
        Ok(
            FrameHeader {
                session_id: wire::read_u128(bytes, 4),
                flags: bytes[3],
                sbn: wire::read_u32(bytes, 20),
                esi: wire::read_u32(bytes, 24),
                total_blocks: wire::read_u32(bytes, 28),
                total_symbols: wire::read_u32(bytes, 32),
                symbol_size: wire::read_u32(bytes, 36),
                frame_index: wire::read_u64(bytes, 40),
                timestamp_ms: wire::read_u64(bytes, 48),
                payload_crc32: wire::read_u32(bytes, 56),
            },
        )
    }
}

impl Frame {
    /// Serialized length: header, payload and footer.
    pub fn wire_size(symbol_size: u32) -> (size: usize)
        ensures
            size == if symbol_size + 64 <= usize::MAX {
                symbol_size + 64
            } else {
                usize::MAX as int
            },
    {
        FRAME_HEADER_SIZE.saturating_add(symbol_size as usize).saturating_add(FRAME_FOOTER_SIZE)
    }

    /// Build a frame from a payload and header fields, computing both CRCs.
    pub fn build(
        session_id: SessionIdRaw,
        flags: u8,
        sbn: u32,
        esi: u32,
        total_blocks: u32,
        total_symbols: u32,
        symbol_size: u32,
        frame_index: u64,
        timestamp_ms: u64,
        payload: &[u8],
    ) -> (frame: Self)
        requires
            payload@.len() == symbol_size,
        ensures
            frame@ == FrameView::sealed(
                (FrameHeader {
                    session_id,
                    flags,
                    sbn,
                    esi,
                    total_blocks,
                    total_symbols,
                    symbol_size,
                    frame_index,
                    timestamp_ms,
                    payload_crc32: 0,
                }),
                payload@,
            ),
    {
        let payload_crc32: u32 = digest::crc32(payload);
        let header = FrameHeader {
            session_id,
            flags,
            sbn,
            esi,
            total_blocks,
            total_symbols,
            symbol_size,
            frame_index,
            timestamp_ms,
            payload_crc32,
        };
        let mut buf: Vec<u8> = Vec::new();
        header.write_bytes(&mut buf);
        wire::push_bytes(&mut buf, payload);
        assert(buf@ =~= header.wire() + payload@);
        let frame_crc32: u32 = digest::crc32(&buf);
        Frame { header, payload: wire::copy_of(payload), frame_crc32 }
    }

    /// Serialize to header, payload and footer.
    pub fn to_bytes(&self) -> (bytes: Vec<u8>)
        ensures
            bytes@ == self@.wire(),
    {
        let mut buf: Vec<u8> = Vec::new();
        self.header.write_bytes(&mut buf);
        wire::push_bytes(&mut buf, &self.payload);
        wire::push_u32(&mut buf, self.frame_crc32);
        assert(buf@ =~= self@.wire());
        buf
    }

    /// Parse and validate a frame: magic, version, length, payload CRC and
    /// whole-frame CRC. The caller discards a frame that fails.
    pub fn from_bytes(bytes: &[u8]) -> (r: Result<Self, Error>)
        ensures
            match r {
                Ok(frame) => FrameView::read_error(bytes@) is None && frame@ == FrameView::read(
                    bytes@,
                ),
                Err(e) => FrameView::read_error(bytes@) == Some(e),
            },
    {
        let need: usize = FRAME_HEADER_SIZE + FRAME_FOOTER_SIZE;
        if bytes.len() < need {
            return Err(Error::BufferTooShort { need, have: bytes.len() });
        }
        let header = match FrameHeader::read_bytes(bytes) {
            Ok(header) => header,
            Err(e) => {
                return Err(e);
            },
        };
        let symbol_size: usize = header.symbol_size as usize;
        let actual_payload_size: usize = bytes.len() - need;
        if symbol_size != actual_payload_size {
            return Err(
                Error::LengthMismatch {
                    expected: symbol_size.saturating_add(need),
                    actual: bytes.len(),
                },
            );
        }
        let payload_end: usize = FRAME_HEADER_SIZE + symbol_size;
        let payload = vstd::slice::slice_subrange(bytes, FRAME_HEADER_SIZE, payload_end);
        if digest::crc32(payload) != header.payload_crc32 {
            return Err(Error::PayloadCrcMismatch);
        }
        let expected_frame_crc: u32 = wire::read_u32(bytes, payload_end);
        if digest::crc32(vstd::slice::slice_subrange(bytes, 0, payload_end)) != expected_frame_crc {
            return Err(Error::FrameCrcMismatch);
        }
        Ok(Frame { header, payload: wire::copy_of(payload), frame_crc32: expected_frame_crc })
    }
}

/// A header on the wire reads back, and any 60 bytes that pass the header
/// checks are the wire form of what they read as.
proof fn lemma_header_wire(header: FrameHeader, s: Seq<u8>)
    requires
        s.len() >= 60,
    ensures
        header.wire().len() == 60,
        s.subrange(0, 60) == header.wire() <==> FrameHeader::read_error(s) is None
            && FrameHeader::read(s) == header,
{
    broadcast use wire::group_be_len;

    let w = header.wire();
    let t = s.subrange(0, 60);
    wire::lemma_u16_at(s, 0, MAGIC);
    wire::lemma_u128_at(s, 4, header.session_id);
    wire::lemma_u32_at(s, 20, header.sbn);
    wire::lemma_u32_at(s, 24, header.esi);
    wire::lemma_u32_at(s, 28, header.total_blocks);
    wire::lemma_u32_at(s, 32, header.total_symbols);
    wire::lemma_u32_at(s, 36, header.symbol_size);
    wire::lemma_u64_at(s, 40, header.frame_index);
    wire::lemma_u64_at(s, 48, header.timestamp_ms);
    wire::lemma_u32_at(s, 56, header.payload_crc32);
    assert(w.subrange(0, 2) =~= wire::be16(MAGIC));
    assert(w.subrange(2, 4) =~= seq![PROTOCOL_VERSION, header.flags]);
    assert(w.subrange(4, 20) =~= wire::be128(header.session_id));
    assert(w.subrange(20, 24) =~= wire::be32(header.sbn));
    assert(w.subrange(24, 28) =~= wire::be32(header.esi));
    assert(w.subrange(28, 32) =~= wire::be32(header.total_blocks));
    assert(w.subrange(32, 36) =~= wire::be32(header.total_symbols));
    assert(w.subrange(36, 40) =~= wire::be32(header.symbol_size));
    assert(w.subrange(40, 48) =~= wire::be64(header.frame_index));
    assert(w.subrange(48, 56) =~= wire::be64(header.timestamp_ms));
    assert(w.subrange(56, 60) =~= wire::be32(header.payload_crc32));
    assert(t.subrange(0, 2) =~= s.subrange(0, 2));
    assert(t.subrange(2, 4) =~= seq![s[2], s[3]]);
    assert(t.subrange(4, 20) =~= s.subrange(4, 20));
    assert(t.subrange(20, 24) =~= s.subrange(20, 24));
    assert(t.subrange(24, 28) =~= s.subrange(24, 28));
    assert(t.subrange(28, 32) =~= s.subrange(28, 32));
    assert(t.subrange(32, 36) =~= s.subrange(32, 36));
    assert(t.subrange(36, 40) =~= s.subrange(36, 40));
    assert(t.subrange(40, 48) =~= s.subrange(40, 48));
    assert(t.subrange(48, 56) =~= s.subrange(48, 56));
    assert(t.subrange(56, 60) =~= s.subrange(56, 60));
    if t == w {
        assert(s[2] == t[2] && s[3] == t[3]);
        assert(w[2] == w.subrange(2, 4)[0] && w[3] == w.subrange(2, 4)[1]);
    }
    if FrameHeader::read_error(s) is None && FrameHeader::read(s) == header {
        assert(t =~= t.subrange(0, 2) + t.subrange(2, 4) + t.subrange(4, 20) + t.subrange(20, 24)
            + t.subrange(24, 28) + t.subrange(28, 32) + t.subrange(32, 36) + t.subrange(36, 40)
            + t.subrange(40, 48) + t.subrange(48, 56) + t.subrange(56, 60));
    }
}

/// A frame that was built from a payload of `symbol_size` bytes is accepted on
/// the wire, and parses to itself.
pub proof fn law_frame_round_trip(header: FrameHeader, payload: Seq<u8>)
    requires
        payload.len() == header.symbol_size,
    ensures
        FrameView::read_error(FrameView::sealed(header, payload).wire()) is None,
        FrameView::read(FrameView::sealed(header, payload).wire()) == FrameView::sealed(
            header,
            payload,
        ),
{
    broadcast use wire::group_be_len;

    let f = FrameView::sealed(header, payload);
    let s = f.wire();
    let n = payload.len() as int;
    lemma_header_wire(f.header, f.header.wire() + payload + wire::be32(f.frame_crc32));
    assert(s.subrange(0, 60) =~= f.header.wire());
    assert(s.subrange(60, s.len() - 4) =~= payload);
    assert(s.subrange(0, s.len() - 4) =~= f.header.wire() + payload);
    assert(s.subrange(60 + n, 60 + n + 4) =~= wire::be32(f.frame_crc32));
    wire::lemma_u32_at(s, 60 + n, f.frame_crc32);
}

/// Bytes that are accepted as a frame are the wire form of that frame, so
/// serializing a parsed frame gives back the bytes it came from.
pub proof fn law_frame_reserializes(s: Seq<u8>)
    requires
        FrameView::read_error(s) is None,
    ensures
        FrameView::read(s).wire() == s,
{
    let f = FrameView::read(s);
    let n = s.len() as int;
    lemma_header_wire(f.header, s);
    wire::lemma_u32_at(s, n - 4, f.frame_crc32);
    assert(s =~= s.subrange(0, 60) + s.subrange(60, n - 4) + s.subrange(n - 4, n));
}

/// A valid frame with any one byte changed is rejected.
pub proof fn law_frame_detects_changed_byte(s: Seq<u8>, at: int, b: u8)
    requires
        FrameView::read_error(s) is None,
        0 <= at < s.len(),
        s[at] != b,
    ensures
        FrameView::read_error(s.update(at, b)) is Some,
{
    let t = s.update(at, b);
    let n = s.len() as int;
    if FrameView::read_error(t) is None {
        let body = s.subrange(0, n - 4);
        let changed = t.subrange(0, n - 4);
        wire::lemma_u32_at(s, n - 4, wire::u32_at(s, n - 4));
        wire::lemma_u32_at(t, n - 4, wire::u32_at(s, n - 4));
        if at < n - 4 {
            assert(s.subrange(n - 4, n) =~= t.subrange(n - 4, n));
            assert forall|i: int| 0 <= i < body.len() && i != at implies body[i] == changed[i] by {}
            digest::law_crc32_detects_changed_byte(body, changed, at);
        } else {
            assert(body =~= changed);
            assert(s.subrange(n - 4, n)[at - (n - 4)] == s[at]);
            assert(t.subrange(n - 4, n)[at - (n - 4)] == b);
        }
    }
}

} // verus!
