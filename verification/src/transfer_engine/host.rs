//! What the host bindings share.
//!
//! Hosts drive a session through plain integers and byte arrays. The bindings
//! convert between those and the host's own types; what they compute is here.
use crate::qr_protocol;
use crate::qr_protocol::compress;
use crate::qr_protocol::compress::DecompressStreamOutcome;
use crate::qr_protocol::frame::{FrameView, SessionIdRaw};
use crate::qr_protocol::Frame;
use crate::raptorq_core::codec;
use crate::raptorq_core::MAX_ORIGINAL_BYTES;
use crate::transfer_engine::ingest_status;
use crate::transfer_engine::receiver::model::ReceiverView;
use crate::transfer_engine::ReceiverSession;
use vstd::prelude::*;
use vstd::utf8;

verus! {

/// The session id with these halves.
pub open spec fn joined_id(lo: u64, hi: u64) -> SessionIdRaw {
    (hi * 0x1_0000_0000_0000_0000 + lo) as u128
}

/// The low half of a session id.
pub open spec fn low_half(id: SessionIdRaw) -> u64 {
    (id % 0x1_0000_0000_0000_0000) as u64
}

/// The high half of a session id.
pub open spec fn high_half(id: SessionIdRaw) -> u64 {
    (id / 0x1_0000_0000_0000_0000) as u64
}

/// Join the halves of a session id.
pub fn join_id(lo: u64, hi: u64) -> (id: SessionIdRaw)
    ensures
        id == joined_id(lo, hi),
{
    hi as u128 * 0x1_0000_0000_0000_0000 + lo as u128
}

/// The low 64 bits of a session id.
pub fn id_lo(id: SessionIdRaw) -> (lo: u64)
    ensures
        lo == low_half(id),
{
    (id % 0x1_0000_0000_0000_0000) as u64
}

/// The high 64 bits of a session id.
pub fn id_hi(id: SessionIdRaw) -> (hi: u64)
    ensures
        hi == high_half(id),
{
    (id / 0x1_0000_0000_0000_0000) as u64
}

/// A session id survives being handed over in halves.
pub proof fn law_id_halves(id: SessionIdRaw, lo: u64, hi: u64)
    ensures
        joined_id(low_half(id), high_half(id)) == id,
        low_half(joined_id(lo, hi)) == lo,
        high_half(joined_id(lo, hi)) == hi,
        joined_id(lo, hi) == hi * 0x1_0000_0000_0000_0000 + lo,
{
}

/// The session after the bytes of a frame came in. Bytes that are not a frame
/// change nothing.
pub open spec fn after_bytes(v: ReceiverView, bytes: Seq<u8>) -> ReceiverView {
    if FrameView::read_error(bytes) is Some {
        v
    } else {
        let frame = FrameView::read(bytes);
        v.after_frame(frame.header, frame.payload)
    }
}

/// The counters have room for the frame that the bytes are, if they are one.
pub open spec fn can_take(v: ReceiverView, bytes: Seq<u8>) -> bool {
    FrameView::read_error(bytes) is None ==> v.can_count(
        FrameView::read(bytes).header.session_id,
    )
}

/// The status word for bytes that took a session from `before` to `after`.
pub open spec fn status_of(before: ReceiverView, after: ReceiverView, bytes: Seq<u8>) -> u64 {
    if FrameView::read_error(bytes) is Some {
        ingest_status::INGEST_ERROR
    } else {
        ingest_status::packed(
            after.complete(),
            after.progress().received_symbols > before.progress().received_symbols,
            after.session_mismatch_streak,
            after.progress().received_symbols,
        )
    }
}

/// Take in the bytes of a decoded QR code and tell the status.
pub fn ingest_bytes(session: &mut ReceiverSession, frame_bytes: &[u8]) -> (status: u64)
    requires
        old(session).wf(),
        can_take(old(session)@, frame_bytes@),
    ensures
        final(session).wf(),
        final(session)@ == after_bytes(old(session)@, frame_bytes@),
        status == status_of(old(session)@, final(session)@, frame_bytes@),
{
    let frame = match Frame::from_bytes(frame_bytes) {
        Ok(frame) => frame,
        Err(_) => {
            return ingest_status::INGEST_ERROR;
        },
    };
    let prev_received: u32 = session.progress().received_symbols;
    let _ = session.ingest(frame);
    let p = session.progress();
    ingest_status::pack(
        session.is_complete(),
        p.received_symbols > prev_received,
        p.session_mismatch_streak,
        p.received_symbols,
    )
}

/// The recovered payload, still compressed, without the padding where its size
/// is known and plausible.
pub open spec fn trimmed_object(v: ReceiverView) -> Option<Seq<u8>> {
    if !v.complete() {
        None
    } else {
        let raw = v.decoder->0.assembled();
        if v.file.compressed_size_known && v.file.compressed_size <= raw.len() {
            Some(raw.take(v.file.compressed_size as int))
        } else {
            Some(raw)
        }
    }
}

/// The recovered payload, still compressed. Segments of a large transfer are
/// stored like this, and decompressed once they are joined.
pub fn assemble_trimmed(session: &ReceiverSession) -> (object: Option<Vec<u8>>)
    requires
        session.wf(),
    ensures
        codec::option_view(object) == trimmed_object(session@),
{
    let mut raw = match session.assemble_raw() {
        Some(bytes) => bytes,
        None => {
            return None;
        },
    };
    let file = session.file_meta();
    if file.compressed_size_known && file.compressed_size <= raw.len() as u64 {
        raw.truncate(file.compressed_size as usize);
    }
    Some(raw)
}

/// The compression tag in the low eight bits of `compression`.
pub open spec fn tag_of(compression: i32) -> u8 {
    (compression as int % 256) as u8
}

/// What a host may have decompressed in memory: at most what it asks for, and at
/// most the receiver's budget.
pub open spec fn memory_cap(max_output: i64) -> usize {
    if max_output <= 0 {
        0
    } else if max_output > MAX_ORIGINAL_BYTES {
        MAX_ORIGINAL_BYTES as usize
    } else {
        max_output as usize
    }
}

/// Decompress bytes in memory, with at most `max_output` bytes of output.
pub fn decompress_bytes(data: &[u8], compression: i32, max_output: i64) -> (r: Result<
    Vec<u8>,
    qr_protocol::Error,
>)
    ensures
        compress::reports(
            r,
            compress::limited(data@, tag_of(compression), memory_cap(max_output)),
        ),
{
    let tag: u8 = ((compression as i64 + 0x1_0000_0000) % 256) as u8;
    let cap: usize = if max_output <= 0 {
        0
    } else if max_output as u64 > MAX_ORIGINAL_BYTES {
        MAX_ORIGINAL_BYTES as usize
    } else {
        max_output as usize
    };
    compress::decompress_with_limit(data, tag, cap)
}

/// What of a decompressed stream is not as expected.
#[derive(Debug, Clone, Copy, PartialEq, Eq, Structural)]
pub enum StreamMismatch {
    /// The size.
    Size,
    /// The CRC-32.
    Crc,
    /// The SHA-256.
    Sha,
}

/// The lower-case hexadecimal digit of `d`, in ASCII.
pub open spec fn hex_byte(d: int) -> u8 {
    if d < 10 {
        (48 + d) as u8
    } else {
        (87 + d) as u8
    }
}

/// Digit `i` of the hexadecimal form of `bytes`, in ASCII.
pub open spec fn hex_at(bytes: Seq<u8>, i: int) -> u8 {
    if i % 2 == 0 {
        hex_byte(bytes[i / 2] as int / 16)
    } else {
        hex_byte(bytes[i / 2] as int % 16)
    }
}

/// `b` in lower case, if it is an ASCII letter.
pub open spec fn ascii_lower(b: u8) -> u8 {
    if 65 <= b <= 90 {
        (b + 32) as u8
    } else {
        b
    }
}

/// `text` is the hexadecimal form of `bytes`, in either case.
pub open spec fn is_hex_of(text: Seq<u8>, bytes: Seq<u8>) -> bool {
    &&& text.len() == 2 * bytes.len()
    &&& forall|i: int| 0 <= i < text.len() ==> ascii_lower(#[trigger] text[i]) == hex_at(bytes, i)
}

/// Whether `text` is the hexadecimal form of `bytes`, in either case.
fn hex_matches(text: &[u8], bytes: &[u8; 32]) -> (same: bool)
    ensures
        same == is_hex_of(text@, bytes@),
{
    if text.len() != 64 {
        return false;
    }
    let mut i: usize = 0;
    while i < 64
        invariant
            i <= 64 == text@.len(),
            forall|j: int| 0 <= j < i ==> ascii_lower(#[trigger] text@[j]) == hex_at(bytes@, j),
        decreases 64 - i,
    {
        let b: u8 = bytes[i / 2];
        let d: u8 = if i % 2 == 0 {
            b / 16
        } else {
            b % 16
        };
        let digit: u8 = if d < 10 {
            48 + d
        } else {
            87 + d
        };
        let c: u8 = text[i];
        let lower: u8 = if 65 <= c && c <= 90 {
            c + 32
        } else {
            c
        };
        if lower != digit {
            assert(ascii_lower(text@[i as int]) != hex_at(bytes@, i as int));
            return false;
        }
        i = i + 1;
    }
    true
}

/// The 64 bits of `v`, without a sign.
fn low_64(v: i64) -> (bits: u64)
    ensures
        bits == v as int % 0x1_0000_0000_0000_0000,
{
    if v >= 0 {
        v as u64
    } else {
        (v as i128 + 0x1_0000_0000_0000_0000) as u64
    }
}

/// The low 32 bits of `v`.
fn low_32(v: i64) -> (bits: u32)
    ensures
        bits == v as int % 0x1_0000_0000,
{
    let wide: u64 = low_64(v);
    assert(wide as int % 0x1_0000_0000 == v as int % 0x1_0000_0000);
    (wide % 0x1_0000_0000) as u32
}

/// What of `outcome` is not as expected, if anything: the first of size, CRC-32
/// (where it is known) and SHA-256.
pub open spec fn mismatch(
    outcome: DecompressStreamOutcome,
    expected_size: i64,
    expected_crc: i64,
    crc_known: bool,
    expected_sha_hex: Seq<char>,
) -> Option<StreamMismatch> {
    if outcome.output_size != expected_size as int % 0x1_0000_0000_0000_0000 {
        Some(StreamMismatch::Size)
    } else if crc_known && outcome.crc32 != expected_crc as int % 0x1_0000_0000 {
        Some(StreamMismatch::Crc)
    } else if !is_hex_of(utf8::encode_utf8(expected_sha_hex), outcome.sha256@) {
        Some(StreamMismatch::Sha)
    } else {
        None
    }
}

/// Check a decompressed stream against what the descriptor says.
pub fn check_stream(
    outcome: &DecompressStreamOutcome,
    expected_size: i64,
    expected_crc: i64,
    crc_known: bool,
    expected_sha_hex: &str,
) -> (r: Result<(), StreamMismatch>)
    ensures
        match r {
            Ok(_) => mismatch(
                *outcome,
                expected_size,
                expected_crc,
                crc_known,
                expected_sha_hex@,
            ) is None,
            Err(m) => mismatch(
                *outcome,
                expected_size,
                expected_crc,
                crc_known,
                expected_sha_hex@,
            ) == Some(m),
        },
{
    if outcome.output_size != low_64(expected_size) {
        return Err(StreamMismatch::Size);
    }
    if crc_known && outcome.crc32 != low_32(expected_crc) {
        return Err(StreamMismatch::Crc);
    }
    if !hex_matches(expected_sha_hex.as_bytes(), &outcome.sha256) {
        return Err(StreamMismatch::Sha);
    }
    Ok(())
}

/// The status tells a host what its bytes did. Bytes that are no frame get the error
/// word and change nothing. For a frame it says whether the object is complete,
/// whether the frame brought a new symbol, how many symbols there are and how many
/// frames of another session came in a row.
pub proof fn law_status_tells_outcome(before: ReceiverView, bytes: Seq<u8>)
    ensures
        ({
            let after = after_bytes(before, bytes);
            let status = status_of(before, after, bytes);
            let frame = FrameView::read(bytes);
            let streak = after.session_mismatch_streak;
            &&& FrameView::read_error(bytes) is Some ==> status == 0xFFFF_FFFF_0000_0000
                && after == before
            &&& FrameView::read_error(bytes) is None ==> {
                &&& after == before.after_frame(frame.header, frame.payload)
                &&& status & 1 == 1 <==> after.complete()
                &&& (status >> 1) & 1 == 1 <==> after.progress().received_symbols
                    > before.progress().received_symbols
                &&& (status >> 8) & 0xFFFF == if streak < 65_535 {
                    streak as u64
                } else {
                    65_535
                }
                &&& status >> 32 == after.progress().received_symbols
            }
        }),
{
    let after = after_bytes(before, bytes);
    ingest_status::law_status_fields_read_back(
        after.complete(),
        after.progress().received_symbols > before.progress().received_symbols,
        after.session_mismatch_streak,
        after.progress().received_symbols,
    );
}

/// The value of a hexadecimal digit in ASCII, in either case.
pub open spec fn digit_value(c: u8) -> Option<int> {
    if 48 <= c <= 57 {
        Some(c - 48)
    } else if 97 <= c <= 102 {
        Some(c - 87)
    } else if 65 <= c <= 70 {
        Some(c - 55)
    } else {
        None
    }
}

/// The digits at `2 * i` and after it are the halves of byte `i`.
pub open spec fn spells_byte(text: Seq<u8>, bytes: Seq<u8>, i: int) -> bool {
    &&& digit_value(text[2 * i]) == Some(bytes[i] as int / 16)
    &&& digit_value(text[2 * i + 1]) == Some(bytes[i] as int % 16)
}

proof fn lemma_digit(c: u8, d: int)
    requires
        0 <= d < 16,
    ensures
        ascii_lower(c) == hex_byte(d) <==> digit_value(c) == Some(d),
{
}

/// Text is the hexadecimal form of bytes exactly where it has two digits for each,
/// and these are its upper and its lower half.
pub proof fn law_hexadecimal_text(text: Seq<u8>, bytes: Seq<u8>)
    ensures
        is_hex_of(text, bytes) <==> text.len() == 2 * bytes.len() && forall|i: int|
            0 <= i < bytes.len() ==> #[trigger] spells_byte(text, bytes, i),
{
    if is_hex_of(text, bytes) {
        assert forall|i: int| 0 <= i < bytes.len() implies #[trigger] spells_byte(
            text,
            bytes,
            i,
        ) by {
            assert(ascii_lower(text[2 * i]) == hex_at(bytes, 2 * i));
            assert(ascii_lower(text[2 * i + 1]) == hex_at(bytes, 2 * i + 1));
            lemma_digit(text[2 * i], bytes[i] as int / 16);
            lemma_digit(text[2 * i + 1], bytes[i] as int % 16);
        }
    }
    if text.len() == 2 * bytes.len() && forall|i: int|
        0 <= i < bytes.len() ==> #[trigger] spells_byte(text, bytes, i) {
        assert forall|j: int| 0 <= j < text.len() implies ascii_lower(#[trigger] text[j])
            == hex_at(bytes, j) by {
            let i = j / 2;
            assert(spells_byte(text, bytes, i));
            lemma_digit(text[2 * i], bytes[i] as int / 16);
            lemma_digit(text[2 * i + 1], bytes[i] as int % 16);
            assert(j == 2 * i || j == 2 * i + 1);
        }
    }
}

/// A stream passes exactly where its size, its CRC-32 where one is known, and its
/// SHA-256 are those expected. The numbers come as signed integers of the same
/// bits.
pub proof fn law_stream_passes_exactly(
    outcome: DecompressStreamOutcome,
    expected_size: i64,
    expected_crc: i64,
    crc_known: bool,
    expected_sha_hex: Seq<char>,
)
    requires
        expected_size >= 0,
        0 <= expected_crc < 0x1_0000_0000,
    ensures
        ({
            let found = mismatch(
                outcome,
                expected_size,
                expected_crc,
                crc_known,
                expected_sha_hex,
            );
            let right_size = outcome.output_size == expected_size;
            let right_crc = !crc_known || outcome.crc32 == expected_crc;
            let right_sha = is_hex_of(utf8::encode_utf8(expected_sha_hex), outcome.sha256@);
            &&& found is None <==> right_size && right_crc && right_sha
            &&& found == Some(StreamMismatch::Size) <==> !right_size
            &&& found == Some(StreamMismatch::Crc) <==> right_size && !right_crc
            &&& found == Some(StreamMismatch::Sha) <==> right_size && right_crc && !right_sha
        }),
{
}

/// A host's tag is the low byte of what it hands over, and its cap is what it asks
/// for, up to 256 MiB.
pub proof fn law_host_arguments(compression: i32, max_output: i64)
    ensures
        0 <= compression < 256 ==> tag_of(compression) == compression,
        compression < i32::MAX - 255 ==> tag_of((compression + 256) as i32) == tag_of(compression),
        0 <= max_output <= 268_435_456 ==> memory_cap(max_output) == max_output,
        max_output < 0 ==> memory_cap(max_output) == 0,
        max_output > 268_435_456 ==> memory_cap(max_output) == 268_435_456,
{
}

} // verus!
