//! Session descriptors.
//!
//! A descriptor frame carries, in place of a RaptorQ symbol, the metadata that a
//! receiver needs to build its decoder, and the file metadata. The sender emits
//! one every few data frames, so that a receiver that joins mid-stream learns
//! the object layout within seconds.
//!
//! Layout, big-endian, zero-padded to one symbol:
//!
//! ```text
//! u8      magic        0xD5
//! u8      version      3 (single object) or 5 (segment)
//! u16     number of blocks
//! u64     transfer length
//! u32     symbol size
//! u8[12]  object transmission information
//! per block: u32 sbn, u32 source symbols, u64 block length
//! --- from version 2 on ---
//! u8      length of the file name, then the name in UTF-8
//! u64     original size
//! u32     CRC-32 of the original
//! --- from version 3 on ---
//! u8      compression
//! u64     compressed size
//! --- version 5 ---
//! u128    root session id
//! u32     segment index
//! u32     segment count
//! u64     offset in the compressed stream
//! u64     size of the compressed stream
//! u8[32]  SHA-256 of the whole original
//! u8[32]  SHA-256 of this segment
//! ```
//!
//! Version 4 described segments under another model and is rejected.
use crate::qr_protocol::compress::COMPRESSION_NONE;
use crate::qr_protocol::frame::{FrameView, FLAG_DESCRIPTOR};
use crate::qr_protocol::{Frame, FrameHeader};
use crate::raptorq_core::codec;
use crate::raptorq_core::meta;
use crate::raptorq_core::meta::MetaView;
use crate::raptorq_core::{ObjectMeta, SourceBlockMeta};
use crate::transfer_engine::segment::{SegmentMeta, SegmentView};
use crate::text;
use crate::transfer_engine::Error;
use crate::wire;
use vstd::prelude::*;
use vstd::utf8;

pub mod laws;

verus! {

/// First byte of a descriptor.
pub const DESC_MAGIC: u8 = 0xD5;

/// Version of a segment's descriptor.
pub const DESC_VERSION: u8 = 5;

/// Version of the withdrawn segmentation model.
pub const DESC_LEGACY_V4: u8 = 4;

/// Version of a single object's descriptor.
pub const DESC_V3_VERSION: u8 = 3;

/// Bytes before the block table.
pub const DESC_FIXED_OVERHEAD: usize = 28;

/// Bytes of the version-2 extension without the file name.
pub const DESC_V2_TAIL_FIXED: usize = 13;

/// Bytes of the version-3 extension.
pub const DESC_V3_TAIL_FIXED: usize = 9;

/// Bytes of the segment extension.
pub const DESC_SEGMENT_TAIL_FIXED: usize = 104;

/// File metadata carried alongside the object metadata.
#[derive(Debug, PartialEq, Eq)]
pub struct FileMeta {
    /// File name. A descriptor may carry a shortened one.
    pub filename: String,
    /// Size of the original file.
    pub original_size: u64,
    /// CRC-32 of the original file.
    pub crc32: u32,
    /// Compression that was applied to the payload.
    pub compression: u8,
    /// Size of the compressed payload, to which a receiver truncates the padding
    /// of the recovered object.
    pub compressed_size: u64,
    /// Whether `compressed_size` is a real value. Not on the wire.
    pub compressed_size_known: bool,
    /// Whether `crc32` is a real value. Not on the wire.
    pub crc32_known: bool,
}

/// What a [`FileMeta`] stands for.
#[verifier::ext_equal]
pub struct FileMetaView {
    pub filename: Seq<char>,
    pub original_size: u64,
    pub crc32: u32,
    pub compression: u8,
    pub compressed_size: u64,
    pub compressed_size_known: bool,
    pub crc32_known: bool,
}

impl View for FileMeta {
    type V = FileMetaView;

    open spec fn view(&self) -> FileMetaView {
        FileMetaView {
            filename: self.filename@,
            original_size: self.original_size,
            crc32: self.crc32,
            compression: self.compression,
            compressed_size: self.compressed_size,
            compressed_size_known: self.compressed_size_known,
            crc32_known: self.crc32_known,
        }
    }
}

impl FileMetaView {
    /// File metadata of which nothing is known.
    pub open spec fn unknown() -> FileMetaView {
        FileMetaView {
            filename: Seq::empty(),
            original_size: 0,
            crc32: 0,
            compression: COMPRESSION_NONE,
            compressed_size: 0,
            compressed_size_known: false,
            crc32_known: false,
        }
    }
}

impl FileMeta {
    /// Whether `other` is the same metadata.
    pub fn same(&self, other: &FileMeta) -> (same: bool)
        ensures
            same == (self@ == other@),
    {
        let same: bool = text::same_text(&self.filename, &other.filename) && self.original_size
            == other.original_size && self.crc32 == other.crc32 && self.compression
            == other.compression && self.compressed_size == other.compressed_size
            && self.compressed_size_known == other.compressed_size_known && self.crc32_known
            == other.crc32_known;
        assert(same ==> self@ =~= other@);
        same
    }
}

impl Default for FileMeta {
    fn default() -> (file: Self)
        ensures
            file@ == FileMetaView::unknown(),
    {
        let file = FileMeta {
            filename: String::new(),
            original_size: 0,
            crc32: 0,
            compression: COMPRESSION_NONE,
            compressed_size: 0,
            compressed_size_known: false,
            crc32_known: false,
        };
        assert(file@ =~= FileMetaView::unknown());
        file
    }
}

impl Clone for FileMeta {
    fn clone(&self) -> (file: Self)
        ensures
            file@ == self@,
    {
        FileMeta {
            filename: self.filename.clone(),
            original_size: self.original_size,
            crc32: self.crc32,
            compression: self.compression,
            compressed_size: self.compressed_size,
            compressed_size_known: self.compressed_size_known,
            crc32_known: self.crc32_known,
        }
    }
}

/// A parsed descriptor.
#[derive(Debug, PartialEq, Eq)]
pub struct DescriptorInfo {
    pub meta: ObjectMeta,
    pub file_meta: FileMeta,
    /// Present for a segment of a large transfer only.
    pub segment: Option<SegmentMeta>,
}

/// What a [`DescriptorInfo`] stands for.
#[verifier::ext_equal]
pub struct DescriptorView {
    pub meta: MetaView,
    pub file: FileMetaView,
    pub segment: Option<SegmentView>,
}

/// What an optional segment stands for.
pub open spec fn segment_view(segment: Option<SegmentMeta>) -> Option<SegmentView> {
    match segment {
        Some(s) => Some(s@),
        None => None,
    }
}

impl View for DescriptorInfo {
    type V = DescriptorView;

    open spec fn view(&self) -> DescriptorView {
        DescriptorView {
            meta: self.meta@,
            file: self.file_meta@,
            segment: segment_view(self.segment),
        }
    }
}

impl Clone for DescriptorInfo {
    fn clone(&self) -> (info: Self)
        ensures
            info@ == self@,
    {
        let segment = match &self.segment {
            Some(s) => Some(s.clone()),
            None => None,
        };
        DescriptorInfo { meta: self.meta.clone(), file_meta: self.file_meta.clone(), segment }
    }
}

/// The block table on the wire.
pub open spec fn block_table(blocks: Seq<SourceBlockMeta>) -> Seq<u8>
    decreases blocks.len(),
{
    if blocks.len() == 0 {
        Seq::empty()
    } else {
        let b = blocks.last();
        block_table(blocks.drop_last()) + (wire::be32(b.sbn) + wire::be32(b.num_source_symbols)
            + wire::be64(b.block_length))
    }
}

/// The object metadata on the wire.
pub open spec fn meta_part(meta: MetaView, version: u8) -> Seq<u8> {
    seq![DESC_MAGIC, version] + wire::be16((meta.blocks.len() % 0x1_0000) as u16) + wire::be64(
        meta.transfer_length,
    ) + wire::be32(meta.symbol_size) + meta.oti + block_table(meta.blocks)
}

/// The file metadata on the wire, with the first `n` bytes of the name.
pub open spec fn file_part(file: FileMetaView, n: int) -> Seq<u8> {
    seq![n as u8] + utf8::encode_utf8(file.filename).take(n) + wire::be64(file.original_size)
        + wire::be32(file.crc32) + seq![file.compression] + wire::be64(file.compressed_size)
}

/// The segment metadata on the wire.
pub open spec fn segment_part(segment: Option<SegmentView>) -> Seq<u8> {
    match segment {
        Some(s) => wire::be128(s.root_session_id) + wire::be32(s.segment_index) + wire::be32(
            s.segment_count,
        ) + wire::be64(s.original_offset) + wire::be64(s.root_original_size) + s.root_sha256
            + s.raw_sha256,
        None => Seq::empty(),
    }
}

/// Bytes of a descriptor besides the file name.
pub open spec fn fixed_len(meta: MetaView, segment: Option<SegmentView>) -> int {
    50 + 16 * meta.blocks.len() + if segment is Some {
        104int
    } else {
        0
    }
}

/// The largest character boundary of `bytes` that is at most `n`.
pub open spec fn boundary_at_most(bytes: Seq<u8>, n: int) -> int
    decreases n,
{
    if n <= 0 {
        0
    } else if utf8::is_char_boundary(bytes, n) {
        n
    } else {
        boundary_at_most(bytes, n - 1)
    }
}

/// The lesser of two integers.
pub open spec fn least(a: int, b: int) -> int {
    if a < b {
        a
    } else {
        b
    }
}

/// How many bytes of the file name a descriptor carries: as many whole
/// characters as fit in the symbol and in the length byte.
pub open spec fn name_len(
    meta: MetaView,
    file: FileMetaView,
    segment: Option<SegmentView>,
) -> int {
    let bytes = utf8::encode_utf8(file.filename);
    let room = meta.symbol_size - fixed_len(meta, segment);
    boundary_at_most(bytes, least(bytes.len() as int, least(room, 255)))
}

/// A descriptor before padding.
pub open spec fn descriptor_body(
    meta: MetaView,
    file: FileMetaView,
    segment: Option<SegmentView>,
) -> Seq<u8> {
    meta_part(
        meta,
        if segment is Some {
            DESC_VERSION
        } else {
            DESC_V3_VERSION
        },
    ) + file_part(file, name_len(meta, file, segment)) + segment_part(segment)
}

/// The descriptor payload of one symbol.
pub open spec fn descriptor_payload(
    meta: MetaView,
    file: FileMetaView,
    segment: Option<SegmentView>,
) -> Seq<u8> {
    codec::zero_padded(descriptor_body(meta, file, segment), meta.symbol_size as nat)
}

/// Bytes of a descriptor before padding.
pub open spec fn body_len(
    meta: MetaView,
    file: FileMetaView,
    segment: Option<SegmentView>,
) -> int {
    fixed_len(meta, segment) + name_len(meta, file, segment)
}

proof fn lemma_block_table_len(blocks: Seq<SourceBlockMeta>)
    ensures
        block_table(blocks).len() == 16 * blocks.len(),
    decreases blocks.len(),
{
    broadcast use wire::group_be_len;

    if blocks.len() > 0 {
        lemma_block_table_len(blocks.drop_last());
    }
}

proof fn lemma_boundary(bytes: Seq<u8>, n: int)
    requires
        utf8::valid_utf8(bytes),
        n <= bytes.len(),
    ensures
        0 <= boundary_at_most(bytes, n),
        n >= 0 ==> boundary_at_most(bytes, n) <= n,
        utf8::is_char_boundary(bytes, boundary_at_most(bytes, n)),
    decreases n,
{
    utf8::is_char_boundary_start_end_of_seq(bytes);
    if n > 0 && !utf8::is_char_boundary(bytes, n) {
        lemma_boundary(bytes, n - 1);
    }
}

proof fn lemma_name_len(meta: MetaView, file: FileMetaView, segment: Option<SegmentView>)
    ensures
        0 <= name_len(meta, file, segment) <= 255,
        name_len(meta, file, segment) <= utf8::encode_utf8(file.filename).len(),
        utf8::is_char_boundary(
            utf8::encode_utf8(file.filename),
            name_len(meta, file, segment),
        ),
{
    let bytes = utf8::encode_utf8(file.filename);
    utf8::encode_utf8_valid_utf8(file.filename);
    let room = meta.symbol_size - fixed_len(meta, segment);
    lemma_boundary(bytes, least(bytes.len() as int, least(room, 255)));
}

/// The body is as long as its parts.
pub proof fn lemma_body_len(meta: MetaView, file: FileMetaView, segment: Option<SegmentView>)
    requires
        meta.oti.len() == 12,
        segment matches Some(s) ==> s.root_sha256.len() == 32 && s.raw_sha256.len() == 32,
    ensures
        descriptor_body(meta, file, segment).len() == body_len(meta, file, segment),
{
    broadcast use wire::group_be_len;

    lemma_block_table_len(meta.blocks);
    lemma_name_len(meta, file, segment);
}

/// A descriptor that fits fills exactly one symbol.
pub proof fn lemma_payload_len(meta: MetaView, file: FileMetaView, segment: Option<SegmentView>)
    requires
        meta.oti.len() == 12,
        segment matches Some(s) ==> s.root_sha256.len() == 32 && s.raw_sha256.len() == 32,
        body_len(meta, file, segment) <= meta.symbol_size,
    ensures
        descriptor_payload(meta, file, segment).len() == meta.symbol_size,
{
    lemma_body_len(meta, file, segment);
}

/// Serialize object and file metadata into a descriptor payload of one symbol.
pub fn build_payload(meta: &ObjectMeta, file_meta: &FileMeta) -> (r: Result<Vec<u8>, Error>)
    requires
        meta.blocks@.len() * 16 + 0x1_0000 <= usize::MAX,
    ensures
        is_payload(r, meta@, file_meta@, None),
{
    build_payload_inner(meta, file_meta, None)
}

/// Serialize the descriptor payload of one segment of a large transfer.
pub fn build_segment_payload(
    meta: &ObjectMeta,
    file_meta: &FileMeta,
    segment: &SegmentMeta,
) -> (r: Result<Vec<u8>, Error>)
    requires
        meta.blocks@.len() * 16 + 0x1_0000 <= usize::MAX,
    ensures
        is_payload(r, meta@, file_meta@, Some(segment@)),
{
    build_payload_inner(meta, file_meta, Some(segment))
}

/// `r` is the descriptor payload where it fits in one symbol, and an error with
/// the sizes where it does not.
pub open spec fn is_payload(
    r: Result<Vec<u8>, Error>,
    meta: MetaView,
    file: FileMetaView,
    segment: Option<SegmentView>,
) -> bool {
    match r {
        Ok(payload) => {
            &&& body_len(meta, file, segment) <= meta.symbol_size
            &&& payload@ == descriptor_payload(meta, file, segment)
            &&& payload@.len() == meta.symbol_size
        },
        Err(e) => {
            &&& body_len(meta, file, segment) > meta.symbol_size
            &&& e == Error::Protocol(
                crate::qr_protocol::Error::BufferTooShort {
                    need: body_len(meta, file, segment) as usize,
                    have: meta.symbol_size as usize,
                },
            )
        },
    }
}

fn build_payload_inner(
    meta: &ObjectMeta,
    file_meta: &FileMeta,
    segment: Option<&SegmentMeta>,
) -> (r: Result<Vec<u8>, Error>)
    requires
        meta.blocks@.len() * 16 + 0x1_0000 <= usize::MAX,
    ensures
        is_payload(r, meta@, file_meta@, borrowed_view(segment)),
{
    let ghost seg = borrowed_view(segment);
    let symbol_size: usize = meta.symbol_size as usize;
    let segment_tail: usize = if segment.is_some() {
        DESC_SEGMENT_TAIL_FIXED
    } else {
        0
    };
    let fixed: usize = DESC_FIXED_OVERHEAD + meta.blocks.len() * 16 + DESC_V2_TAIL_FIXED
        + DESC_V3_TAIL_FIXED + segment_tail;
    let name = file_meta.filename.as_str();
    let filename_len: usize = fitting_name_len(name, symbol_size.saturating_sub(fixed));
    proof {
        lemma_name_len(meta@, file_meta@, seg);
        lemma_body_len(meta@, file_meta@, seg);
        assert(filename_len == name_len(meta@, file_meta@, seg));
    }
    let body_len: usize = fixed + filename_len;
    if body_len > symbol_size {
        return Err(
            Error::Protocol(
                crate::qr_protocol::Error::BufferTooShort { need: body_len, have: symbol_size },
            ),
        );
    }
    let mut buf: Vec<u8> = Vec::new();
    push_meta(
        &mut buf,
        meta,
        if segment.is_some() {
            DESC_VERSION
        } else {
            DESC_V3_VERSION
        },
    );
    push_file(&mut buf, file_meta, filename_len);
    push_segment(&mut buf, segment);
    assert(buf@ =~= descriptor_body(meta@, file_meta@, seg));
    buf.resize(symbol_size, 0);
    assert(buf@ =~= descriptor_payload(meta@, file_meta@, seg));
    Ok(buf)
}

/// What an optional borrowed segment stands for.
pub open spec fn borrowed_view(segment: Option<&SegmentMeta>) -> Option<SegmentView> {
    match segment {
        Some(s) => Some(s@),
        None => None,
    }
}

/// How many bytes of `name` fit in `room` bytes and in the length byte, without
/// splitting a character.
fn fitting_name_len(name: &str, room: usize) -> (n: usize)
    ensures
        n == boundary_at_most(
            utf8::encode_utf8(name@),
            least(utf8::encode_utf8(name@).len() as int, least(room as int, 255)),
        ),
{
    let bytes = name.as_bytes();
    let mut n: usize = bytes.len();
    if room < n {
        n = room;
    }
    if 255 < n {
        n = 255;
    }
    let ghost limit = n as int;
    proof {
        utf8::encode_utf8_valid_utf8(name@);
    }
    while !name.is_char_boundary(n)
        invariant
            utf8::valid_utf8(utf8::encode_utf8(name@)),
            n <= utf8::encode_utf8(name@).len(),
            boundary_at_most(utf8::encode_utf8(name@), n as int) == boundary_at_most(
                utf8::encode_utf8(name@),
                limit,
            ),
        decreases n,
    {
        proof {
            utf8::is_char_boundary_start_end_of_seq(utf8::encode_utf8(name@));
        }
        n = n - 1;
    }
    n
}

fn push_meta(out: &mut Vec<u8>, meta: &ObjectMeta, version: u8)
    ensures
        final(out)@ == old(out)@ + meta_part(meta@, version),
{
    out.push(DESC_MAGIC);
    out.push(version);
    wire::push_u16(out, (meta.blocks.len() % 0x1_0000) as u16);
    wire::push_u64(out, meta.transfer_length);
    wire::push_u32(out, meta.symbol_size);
    wire::push_bytes(out, &meta.oti_bytes);
    push_blocks(out, &meta.blocks);
    assert(out@ =~= old(out)@ + meta_part(meta@, version));
}

fn push_file(out: &mut Vec<u8>, file: &FileMeta, n: usize)
    requires
        n <= 255,
        n <= utf8::encode_utf8(file.filename@).len(),
    ensures
        final(out)@ == old(out)@ + file_part(file@, n as int),
{
    let name = file.filename.as_str();
    let bytes = vstd::slice::slice_subrange(name.as_bytes(), 0, n);
    assert(bytes@ =~= utf8::encode_utf8(file.filename@).take(n as int));
    out.push(n as u8);
    wire::push_bytes(out, bytes);
    wire::push_u64(out, file.original_size);
    wire::push_u32(out, file.crc32);
    out.push(file.compression);
    wire::push_u64(out, file.compressed_size);
    assert(out@ =~= old(out)@ + file_part(file@, n as int));
}

fn push_segment(out: &mut Vec<u8>, segment: Option<&SegmentMeta>)
    ensures
        final(out)@ == old(out)@ + segment_part(borrowed_view(segment)),
{
    match segment {
        Some(s) => {
            wire::push_u128(out, s.root_session_id);
            wire::push_u32(out, s.segment_index);
            wire::push_u32(out, s.segment_count);
            wire::push_u64(out, s.original_offset);
            wire::push_u64(out, s.root_original_size);
            wire::push_bytes(out, &s.root_sha256);
            wire::push_bytes(out, &s.raw_sha256);
        },
        None => {},
    }
    assert(out@ =~= old(out)@ + segment_part(borrowed_view(segment)));
}

fn push_blocks(out: &mut Vec<u8>, blocks: &Vec<SourceBlockMeta>)
    ensures
        final(out)@ == old(out)@ + block_table(blocks@),
{
    let mut i: usize = 0;
    assert(out@ =~= old(out)@ + block_table(blocks@.take(0)));
    while i < blocks.len()
        invariant
            i <= blocks@.len(),
            out@ == old(out)@ + block_table(blocks@.take(i as int)),
        decreases blocks@.len() - i,
    {
        let ghost before = out@;
        let b = blocks[i];
        wire::push_u32(out, b.sbn);
        wire::push_u32(out, b.num_source_symbols);
        wire::push_u64(out, b.block_length);
        proof {
            assert(blocks@.take(i + 1).drop_last() =~= blocks@.take(i as int));
            assert(blocks@.take(i + 1).last() == b);
            assert(out@ =~= old(out)@ + block_table(blocks@.take(i + 1)));
        }
        i = i + 1;
    }
    assert(blocks@.take(i as int) =~= blocks@);
}

/// The block table of `n` blocks that `s` spells out.
pub open spec fn parsed_blocks(s: Seq<u8>, n: int) -> Seq<SourceBlockMeta> {
    Seq::new(
        n as nat,
        |i: int|
            SourceBlockMeta {
                sbn: wire::u32_at(s, 28 + 16 * i),
                num_source_symbols: wire::u32_at(s, 32 + 16 * i),
                block_length: wire::u64_at(s, 36 + 16 * i),
            },
    )
}

/// The object metadata that `s` spells out.
pub open spec fn parsed_meta(s: Seq<u8>) -> MetaView {
    MetaView {
        transfer_length: wire::u64_at(s, 4),
        symbol_size: wire::u32_at(s, 12),
        oti: s.subrange(16, 28),
        blocks: parsed_blocks(s, wire::u16_at(s, 2) as int),
    }
}

/// The file metadata that `s` spells out at `o`, and where it ends, if it is
/// all there. Before version 3 the payload is the original itself.
pub open spec fn parsed_file(s: Seq<u8>, o: int, version: u8) -> Option<(FileMetaView, int)> {
    let n = s[o] as int;
    let name = s.subrange(o + 1, o + 1 + n);
    let tail = o + 1 + n;
    let original_size = wire::u64_at(s, tail);
    let v3 = version >= DESC_V3_VERSION;
    let end = tail + 12 + if v3 {
        9int
    } else {
        0
    };
    if s.len() <= o || s.len() < tail + 12 || !utf8::valid_utf8(name) || s.len() < end {
        None
    } else {
        Some(
            (
                FileMetaView {
                    filename: utf8::decode_utf8(name),
                    original_size,
                    crc32: wire::u32_at(s, tail + 8),
                    compression: if v3 {
                        s[tail + 12]
                    } else {
                        COMPRESSION_NONE
                    },
                    compressed_size: if v3 {
                        wire::u64_at(s, tail + 13)
                    } else {
                        original_size
                    },
                    compressed_size_known: true,
                    crc32_known: true,
                },
                end,
            ),
        )
    }
}

/// The segment metadata that `s` spells out at `o`.
pub open spec fn parsed_segment(s: Seq<u8>, o: int) -> SegmentView {
    SegmentView {
        root_session_id: wire::u128_at(s, o),
        segment_index: wire::u32_at(s, o + 16),
        segment_count: wire::u32_at(s, o + 20),
        original_offset: wire::u64_at(s, o + 24),
        root_original_size: wire::u64_at(s, o + 32),
        root_sha256: s.subrange(o + 40, o + 72),
        raw_sha256: s.subrange(o + 72, o + 104),
    }
}

/// `s` starts like a descriptor of a supported version, and its block table is
/// all there.
pub open spec fn has_meta(s: Seq<u8>) -> bool {
    &&& s.len() >= DESC_FIXED_OVERHEAD
    &&& s[0] == DESC_MAGIC
    &&& 1 <= s[1] <= DESC_VERSION
    &&& s[1] != DESC_LEGACY_V4
    &&& s.len() >= 28 + 16 * wire::u16_at(s, 2)
}

/// The descriptor that `s` spells out, if it is one.
pub open spec fn parsed(s: Seq<u8>) -> Option<DescriptorView> {
    let o = 28 + 16 * wire::u16_at(s, 2);
    if !has_meta(s) {
        None
    } else if s[1] == 1 {
        Some(
            DescriptorView { meta: parsed_meta(s), file: FileMetaView::unknown(), segment: None },
        )
    } else {
        match parsed_file(s, o, s[1]) {
            None => None,
            Some((file, end)) => if s[1] != DESC_VERSION {
                Some(DescriptorView { meta: parsed_meta(s), file, segment: None })
            } else if s.len() < end + DESC_SEGMENT_TAIL_FIXED {
                None
            } else {
                Some(
                    DescriptorView {
                        meta: parsed_meta(s),
                        file,
                        segment: Some(parsed_segment(s, end)),
                    },
                )
            },
        }
    }
}

/// What an optional descriptor stands for.
pub open spec fn info_view(info: Option<DescriptorInfo>) -> Option<DescriptorView> {
    match info {
        Some(i) => Some(i@),
        None => None,
    }
}

/// `String::from_utf8`: the characters that `bytes` encode, if they are valid
/// UTF-8.
#[verifier::external_body]
fn utf8_string(bytes: Vec<u8>) -> (s: Option<String>)
    ensures
        s is Some <==> utf8::valid_utf8(bytes@),
        s matches Some(t) ==> t@ == utf8::decode_utf8(bytes@),
{
    String::from_utf8(bytes).ok()
}

/// Parse a descriptor payload of version 1, 2, 3 or 5.
///
/// Which extensions follow is told by the version byte alone: a payload is
/// zero-padded, so its length says nothing. Returns `None` for anything that is
/// not a descriptor, for an unknown or withdrawn version, and for a truncated
/// one.
pub fn parse_payload(payload: &[u8]) -> (info: Option<DescriptorInfo>)
    ensures
        info_view(info) == parsed(payload@),
{
    if payload.len() < DESC_FIXED_OVERHEAD || payload[0] != DESC_MAGIC {
        return None;
    }
    let version: u8 = payload[1];
    if version < 1 || version > DESC_VERSION {
        return None;
    }
    if version == DESC_LEGACY_V4 {
        return None;
    }
    let num_blocks: usize = wire::read_u16(payload, 2) as usize;
    let blocks_end: usize = DESC_FIXED_OVERHEAD + num_blocks * 16;
    if payload.len() < blocks_end {
        return None;
    }
    let meta = ObjectMeta {
        transfer_length: wire::read_u64(payload, 4),
        symbol_size: wire::read_u32(payload, 12),
        oti_bytes: wire::read_12(payload, 16),
        blocks: parse_blocks(payload, num_blocks),
    };
    assert(meta@ =~= parsed_meta(payload@));
    if version == 1 {
        let info = DescriptorInfo { meta, file_meta: FileMeta::default(), segment: None };
        assert(info@ =~= parsed(payload@)->0);
        return Some(info);
    }
    let (file_meta, o) = match parse_file(payload, blocks_end, version) {
        Some(file) => file,
        None => {
            return None;
        },
    };
    let segment = if version == DESC_VERSION {
        if payload.len() - o < DESC_SEGMENT_TAIL_FIXED {
            return None;
        }
        Some(parse_segment(payload, o))
    } else {
        None
    };
    let info = DescriptorInfo { meta, file_meta, segment };
    assert(info@ =~= parsed(payload@)->0);
    Some(info)
}

fn parse_blocks(payload: &[u8], n: usize) -> (blocks: Vec<SourceBlockMeta>)
    requires
        n <= u16::MAX,
        28 + 16 * n <= payload.len(),
    ensures
        blocks@ == parsed_blocks(payload@, n as int),
{
    let mut blocks: Vec<SourceBlockMeta> = Vec::new();
    let mut i: usize = 0;
    while i < n
        invariant
            i <= n <= u16::MAX,
            28 + 16 * n <= payload.len(),
            blocks@ == parsed_blocks(payload@, i as int),
        decreases n - i,
    {
        let o: usize = DESC_FIXED_OVERHEAD + 16 * i;
        blocks.push(
            SourceBlockMeta {
                sbn: wire::read_u32(payload, o),
                num_source_symbols: wire::read_u32(payload, o + 4),
                block_length: wire::read_u64(payload, o + 8),
            },
        );
        assert(blocks@ =~= parsed_blocks(payload@, i + 1));
        i = i + 1;
    }
    blocks
}

fn parse_file(payload: &[u8], o: usize, version: u8) -> (file: Option<(FileMeta, usize)>)
    requires
        version >= 2,
        o <= payload.len(),
        o <= 0x20_0000,
    ensures
        match file {
            Some((f, end)) => {
                &&& parsed_file(payload@, o as int, version) == Some((f@, end as int))
                &&& end <= payload.len()
            },
            None => parsed_file(payload@, o as int, version) is None,
        },
{
    if payload.len() <= o {
        return None;
    }
    let n: usize = payload[o] as usize;
    let tail: usize = o + 1 + n;
    if payload.len() < tail + 12 {
        return None;
    }
    let name = vstd::slice::slice_subrange(payload, o + 1, tail);
    let filename = match utf8_string(wire::copy_of(name)) {
        Some(filename) => filename,
        None => {
            return None;
        },
    };
    let original_size: u64 = wire::read_u64(payload, tail);
    let crc32: u32 = wire::read_u32(payload, tail + 8);
    if version >= DESC_V3_VERSION {
        if payload.len() < tail + 12 + DESC_V3_TAIL_FIXED {
            return None;
        }
        let file = FileMeta {
            filename,
            original_size,
            crc32,
            compression: payload[tail + 12],
            compressed_size: wire::read_u64(payload, tail + 13),
            compressed_size_known: true,
            crc32_known: true,
        };
        proof {
            let expect = parsed_file(payload@, o as int, version)->0;
            assert(file@ =~= expect.0);
        }
        Some((file, tail + 12 + DESC_V3_TAIL_FIXED))
    } else {
        let file = FileMeta {
            filename,
            original_size,
            crc32,
            compression: COMPRESSION_NONE,
            compressed_size: original_size,
            compressed_size_known: true,
            crc32_known: true,
        };
        proof {
            let expect = parsed_file(payload@, o as int, version)->0;
            assert(file@ =~= expect.0);
        }
        Some((file, tail + 12))
    }
}

fn parse_segment(payload: &[u8], o: usize) -> (segment: SegmentMeta)
    requires
        o + 104 <= payload.len(),
    ensures
        segment@ == parsed_segment(payload@, o as int),
{
    let segment = SegmentMeta {
        root_session_id: wire::read_u128(payload, o),
        segment_index: wire::read_u32(payload, o + 16),
        segment_count: wire::read_u32(payload, o + 20),
        original_offset: wire::read_u64(payload, o + 24),
        root_original_size: wire::read_u64(payload, o + 32),
        root_sha256: wire::read_32(payload, o + 40),
        raw_sha256: wire::read_32(payload, o + 72),
    };
    assert(segment@ =~= parsed_segment(payload@, o as int));
    segment
}

/// The frame that carries a descriptor.
pub open spec fn descriptor_frame(
    meta: MetaView,
    file: FileMetaView,
    segment: Option<SegmentView>,
    session_id: u128,
    frame_index: u64,
    timestamp_ms: u64,
) -> FrameView {
    FrameView::sealed(
        FrameHeader {
            session_id,
            flags: FLAG_DESCRIPTOR,
            sbn: 0,
            esi: 0,
            total_blocks: meta.blocks.len() as u32,
            total_symbols: meta::total_symbols(meta.blocks) as u32,
            symbol_size: meta.symbol_size,
            frame_index,
            timestamp_ms,
            payload_crc32: 0,
        },
        descriptor_payload(meta, file, segment),
    )
}

/// `r` is the frame of a descriptor where the descriptor fits in one symbol, and
/// an error with the sizes where it does not.
pub open spec fn is_descriptor_frame(
    r: Result<Frame, Error>,
    meta: MetaView,
    file: FileMetaView,
    segment: Option<SegmentView>,
    session_id: u128,
    frame_index: u64,
    timestamp_ms: u64,
) -> bool {
    match r {
        Ok(frame) => {
            &&& body_len(meta, file, segment) <= meta.symbol_size
            &&& frame@ == descriptor_frame(
                meta,
                file,
                segment,
                session_id,
                frame_index,
                timestamp_ms,
            )
            &&& frame@.payload.len() == meta.symbol_size
        },
        Err(e) => {
            &&& body_len(meta, file, segment) > meta.symbol_size
            &&& e == Error::Protocol(
                crate::qr_protocol::Error::BufferTooShort {
                    need: body_len(meta, file, segment) as usize,
                    have: meta.symbol_size as usize,
                },
            )
        },
    }
}

/// Add up the source symbols of `blocks`.
pub fn sum_symbols(blocks: &Vec<SourceBlockMeta>) -> (total: u32)
    requires
        meta::total_symbols(blocks@) <= u32::MAX,
    ensures
        total == meta::total_symbols(blocks@),
{
    let mut total: u32 = 0;
    let mut i: usize = 0;
    while i < blocks.len()
        invariant
            i <= blocks@.len(),
            total == meta::total_symbols(blocks@.take(i as int)),
            meta::total_symbols(blocks@) <= u32::MAX,
        decreases blocks@.len() - i,
    {
        proof {
            assert(blocks@.take(i + 1).drop_last() =~= blocks@.take(i as int));
            assert(blocks@.take(i + 1).last() == blocks@[i as int]);
            lemma_total_symbols_prefix(blocks@, i + 1);
        }
        total = total + blocks[i].num_source_symbols;
        i = i + 1;
    }
    assert(blocks@.take(i as int) =~= blocks@);
    total
}

/// The first blocks have no more symbols than all of them.
pub proof fn lemma_total_symbols_prefix(blocks: Seq<SourceBlockMeta>, n: int)
    requires
        0 <= n <= blocks.len(),
    ensures
        meta::total_symbols(blocks.take(n)) <= meta::total_symbols(blocks),
    decreases blocks.len(),
{
    if n == blocks.len() {
        assert(blocks.take(n) =~= blocks);
    } else {
        lemma_total_symbols_prefix(blocks.drop_last(), n);
        assert(blocks.drop_last().take(n) =~= blocks.take(n));
    }
}

/// Build a descriptor frame for a single object.
pub fn build_frame(
    meta: &ObjectMeta,
    file_meta: &FileMeta,
    session_id: u128,
    frame_index: u64,
    timestamp_ms: u64,
) -> (r: Result<Frame, Error>)
    requires
        meta.blocks@.len() * 16 + 0x1_0000 <= usize::MAX,
        meta::total_symbols(meta.blocks@) <= u32::MAX,
    ensures
        is_descriptor_frame(
            r,
            meta@,
            file_meta@,
            None,
            session_id,
            frame_index,
            timestamp_ms,
        ),
{
    match build_payload(meta, file_meta) {
        Ok(payload) => {
            proof {
                lemma_name_len(meta@, file_meta@, None);
            }
            Ok(
                Frame::build(
                    session_id,
                    FLAG_DESCRIPTOR,
                    0,
                    0,
                    meta.blocks.len() as u32,
                    sum_symbols(&meta.blocks),
                    meta.symbol_size,
                    frame_index,
                    timestamp_ms,
                    &payload,
                ),
            )
        },
        Err(e) => Err(e),
    }
}

/// Build a descriptor frame for one segment of a large transfer, which must be
/// valid for the session.
pub fn build_segment_frame(
    meta: &ObjectMeta,
    file_meta: &FileMeta,
    segment: &SegmentMeta,
    child_session_id: u128,
    frame_index: u64,
    timestamp_ms: u64,
) -> (r: Result<Frame, Error>)
    requires
        meta.blocks@.len() * 16 + 0x1_0000 <= usize::MAX,
        meta::total_symbols(meta.blocks@) <= u32::MAX,
    ensures
        if segment@.valid(child_session_id, file_meta@) {
            is_descriptor_frame(
                r,
                meta@,
                file_meta@,
                Some(segment@),
                child_session_id,
                frame_index,
                timestamp_ms,
            )
        } else {
            r matches Err(e) && e matches Error::InvalidSegment(reason) && segment@.rejection(
                child_session_id,
                file_meta@,
            ) == Some(reason@)
        },
{
    match segment.validate(child_session_id, file_meta) {
        Ok(_) => {},
        Err(reason) => {
            return Err(Error::InvalidSegment(reason));
        },
    }
    match build_segment_payload(meta, file_meta, segment) {
        Ok(payload) => {
            proof {
                lemma_name_len(meta@, file_meta@, Some(segment@));
            }
            Ok(
                Frame::build(
                    child_session_id,
                    FLAG_DESCRIPTOR,
                    0,
                    0,
                    meta.blocks.len() as u32,
                    sum_symbols(&meta.blocks),
                    meta.symbol_size,
                    frame_index,
                    timestamp_ms,
                    &payload,
                ),
            )
        },
        Err(e) => Err(e),
    }
}

/// What a descriptor says of the file: the name as far as it is carried, and
/// every size and checksum known.
pub open spec fn carried_file(
    meta: MetaView,
    file: FileMetaView,
    segment: Option<SegmentView>,
) -> FileMetaView {
    FileMetaView {
        filename: utf8::decode_utf8(
            utf8::encode_utf8(file.filename).take(name_len(meta, file, segment)),
        ),
        compressed_size_known: true,
        crc32_known: true,
        ..file
    }
}

/// Reading at an offset looks at the bytes there only.
proof fn lemma_blocks_read(s: Seq<u8>, blocks: Seq<SourceBlockMeta>)
    requires
        s.len() >= 28 + 16 * blocks.len(),
        s.subrange(28, 28 + 16 * blocks.len() as int) == block_table(blocks),
    ensures
        parsed_blocks(s, blocks.len() as int) == blocks,
    decreases blocks.len(),
{
    broadcast use wire::group_be_len;

    if blocks.len() == 0 {
        assert(parsed_blocks(s, 0) =~= blocks);
    } else {
        let n = blocks.len() - 1;
        let b = blocks.last();
        let o = 28 + 16 * n;
        let table = block_table(blocks);
        lemma_block_table_len(blocks.drop_last());
        assert(table.subrange(0, 16 * n) =~= block_table(blocks.drop_last()));
        assert(s.subrange(28, o) =~= table.subrange(0, 16 * n));
        lemma_blocks_read(s, blocks.drop_last());
        assert(table.subrange(16 * n, 16 * n + 4) =~= wire::be32(b.sbn));
        assert(table.subrange(16 * n + 4, 16 * n + 8) =~= wire::be32(b.num_source_symbols));
        assert(table.subrange(16 * n + 8, 16 * n + 16) =~= wire::be64(b.block_length));
        assert(s.subrange(o, o + 4) =~= table.subrange(16 * n, 16 * n + 4));
        assert(s.subrange(o + 4, o + 8) =~= table.subrange(16 * n + 4, 16 * n + 8));
        assert(s.subrange(o + 8, o + 16) =~= table.subrange(16 * n + 8, 16 * n + 16));
        wire::lemma_u32_at(s, o, b.sbn);
        wire::lemma_u32_at(s, o + 4, b.num_source_symbols);
        wire::lemma_u64_at(s, o + 8, b.block_length);
        assert(o + 4 == 32 + 16 * n && o + 8 == 36 + 16 * n);
        let read = parsed_blocks(s, n + 1);
        assert(read[n] == b);
        assert(read.drop_last() =~= parsed_blocks(s, n));
        assert forall|i: int| 0 <= i < read.len() implies read[i] == blocks[i] by {
            if i < n {
                assert(read[i] == read.drop_last()[i]);
                assert(blocks[i] == blocks.drop_last()[i]);
            }
        }
        assert(read =~= blocks);
    }
}

proof fn lemma_meta_read(s: Seq<u8>, meta: MetaView, version: u8)
    requires
        meta.oti.len() == 12,
        meta.blocks.len() <= u16::MAX,
        s.len() >= 28 + 16 * meta.blocks.len(),
        s.subrange(0, 28 + 16 * meta.blocks.len() as int) == meta_part(meta, version),
    ensures
        s[0] == DESC_MAGIC,
        s[1] == version,
        wire::u16_at(s, 2) == meta.blocks.len(),
        parsed_meta(s) == meta,
{
    broadcast use wire::group_be_len;

    let b = meta.blocks.len() as int;
    let w = meta_part(meta, version);
    lemma_block_table_len(meta.blocks);
    assert(w.subrange(0, 2) =~= seq![DESC_MAGIC, version]);
    assert(w.subrange(2, 4) =~= wire::be16(b as u16));
    assert(w.subrange(4, 12) =~= wire::be64(meta.transfer_length));
    assert(w.subrange(12, 16) =~= wire::be32(meta.symbol_size));
    assert(w.subrange(16, 28) =~= meta.oti);
    assert(w.subrange(28, 28 + 16 * b) =~= block_table(meta.blocks));
    assert(s.subrange(0, 2) =~= w.subrange(0, 2));
    assert(s[0] == s.subrange(0, 2)[0] && s[1] == s.subrange(0, 2)[1]);
    assert(s.subrange(2, 4) =~= w.subrange(2, 4));
    assert(s.subrange(4, 12) =~= w.subrange(4, 12));
    assert(s.subrange(12, 16) =~= w.subrange(12, 16));
    assert(s.subrange(16, 28) =~= w.subrange(16, 28));
    assert(s.subrange(28, 28 + 16 * b) =~= w.subrange(28, 28 + 16 * b));
    wire::lemma_u16_at(s, 2, b as u16);
    wire::lemma_u64_at(s, 4, meta.transfer_length);
    wire::lemma_u32_at(s, 12, meta.symbol_size);
    lemma_blocks_read(s, meta.blocks);
    assert(parsed_meta(s) =~= meta);
}

proof fn lemma_file_read(s: Seq<u8>, o: int, file: FileMetaView, n: int, version: u8)
    requires
        version >= DESC_V3_VERSION,
        0 <= n <= 255,
        n <= utf8::encode_utf8(file.filename).len(),
        utf8::is_char_boundary(utf8::encode_utf8(file.filename), n),
        0 <= o,
        o + 22 + n <= s.len(),
        s.subrange(o, o + 22 + n) == file_part(file, n),
    ensures
        parsed_file(s, o, version) == Some(
            (
                FileMetaView {
                    filename: utf8::decode_utf8(utf8::encode_utf8(file.filename).take(n)),
                    compressed_size_known: true,
                    crc32_known: true,
                    ..file
                },
                o + 22 + n,
            ),
        ),
{
    broadcast use wire::group_be_len;

    let bytes = utf8::encode_utf8(file.filename);
    let name = bytes.take(n);
    let w = file_part(file, n);
    utf8::encode_utf8_valid_utf8(file.filename);
    utf8::valid_utf8_split(bytes, n);
    assert(bytes.subrange(0, n) =~= name);
    assert(w[0] == n as u8);
    assert(w.subrange(1, 1 + n) =~= name);
    assert(w.subrange(1 + n, 9 + n) =~= wire::be64(file.original_size));
    assert(w.subrange(9 + n, 13 + n) =~= wire::be32(file.crc32));
    assert(w[13 + n] == file.compression);
    assert(w.subrange(14 + n, 22 + n) =~= wire::be64(file.compressed_size));
    assert(s[o] == w[0] && s[o + 13 + n] == w[13 + n]);
    assert(s.subrange(o + 1, o + 1 + n) =~= w.subrange(1, 1 + n));
    assert(s.subrange(o + 1 + n, o + 9 + n) =~= w.subrange(1 + n, 9 + n));
    assert(s.subrange(o + 9 + n, o + 13 + n) =~= w.subrange(9 + n, 13 + n));
    assert(s.subrange(o + 14 + n, o + 22 + n) =~= w.subrange(14 + n, 22 + n));
    wire::lemma_u64_at(s, o + 1 + n, file.original_size);
    wire::lemma_u32_at(s, o + 9 + n, file.crc32);
    wire::lemma_u64_at(s, o + 14 + n, file.compressed_size);
}

proof fn lemma_segment_read(s: Seq<u8>, o: int, segment: SegmentView)
    requires
        segment.root_sha256.len() == 32,
        segment.raw_sha256.len() == 32,
        0 <= o,
        o + 104 <= s.len(),
        s.subrange(o, o + 104) == segment_part(Some(segment)),
    ensures
        parsed_segment(s, o) == segment,
{
    broadcast use wire::group_be_len;

    let w = segment_part(Some(segment));
    assert(w.subrange(0, 16) =~= wire::be128(segment.root_session_id));
    assert(w.subrange(16, 20) =~= wire::be32(segment.segment_index));
    assert(w.subrange(20, 24) =~= wire::be32(segment.segment_count));
    assert(w.subrange(24, 32) =~= wire::be64(segment.original_offset));
    assert(w.subrange(32, 40) =~= wire::be64(segment.root_original_size));
    assert(w.subrange(40, 72) =~= segment.root_sha256);
    assert(w.subrange(72, 104) =~= segment.raw_sha256);
    assert(s.subrange(o, o + 16) =~= w.subrange(0, 16));
    assert(s.subrange(o + 16, o + 20) =~= w.subrange(16, 20));
    assert(s.subrange(o + 20, o + 24) =~= w.subrange(20, 24));
    assert(s.subrange(o + 24, o + 32) =~= w.subrange(24, 32));
    assert(s.subrange(o + 32, o + 40) =~= w.subrange(32, 40));
    assert(s.subrange(o + 40, o + 72) =~= w.subrange(40, 72));
    assert(s.subrange(o + 72, o + 104) =~= w.subrange(72, 104));
    wire::lemma_u128_at(s, o, segment.root_session_id);
    wire::lemma_u32_at(s, o + 16, segment.segment_index);
    wire::lemma_u32_at(s, o + 20, segment.segment_count);
    wire::lemma_u64_at(s, o + 24, segment.original_offset);
    wire::lemma_u64_at(s, o + 32, segment.root_original_size);
    assert(parsed_segment(s, o) =~= segment);
}

/// A descriptor that fits in its symbol parses to what it was built from, with
/// the file name as far as it is carried. The block count is a 16-bit field.
pub proof fn law_descriptor_round_trip(
    meta: MetaView,
    file: FileMetaView,
    segment: Option<SegmentView>,
)
    requires
        body_len(meta, file, segment) <= meta.symbol_size,
        meta.blocks.len() <= u16::MAX,
        meta.oti.len() == 12,
        segment matches Some(s) ==> s.root_sha256.len() == 32 && s.raw_sha256.len() == 32,
    ensures
        parsed(descriptor_payload(meta, file, segment)) == Some(
            DescriptorView { meta, file: carried_file(meta, file, segment), segment },
        ),
{
    broadcast use wire::group_be_len;

    let s = descriptor_payload(meta, file, segment);
    let version = if segment is Some {
        DESC_VERSION
    } else {
        DESC_V3_VERSION
    };
    let n = name_len(meta, file, segment);
    let o = 28 + 16 * meta.blocks.len() as int;
    let w = descriptor_body(meta, file, segment);
    let a = meta_part(meta, version);
    let b = file_part(file, n);
    let c = segment_part(segment);
    lemma_name_len(meta, file, segment);
    lemma_body_len(meta, file, segment);
    lemma_block_table_len(meta.blocks);
    assert(a.len() == o);
    assert(b.len() == 22 + n);
    assert(w =~= a + b + c);
    assert(s.subrange(0, o) =~= a);
    assert(s.subrange(o, o + 22 + n) =~= b);
    lemma_meta_read(s, meta, version);
    lemma_file_read(s, o, file, n, version);
    if let Some(seg) = segment {
        assert(c.len() == 104);
        assert(s.subrange(o + 22 + n, o + 22 + n + 104) =~= c);
        lemma_segment_read(s, o + 22 + n, seg);
    }
}

/// A descriptor carries a prefix of the file name, and all of it where its bytes
/// fit in the symbol and in the length byte.
pub proof fn law_name_is_prefix(meta: MetaView, file: FileMetaView, segment: Option<SegmentView>)
    ensures
        carried_file(meta, file, segment).filename.is_prefix_of(file.filename),
        utf8::encode_utf8(file.filename).len() <= least(
            meta.symbol_size - fixed_len(meta, segment),
            255,
        ) ==> carried_file(meta, file, segment).filename == file.filename,
{
    let bytes = utf8::encode_utf8(file.filename);
    let n = name_len(meta, file, segment);
    lemma_name_len(meta, file, segment);
    utf8::encode_utf8_valid_utf8(file.filename);
    utf8::encode_utf8_decode_utf8(file.filename);
    utf8::decode_utf8_split(bytes, n);
    assert(bytes.subrange(0, n) =~= bytes.take(n));
    let head = utf8::decode_utf8(bytes.take(n));
    let tail = utf8::decode_utf8(bytes.subrange(n, bytes.len() as int));
    assert(file.filename =~= head + tail);
    if bytes.len() <= least(meta.symbol_size - fixed_len(meta, segment), 255) {
        utf8::is_char_boundary_start_end_of_seq(bytes);
        assert(n == bytes.len());
        assert(bytes.take(n) =~= bytes);
    }
}

/// A payload of a withdrawn or unknown version is no descriptor.
pub proof fn law_unsupported_version_rejected(s: Seq<u8>)
    requires
        s.len() >= 2,
        s[1] == 0 || s[1] == DESC_LEGACY_V4 || s[1] > DESC_VERSION,
    ensures
        parsed(s) is None,
{
}

} // verus!
