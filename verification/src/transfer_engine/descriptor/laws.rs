//! What descriptors promise.
use crate::qr_protocol::frame;
use crate::qr_protocol::frame::FrameView;
use crate::qr_protocol::laws;
use crate::raptorq_core::meta;
use crate::raptorq_core::meta::MetaView;
use crate::transfer_engine::descriptor;
use crate::transfer_engine::descriptor::FileMetaView;
use crate::transfer_engine::segment::SegmentView;
use crate::transfer_engine::Error;
use vstd::prelude::*;
use vstd::utf8;

verus! {

/// The number at `at` in `s`, `n` bytes long.
pub open spec fn number_at(s: Seq<u8>, at: int, n: int) -> nat {
    laws::number(s.subrange(at, at + n))
}

/// Where the block table of `s` ends.
pub open spec fn table_end(s: Seq<u8>) -> int {
    28 + 16 * number_at(s, 2, 2) as int
}

/// Where the file name of `s` ends.
pub open spec fn name_end(s: Seq<u8>) -> int {
    table_end(s) + 1 + s[table_end(s)]
}

/// Bytes are a descriptor exactly where they start with the magic byte and one of
/// the versions 1, 2, 3 and 5, and everything is there that the version has: the
/// block table, the file from version 2 on, its compression from version 3 on, and
/// the segment in version 5.
pub proof fn law_descriptor_is_parsed_exactly(s: Seq<u8>)
    ensures
        descriptor::parsed(s) is Some <==> {
            &&& s.len() >= 28
            &&& s[0] == 0xD5
            &&& s[1] == 1 || s[1] == 2 || s[1] == 3 || s[1] == 5
            &&& s.len() >= table_end(s)
            &&& s[1] >= 2 ==> {
                &&& s.len() > table_end(s)
                &&& s.len() >= name_end(s) + 12
                &&& utf8::valid_utf8(s.subrange(table_end(s) + 1, name_end(s)))
            }
            &&& s[1] >= 3 ==> s.len() >= name_end(s) + 21
            &&& s[1] == 5 ==> s.len() >= name_end(s) + 125
        },
{
    if s.len() >= 28 {
        laws::lemma_u16_number(s, 2);
    }
}

/// The metadata of the object stands at fixed places, in every version.
pub proof fn law_descriptor_tells_object(s: Seq<u8>)
    requires
        descriptor::parsed(s) is Some,
    ensures
        ({
            let m = descriptor::parsed(s)->0.meta;
            &&& m.transfer_length == number_at(s, 4, 8)
            &&& m.symbol_size == number_at(s, 12, 4)
            &&& m.oti == s.subrange(16, 28)
            &&& m.blocks.len() == number_at(s, 2, 2)
            &&& forall|i: int|
                0 <= i < m.blocks.len() ==> {
                    &&& (#[trigger] m.blocks[i]).sbn == number_at(s, 28 + 16 * i, 4)
                    &&& m.blocks[i].num_source_symbols == number_at(s, 32 + 16 * i, 4)
                    &&& m.blocks[i].block_length == number_at(s, 36 + 16 * i, 8)
                }
        }),
{
    let m = descriptor::parsed(s)->0.meta;
    laws::lemma_u16_number(s, 2);
    laws::lemma_u64_number(s, 4);
    laws::lemma_u32_number(s, 12);
    assert forall|i: int| 0 <= i < m.blocks.len() implies {
        &&& (#[trigger] m.blocks[i]).sbn == number_at(s, 28 + 16 * i, 4)
        &&& m.blocks[i].num_source_symbols == number_at(s, 32 + 16 * i, 4)
        &&& m.blocks[i].block_length == number_at(s, 36 + 16 * i, 8)
    } by {
        laws::lemma_u32_number(s, 28 + 16 * i);
        laws::lemma_u32_number(s, 32 + 16 * i);
        laws::lemma_u64_number(s, 36 + 16 * i);
    }
}

/// The file and the segment follow the block table. Version 1 says nothing of the
/// file, version 2 nothing of compression: the payload is then the file itself.
pub proof fn law_descriptor_tells_file_and_segment(s: Seq<u8>)
    requires
        descriptor::parsed(s) is Some,
    ensures
        ({
            let d = descriptor::parsed(s)->0;
            let end = name_end(s);
            &&& s[1] == 1 ==> d.file == FileMetaView {
                filename: Seq::empty(),
                original_size: 0,
                crc32: 0,
                compression: 0,
                compressed_size: 0,
                compressed_size_known: false,
                crc32_known: false,
            }
            &&& s[1] >= 2 ==> {
                &&& d.file.filename == utf8::decode_utf8(s.subrange(table_end(s) + 1, end))
                &&& d.file.original_size == number_at(s, end, 8)
                &&& d.file.crc32 == number_at(s, end + 8, 4)
                &&& d.file.compressed_size_known
                &&& d.file.crc32_known
            }
            &&& s[1] == 2 ==> d.file.compression == 0 && d.file.compressed_size
                == d.file.original_size
            &&& s[1] >= 3 ==> d.file.compression == s[end + 12] && d.file.compressed_size
                == number_at(s, end + 13, 8)
            &&& d.segment is Some <==> s[1] == 5
            &&& d.segment matches Some(g) ==> {
                &&& g.root_session_id == number_at(s, end + 21, 16)
                &&& g.segment_index == number_at(s, end + 37, 4)
                &&& g.segment_count == number_at(s, end + 41, 4)
                &&& g.original_offset == number_at(s, end + 45, 8)
                &&& g.root_original_size == number_at(s, end + 53, 8)
                &&& g.root_sha256 == s.subrange(end + 61, end + 93)
                &&& g.raw_sha256 == s.subrange(end + 93, end + 125)
            }
        }),
{
    law_descriptor_is_parsed_exactly(s);
    laws::lemma_u16_number(s, 2);
    let end = name_end(s);
    if s[1] >= 2 {
        laws::lemma_u64_number(s, end);
        laws::lemma_u32_number(s, end + 8);
    }
    if s[1] >= 3 {
        laws::lemma_u64_number(s, end + 13);
    }
    if s[1] == 5 {
        laws::lemma_u128_number(s, end + 21);
        laws::lemma_u32_number(s, end + 37);
        laws::lemma_u32_number(s, end + 41);
        laws::lemma_u64_number(s, end + 45);
        laws::lemma_u64_number(s, end + 53);
    }
}

/// Bytes that a descriptor takes besides the name.
pub open spec fn bytes_beside_name(meta: MetaView, segment: Option<SegmentView>) -> int {
    50 + 16 * meta.blocks.len() + if segment is Some {
        104int
    } else {
        0
    }
}

proof fn lemma_boundary(bytes: Seq<u8>, n: int, m: int)
    requires
        0 <= n,
        m <= n,
        0 < m ==> utf8::is_char_boundary(bytes, m),
    ensures
        0 <= descriptor::boundary_at_most(bytes, n) <= n,
        m <= descriptor::boundary_at_most(bytes, n),
    decreases n,
{
    if n > 0 && !utf8::is_char_boundary(bytes, n) {
        lemma_boundary(bytes, n - 1, m);
    }
}

/// A descriptor fits in a symbol exactly where everything besides the name does.
/// It carries as many whole characters of the name as there is room for, up to
/// 255 bytes.
pub proof fn law_descriptor_carries_longest_name(
    meta: MetaView,
    file: FileMetaView,
    segment: Option<SegmentView>,
    m: int,
)
    requires
        0 <= m <= utf8::encode_utf8(file.filename).len(),
        utf8::is_char_boundary(utf8::encode_utf8(file.filename), m),
        m <= 255,
        bytes_beside_name(meta, segment) + m <= meta.symbol_size,
    ensures
        descriptor::body_len(meta, file, segment) <= meta.symbol_size,
        descriptor::name_len(meta, file, segment) >= m,
        descriptor::name_len(meta, file, segment) <= 255,
        descriptor::body_len(meta, file, segment) == bytes_beside_name(meta, segment)
            + descriptor::name_len(meta, file, segment),
{
    let bytes = utf8::encode_utf8(file.filename);
    let room = meta.symbol_size - descriptor::fixed_len(meta, segment);
    lemma_boundary(
        bytes,
        descriptor::least(bytes.len() as int, descriptor::least(room, 255)),
        m,
    );
}

/// A descriptor that does not fit without the name does not fit at all.
pub proof fn law_large_descriptor_does_not_fit(
    meta: MetaView,
    file: FileMetaView,
    segment: Option<SegmentView>,
)
    requires
        bytes_beside_name(meta, segment) > meta.symbol_size,
    ensures
        descriptor::body_len(meta, file, segment) > meta.symbol_size,
        descriptor::body_len(meta, file, segment) == bytes_beside_name(meta, segment),
{
}

/// A descriptor is as long as a symbol. It starts with the magic byte and the
/// version, 5 for a segment and 3 otherwise, and ends with zeros.
pub proof fn law_descriptor_fills_symbol(
    meta: MetaView,
    file: FileMetaView,
    segment: Option<SegmentView>,
)
    requires
        bytes_beside_name(meta, segment) <= meta.symbol_size,
        meta.oti.len() == 12,
        segment matches Some(s) ==> s.root_sha256.len() == 32 && s.raw_sha256.len() == 32,
    ensures
        ({
            let p = descriptor::descriptor_payload(meta, file, segment);
            &&& p.len() == meta.symbol_size
            &&& p[0] == 0xD5
            &&& p[1] == if segment is Some {
                5u8
            } else {
                3
            }
            &&& forall|i: int|
                bytes_beside_name(meta, segment) + descriptor::name_len(meta, file, segment) <= i
                    < p.len() ==> #[trigger] p[i] == 0
        }),
{
    utf8::encode_utf8_valid_utf8(file.filename);
    utf8::is_char_boundary_start_end_of_seq(utf8::encode_utf8(file.filename));
    law_descriptor_carries_longest_name(meta, file, segment, 0);
    descriptor::lemma_payload_len(meta, file, segment);
    descriptor::lemma_body_len(meta, file, segment);
    let w = descriptor::descriptor_body(meta, file, segment);
    let version = if segment is Some {
        5u8
    } else {
        3
    };
    let head = seq![0xD5u8, version];
    assert(descriptor::meta_part(meta, version)[0] == head[0]);
    assert(descriptor::meta_part(meta, version)[1] == head[1]);
}

/// A descriptor is built exactly where everything besides the name fits in a
/// symbol. The error tells how many bytes it would have taken.
pub proof fn law_descriptor_is_built_exactly(
    r: Result<Vec<u8>, Error>,
    meta: MetaView,
    file: FileMetaView,
    segment: Option<SegmentView>,
)
    requires
        descriptor::is_payload(r, meta, file, segment),
        bytes_beside_name(meta, segment) <= usize::MAX,
    ensures
        r is Ok <==> bytes_beside_name(meta, segment) <= meta.symbol_size,
        r matches Ok(p) ==> p@ == descriptor::descriptor_payload(meta, file, segment) && p@.len()
            == meta.symbol_size,
        r matches Err(e) ==> e == Error::Protocol(
            crate::qr_protocol::Error::BufferTooShort {
                need: bytes_beside_name(meta, segment) as usize,
                have: meta.symbol_size as usize,
            },
        ),
{
    if bytes_beside_name(meta, segment) <= meta.symbol_size {
        utf8::encode_utf8_valid_utf8(file.filename);
        utf8::is_char_boundary_start_end_of_seq(utf8::encode_utf8(file.filename));
        law_descriptor_carries_longest_name(meta, file, segment, 0);
    } else {
        law_large_descriptor_does_not_fit(meta, file, segment);
    }
}

/// A descriptor frame is flagged as one, tells the object's shape, and is accepted
/// on the wire.
pub proof fn law_descriptor_frame(
    meta: MetaView,
    file: FileMetaView,
    segment: Option<SegmentView>,
    session_id: u128,
    frame_index: u64,
    timestamp_ms: u64,
)
    requires
        bytes_beside_name(meta, segment) <= meta.symbol_size,
        meta.oti.len() == 12,
        segment matches Some(s) ==> s.root_sha256.len() == 32 && s.raw_sha256.len() == 32,
        meta.blocks.len() <= u32::MAX,
        meta::total_symbols(meta.blocks) <= u32::MAX,
    ensures
        ({
            let f = descriptor::descriptor_frame(
                meta,
                file,
                segment,
                session_id,
                frame_index,
                timestamp_ms,
            );
            &&& f.header.session_id == session_id
            &&& f.header.flags == 1
            &&& f.header.sbn == 0
            &&& f.header.esi == 0
            &&& f.header.total_blocks == meta.blocks.len()
            &&& f.header.total_symbols == meta::total_symbols(meta.blocks)
            &&& f.header.symbol_size == meta.symbol_size
            &&& f.header.frame_index == frame_index
            &&& f.header.timestamp_ms == timestamp_ms
            &&& f.payload == descriptor::descriptor_payload(meta, file, segment)
            &&& FrameView::read_error(f.wire()) is None
            &&& FrameView::read(f.wire()) == f
        }),
{
    let f = descriptor::descriptor_frame(
        meta,
        file,
        segment,
        session_id,
        frame_index,
        timestamp_ms,
    );
    law_descriptor_fills_symbol(meta, file, segment);
    frame::law_frame_round_trip(f.header, f.payload);
    assert(f == FrameView::sealed(f.header, f.payload));
}

} // verus!
