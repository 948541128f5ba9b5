//! What refusals say.
//!
//! A refusal names the first thing that is wrong. What a reader of a log sees is
//! written down here once, for every refusal of the engine.
use crate::digest;
use crate::qr_protocol::frame::SessionIdRaw;
use crate::qr_protocol::session;
use crate::raptorq_core;
use crate::raptorq_core::meta;
use crate::raptorq_core::meta::MetaView;
use crate::text;
use crate::transfer_engine::assembler;
use crate::transfer_engine::assembler::AssemblerView;
use crate::transfer_engine::descriptor::FileMetaView;
use crate::transfer_engine::joining;
use crate::transfer_engine::resume;
use crate::transfer_engine::resume::ResumeView;
use crate::transfer_engine::segment;
use crate::transfer_engine::segment::SegmentView;
use crate::transfer_engine::Error;
use vstd::prelude::*;

verus! {

/// The count is that of a stream of `size` bytes.
pub open spec fn counts_stream(count: u32, size: int) -> bool {
    (count - 1) * 33_488_904 < size <= count * 33_488_904
}

proof fn lemma_counts_stream(count: u32, size: int)
    requires
        count >= 1,
        size >= 1,
    ensures
        counts_stream(count, size) <==> count == segment::segments_of(size),
{
    segment::law_segment_lengths_fill_stream(size, 0);
}

/// The segment is where its index says.
pub open spec fn at_its_offset(seg: SegmentView) -> bool {
    seg.original_offset == seg.segment_index * 33_488_904
}

/// The first thing wrong with a segment is what its refusal names.
pub proof fn law_segment_refusal_names_defect(
    seg: SegmentView,
    child_session_id: SessionIdRaw,
    file: FileMetaView,
)
    requires
        1 <= seg.segment_count <= 131_072,
    ensures
        ({
            let r = seg.rejection(child_session_id, file);
            let size = seg.root_original_size as int;
            let indexed = seg.segment_index < seg.segment_count;
            let counted = indexed && size > 0 && counts_stream(seg.segment_count, size);
            let placed = counted && at_its_offset(seg);
            let sized = placed && file.compressed_size_known && file.compressed_size > 0;
            let within = sized && joining::has_place(
                seg.segment_index as int,
                file.compressed_size as int,
                size,
            );
            &&& !indexed ==> r == Some("segment index out of range"@)
            &&& indexed && size == 0 ==> r == Some("root compressed size must be non-zero"@)
            &&& indexed && size > 0xFFFF_FFFF * 33_488_904 ==> r == Some(
                "segment count exceeds protocol budget"@,
            )
            &&& indexed && 0 < size <= 0xFFFF_FFFF * 33_488_904 && !counted ==> r == Some(
                "segment count inconsistent with compressed root size"@,
            )
            &&& counted && !placed ==> r == Some("segment offset is not canonical"@)
            &&& placed && !sized ==> r == Some("segment compressed size missing or empty"@)
            &&& sized && !within ==> r == Some(
                "segment compressed length exceeds canonical compressed range"@,
            )
            &&& within && child_session_id != session::derived_segment_id(
                seg.root_session_id,
                seg.segment_index,
            ) ==> r == Some("segment child session id mismatch"@)
        }),
{
    let size = seg.root_original_size as int;
    if size > 0 {
        lemma_counts_stream(seg.segment_count, size);
        segment::law_segment_lengths_fill_stream(size, 0);
        if seg.segment_index < segment::segments_of(size) {
            joining::lemma_place(
                seg.segment_index as int,
                file.compressed_size as int,
                size,
            );
        }
    }
}

/// A count of no segments, or of more than 131072, is refused as such, by itself and
/// by an assembly that would start from it.
pub proof fn law_bad_count_is_named(
    seg: SegmentView,
    child_session_id: SessionIdRaw,
    file: FileMetaView,
)
    requires
        seg.segment_count == 0 || seg.segment_count > 131_072,
    ensures
        seg.rejection(child_session_id, file) == Some("segment count out of range"@),
        assembler::start_rejection(seg, file) == Some("segment count out of range"@),
{
}

/// The first thing wrong with a segment for an assembly is what its refusal names.
pub proof fn law_assembly_refusal_names_defect(
    a: AssemblerView,
    seg: SegmentView,
    file: FileMetaView,
    bytes: Seq<u8>,
)
    requires
        a.wf(),
    ensures
        ({
            let r = a.segment_rejection(seg, file, bytes);
            let size = a.root_compressed_size as int;
            let same_root = seg.root_session_id == a.root_session_id;
            let same_count = same_root && seg.segment_count == a.segments.len();
            let same_sha = same_count && seg.root_sha256 == a.root_sha256;
            let same_name = same_sha && file.filename == a.filename;
            let indexed = same_name && seg.segment_index < seg.segment_count;
            let same_size = indexed && seg.root_original_size == size;
            let placed = same_size && at_its_offset(seg);
            let within = placed && joining::has_place(
                seg.segment_index as int,
                file.compressed_size as int,
                size,
            );
            let whole = within && bytes.len() == file.compressed_size;
            let checked = whole && digest::sha256_of(bytes) == seg.raw_sha256;
            let there = a.segments[seg.segment_index as int];
            &&& !same_root ==> r == Some("segment root id does not match assembler"@)
            &&& same_root && !same_count ==> r == Some("segment count does not match assembler"@)
            &&& same_count && !same_sha ==> r == Some(
                "segment root sha256 does not match assembler"@,
            )
            &&& same_sha && !same_name ==> r == Some("segment filename does not match assembler"@)
            &&& same_name && !indexed ==> r == Some("segment index out of range"@)
            &&& indexed && !same_size ==> r == Some("segment root size does not match assembler"@)
            &&& same_size && !placed ==> r == Some("segment offset is not canonical"@)
            &&& placed && !within ==> r == Some(
                "segment compressed length exceeds canonical compressed range"@,
            )
            &&& within && !whole ==> r == Some("segment length mismatch"@)
            &&& whole && !checked ==> r == Some("segment sha256 mismatch"@)
            &&& checked && there is Some && there->0.meta != seg ==> r == Some(
                "duplicate segment metadata conflicts with stored segment"@,
            )
        }),
{
    if seg.segment_index < a.segments.len() {
        joining::lemma_place(
            seg.segment_index as int,
            file.compressed_size as int,
            a.root_compressed_size as int,
        );
    }
}

/// The first thing wrong with object metadata is what its refusal names: the symbol
/// size, the transmission information, the size of the object, the block table and
/// the totals.
pub proof fn law_metadata_refusal_names_defect(m: MetaView)
    ensures
        ({
            let r = m.rejection();
            let o = m.info();
            let size = 64 <= m.symbol_size <= 65_528 && m.symbol_size % 8 == 0;
            let same_size = size && o.symbol_size == m.symbol_size;
            let same_length = same_size && o.transfer_length == m.transfer_length;
            let parts = same_length && o.sub_blocks > 0 && o.symbol_alignment > 0;
            let aligned = parts && o.symbol_size % o.symbol_alignment as u16 == 0;
            let units = aligned && o.sub_blocks <= o.symbol_size / o.symbol_alignment as u16;
            let reserved = units && m.oti[5] == 0;
            let length = reserved && 1 <= m.transfer_length <= 33_554_432;
            let count = length && 1 <= m.blocks.len() <= 255;
            let same_count = count && o.source_blocks == m.blocks.len();
            let table = same_count && m.block_rejection(0) is None;
            let few = table && meta::total_symbols(m.blocks) <= 524_288;
            let small = few && meta::total_bytes(m.blocks) <= 33_554_432 + m.symbol_size
                * m.blocks.len();
            &&& !size ==> r == Some("symbol_size out of range"@)
            &&& size && !same_size ==> r == Some("OTI symbol_size invalid or mismatched"@)
            &&& same_size && !same_length ==> r == Some("OTI transfer_length mismatched"@)
            &&& same_length && !parts ==> r == Some("OTI sub-block/alignment must be non-zero"@)
            &&& parts && !aligned ==> r == Some("OTI symbol_size is not alignment-divisible"@)
            &&& aligned && !units ==> r == Some("OTI sub-block count exceeds aligned symbol units"@)
            &&& units && !reserved ==> r == Some("OTI reserved byte must be zero"@)
            &&& reserved && !length ==> r == Some("transfer_length exceeds local receiver budget"@)
            &&& length && !count ==> r == Some("source block count out of range"@)
            &&& count && !same_count ==> r == Some("OTI source block count mismatched"@)
            &&& same_count && !table ==> r == m.block_rejection(0)
            &&& table && !few ==> r == Some(
                "total source symbol count exceeds local receiver budget"@,
            )
            &&& few && !small ==> r == Some("decoder bytes exceed local receiver budget"@)
            &&& small && m.transfer_length > meta::total_bytes(m.blocks) ==> r == Some(
                "transfer_length exceeds total block bytes"@,
            )
        }),
{
}

/// The first bad block of a table is what its refusal names, whatever comes after
/// it.
pub proof fn law_block_refusal_names_defect(m: MetaView, i: int)
    requires
        0 <= i < m.blocks.len(),
        forall|j: int| 0 <= j < i ==> #[trigger] raptorq_core::laws::sane_block(m, j),
    ensures
        ({
            let b = m.blocks[i];
            let r = m.block_rejection(0);
            let numbered = b.sbn == i;
            let sized = numbered && 1 <= b.num_source_symbols <= 56_403;
            &&& !numbered ==> r == Some("block sbn must equal its canonical index"@)
            &&& numbered && !sized ==> r == Some("block K out of range"@)
            &&& sized && b.block_length != b.num_source_symbols * m.symbol_size ==> r == Some(
                "block_length inconsistent with K*symbol_size"@,
            )
        }),
{
    lemma_sane_blocks_pass(m, i);
}

proof fn lemma_sane_blocks_pass(m: MetaView, i: int)
    requires
        0 <= i <= m.blocks.len(),
        forall|j: int| 0 <= j < i ==> #[trigger] raptorq_core::laws::sane_block(m, j),
    ensures
        m.block_rejection(0) == m.block_rejection(i),
    decreases i,
{
    if i > 0 {
        lemma_sane_blocks_pass(m, i - 1);
        assert(raptorq_core::laws::sane_block(m, i - 1));
    }
}

/// The first thing wrong with a saved state is what its refusal names.
pub proof fn law_state_refusal_names_defect(v: ResumeView)
    requires
        v.meta.rejection() is None,
    ensures
        ({
            let r = v.rejection();
            let blocks = v.received.len() <= v.meta.blocks.len();
            let small = forall|i: int, esi: u32|
                0 <= i < v.received.len() && #[trigger] v.received[i].contains(esi) ==> esi
                    < 0x100_0000;
            let ids = blocks && resume::total_ids(v.received) <= 1_048_576 && small;
            &&& !blocks ==> r == Some("too many received block sets"@)
            &&& blocks && !ids ==> r == Some("received ESI set exceeds resume budget"@)
            &&& ids && v.symbols.len() > 1_048_576 ==> r == Some("too many stored resume symbols"@)
        }),
{
    let small = forall|i: int, esi: u32|
        0 <= i < v.received.len() && #[trigger] v.received[i].contains(esi) ==> esi < 0x100_0000;
    if v.received_ok() {
        assert forall|i: int, esi: u32|
            0 <= i < v.received.len() && #[trigger] v.received[i].contains(esi) implies esi
            < 0x100_0000 by {
            assert(resume::small_ids(v.received[i]));
        }
    }
}

/// The first stored symbol that is of no use is what the refusal of a state names.
pub proof fn law_stored_symbol_refusal_names_defect(v: ResumeView, i: int)
    requires
        v.meta.rejection() is None,
        v.received.len() <= v.meta.blocks.len(),
        v.received_ok(),
        v.symbols.len() <= 1_048_576,
        0 <= i < v.symbols.len(),
        forall|j: int| 0 <= j < i ==> #[trigger] v.symbol_ok(j),
        i * v.meta.symbol_size <= 67_108_864 + v.meta.symbol_size * v.meta.blocks.len(),
    ensures
        ({
            let s = v.symbols[i];
            let r = v.rejection();
            let known = s.0 < v.meta.blocks.len() && s.1 < 0x100_0000;
            let sized = known && s.2.len() == v.meta.symbol_size;
            &&& !known ==> r == Some("stored resume symbol coordinate out of range"@)
            &&& known && !sized ==> r == Some("stored resume symbol has wrong size"@)
            &&& sized && (i + 1) * v.meta.symbol_size > 67_108_864 + v.meta.symbol_size
                * v.meta.blocks.len() ==> r == Some("stored resume symbols exceed byte budget"@)
        }),
{
    lemma_good_symbols_pass(v, i);
}

proof fn lemma_good_symbols_pass(v: ResumeView, i: int)
    requires
        0 <= i <= v.symbols.len(),
        forall|j: int| 0 <= j < i ==> #[trigger] v.symbol_ok(j),
        i * v.meta.symbol_size <= v.byte_budget(),
    ensures
        v.symbol_rejection(0) == v.symbol_rejection(i),
    decreases i,
{
    if i > 0 {
        let t = v.meta.symbol_size as int;
        assert((i - 1) * t <= i * t) by (nonlinear_arith)
            requires
                t >= 0,
        ;
        lemma_good_symbols_pass(v, i - 1);
        assert(v.symbol_ok(i - 1));
    }
}

/// An error's message says what happened, with the numbers that it carries, and the
/// message of what caused it.
pub proof fn law_error_messages(
    codec: raptorq_core::Error,
    expected: u128,
    got: u128,
    pct: u8,
    reason: &'static str,
)
    ensures
        Error::Raptorq(codec).text() == "raptorq error: "@ + codec.text(),
        (Error::SessionMismatch { expected, got }).text() == "session id mismatch: expected "@
            + text::decimal(expected as nat) + ", got "@ + text::decimal(got as nat),
        Error::InvalidRedundancy(pct).text() == "invalid redundancy percentage: "@ + text::decimal(
            pct as nat,
        ) + " (must be between 5 and 50)"@,
        Error::SymbolIdSpaceExhausted.text()
            == "RaptorQ's 24-bit encoding-symbol id space is exhausted"@,
        Error::InvalidResume(reason).text() == "invalid resume state: "@ + reason@,
        Error::InvalidSegment(reason).text() == "invalid large-transfer segment: "@ + reason@,
        Error::NoPayload.text() == "no payload set"@,
        Error::NotInitialized.text() == "session not yet initialized (no metadata received)"@,
        Error::AlreadyComplete.text() == "object already complete"@,
{
}

} // verus!
