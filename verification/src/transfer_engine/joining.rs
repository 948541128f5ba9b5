//! What joining the segments of a transfer promises.
use crate::digest;
use crate::qr_protocol::frame::SessionIdRaw;
use crate::qr_protocol::session;
use crate::transfer_engine::assembler;
use crate::transfer_engine::assembler::{AssemblerView, Received};
use crate::transfer_engine::descriptor::FileMetaView;
use crate::transfer_engine::segment;
use crate::transfer_engine::segment::SegmentView;
use vstd::prelude::*;

verus! {

/// `len` bytes have a place as segment `index` of a stream of `size` bytes.
pub open spec fn has_place(index: int, len: int, size: int) -> bool {
    len <= 33_488_904 && index * 33_488_904 + len <= size
}

/// A segment that belongs to the assembly: it is of the same transfer, it has its
/// place in the stream, and its bytes are as long as declared and have the
/// digest declared. What has arrived before does not matter.
pub open spec fn belongs(
    a: AssemblerView,
    seg: SegmentView,
    file: FileMetaView,
    bytes: Seq<u8>,
) -> bool {
    &&& seg.root_session_id == a.root_session_id
    &&& seg.segment_count == a.segments.len()
    &&& seg.root_original_size == a.root_compressed_size
    &&& seg.root_sha256 == a.root_sha256
    &&& file.filename == a.filename
    &&& seg.segment_index < seg.segment_count
    &&& seg.original_offset == seg.segment_index * 33_488_904
    &&& bytes.len() == file.compressed_size
    &&& has_place(seg.segment_index as int, bytes.len() as int, a.root_compressed_size as int)
    &&& digest::sha256_of(bytes) == seg.raw_sha256
}

/// The length limit of a segment, as a place in the stream.
pub proof fn lemma_place(index: int, len: int, size: int)
    requires
        0 < size,
        0 <= index < segment::segments_of(size),
        0 <= len,
    ensures
        len <= segment::segment_len(size, index) <==> has_place(index, len, size),
{
    segment::lemma_segment_in_stream(size, index);
}

/// A segment is accepted exactly where it belongs to the assembly and does not
/// conflict with one that is there already, whatever else has arrived.
pub proof fn law_segment_is_accepted_exactly(
    a: AssemblerView,
    seg: SegmentView,
    file: FileMetaView,
    bytes: Seq<u8>,
)
    requires
        a.wf(),
    ensures
        a.segment_rejection(seg, file, bytes) is None <==> belongs(a, seg, file, bytes) && (
        a.segments[seg.segment_index as int] matches Some(r) ==> r.meta == seg),
{
    if seg.segment_index < a.segments.len() {
        lemma_place(
            seg.segment_index as int,
            file.compressed_size as int,
            a.root_compressed_size as int,
        );
    }
}

/// A segment that belongs to the assembly and is not there yet is stored, in
/// whatever order the segments arrive. The others stay as they are.
pub proof fn law_segment_is_stored(
    a: AssemblerView,
    seg: SegmentView,
    file: FileMetaView,
    bytes: Seq<u8>,
)
    requires
        a.wf(),
        belongs(a, seg, file, bytes),
        a.segments[seg.segment_index as int] is None,
    ensures
        ({
            let after = a.with_segment(seg, file, bytes);
            let i = seg.segment_index as int;
            &&& after.wf()
            &&& after.segments.len() == a.segments.len()
            &&& after.segments[i] == Some(Received { meta: seg, bytes })
            &&& forall|j: int|
                0 <= j < a.segments.len() && j != i ==> #[trigger] after.segments[j]
                    == a.segments[j]
            &&& after == AssemblerView { segments: after.segments, ..a }
            &&& assembler::count_received(after.segments) == assembler::count_received(a.segments)
                + 1
        }),
{
    law_segment_is_accepted_exactly(a, seg, file, bytes);
    let after = a.with_segment(seg, file, bytes);
    let i = seg.segment_index as int;
    lemma_place(i, bytes.len() as int, a.root_compressed_size as int);
    assembler::lemma_count_update(a.segments, i, Received { meta: seg, bytes });
    assert forall|j: int| 0 <= j < after.segments.len() implies #[trigger] after.slot_wf(j) by {
        assert(a.slot_wf(j));
    }
}

/// A segment that does not belong, or that is there already, changes nothing.
pub proof fn law_other_segment_changes_nothing(
    a: AssemblerView,
    seg: SegmentView,
    file: FileMetaView,
    bytes: Seq<u8>,
)
    requires
        a.wf(),
        !belongs(a, seg, file, bytes) || a.segments[seg.segment_index as int] is Some,
    ensures
        a.with_segment(seg, file, bytes) == a,
{
    law_segment_is_accepted_exactly(a, seg, file, bytes);
}

/// An assembly can start from every segment with a place in its stream, be it the
/// first or not, and from no other. It then holds none.
pub proof fn law_assembly_starts_exactly(seg: SegmentView, file: FileMetaView)
    ensures
        assembler::start_rejection(seg, file) is None <==> {
            &&& seg.segment_index < seg.segment_count <= 131_072
            &&& (seg.segment_count - 1) * 33_488_904 < seg.root_original_size
                <= seg.segment_count * 33_488_904
            &&& seg.original_offset == seg.segment_index * 33_488_904
            &&& has_place(
                seg.segment_index as int,
                file.compressed_size as int,
                seg.root_original_size as int,
            )
        },
        assembler::start_rejection(seg, file) is None ==> {
            let a = AssemblerView::fresh(seg, file);
            &&& a.wf()
            &&& a.root_session_id == seg.root_session_id
            &&& a.filename == file.filename
            &&& a.root_compressed_size == seg.root_original_size
            &&& a.root_original_size == file.original_size
            &&& a.root_sha256 == seg.root_sha256
            &&& a.segments.len() == seg.segment_count
            &&& forall|i: int| 0 <= i < a.segments.len() ==> (#[trigger] a.segments[i]) is None
            &&& assembler::count_received(a.segments) == 0
        },
{
    let size = seg.root_original_size as int;
    let n = seg.segment_count as int;
    segment::law_segment_lengths_fill_stream(size, seg.segment_index as int);
    let q = segment::segments_of(size);
    if (n - 1) * 33_488_904 < size <= n * 33_488_904 {
        assert(n == q);
    }
    if size > 0 && seg.segment_index < q {
        lemma_place(seg.segment_index as int, file.compressed_size as int, size);
    }
    let a = AssemblerView::fresh(seg, file);
    assembler::lemma_none_received(a.segments);
}

/// A segment is valid exactly where it has its place in a stream of its root size,
/// is not empty, and comes in the session that its root and index give.
pub proof fn law_segment_is_valid_exactly(
    seg: SegmentView,
    child_session_id: SessionIdRaw,
    file: FileMetaView,
)
    ensures
        seg.valid(child_session_id, file) <==> {
            &&& seg.segment_index < seg.segment_count <= 131_072
            &&& (seg.segment_count - 1) * 33_488_904 < seg.root_original_size
                <= seg.segment_count * 33_488_904
            &&& seg.original_offset == seg.segment_index * 33_488_904
            &&& file.compressed_size_known
            &&& file.compressed_size >= 1
            &&& has_place(
                seg.segment_index as int,
                file.compressed_size as int,
                seg.root_original_size as int,
            )
            &&& child_session_id == session::derived_segment_id(
                seg.root_session_id,
                seg.segment_index,
            )
        },
        seg.valid(child_session_id, file) <==> seg.rejection(child_session_id, file) is None,
{
    let size = seg.root_original_size as int;
    let n = seg.segment_count as int;
    segment::law_segment_lengths_fill_stream(size, seg.segment_index as int);
    let q = segment::segments_of(size);
    if (n - 1) * 33_488_904 < size <= n * 33_488_904 {
        assert(n == q);
    }
    if size > 0 && seg.segment_index < q {
        lemma_place(seg.segment_index as int, file.compressed_size as int, size);
    }
}

/// The assembly is complete exactly where as many segments have arrived as there
/// are.
pub proof fn law_complete_when_all_arrived(a: AssemblerView)
    ensures
        a.complete() <==> assembler::count_received(a.segments) == a.segments.len(),
        assembler::count_received(a.segments) <= a.segments.len(),
        a.stream() is Some ==> a.complete(),
{
    assembler::lemma_count_received(a.segments);
}

/// A segment with its file metadata and its bytes.
pub struct Piece {
    pub seg: SegmentView,
    pub file: FileMetaView,
    pub bytes: Seq<u8>,
}

/// The assembly after the pieces were handed in.
pub open spec fn after_pieces(a: AssemblerView, pieces: Seq<Piece>) -> AssemblerView
    decreases pieces.len(),
{
    if pieces.len() == 0 {
        a
    } else {
        let p = pieces.last();
        after_pieces(a, pieces.drop_last()).with_segment(p.seg, p.file, p.bytes)
    }
}

/// Bytes `index * 33488904` up to the next segment, or to the end.
pub open spec fn slice(stream: Seq<u8>, index: int) -> Seq<u8> {
    let start = index * 33_488_904;
    stream.subrange(
        start,
        if start + 33_488_904 < stream.len() {
            start + 33_488_904
        } else {
            stream.len() as int
        },
    )
}

/// The piece belongs to the assembly and is its slice of the stream.
pub open spec fn is_slice(a: AssemblerView, p: Piece, stream: Seq<u8>) -> bool {
    belongs(a, p.seg, p.file, p.bytes) && p.bytes == slice(stream, p.seg.segment_index as int)
}

/// What is held is of the stream, and everything handed in is there.
spec fn gathered(a: AssemblerView, pieces: Seq<Piece>, stream: Seq<u8>) -> bool {
    &&& forall|i: int|
        0 <= i < a.segments.len() ==> ((#[trigger] a.segments[i]) matches Some(r) ==> r.bytes
            == slice(stream, i))
    &&& forall|k: int|
        0 <= k < pieces.len() ==> a.segments[(#[trigger] pieces[k]).seg.segment_index as int]
            is Some
}

proof fn lemma_gathered(a: AssemblerView, pieces: Seq<Piece>, stream: Seq<u8>)
    requires
        a.wf(),
        forall|i: int| 0 <= i < a.segments.len() ==> (#[trigger] a.segments[i]) is None,
        forall|k: int| 0 <= k < pieces.len() ==> is_slice(a, #[trigger] pieces[k], stream),
    ensures
        ({
            let after = after_pieces(a, pieces);
            &&& after.wf()
            &&& after.segments.len() == a.segments.len()
            &&& after == AssemblerView { segments: after.segments, ..a }
            &&& gathered(after, pieces, stream)
        }),
    decreases pieces.len(),
{
    if pieces.len() > 0 {
        let rest = pieces.drop_last();
        let p = pieces.last();
        assert forall|k: int| 0 <= k < rest.len() implies is_slice(
            a,
            #[trigger] rest[k],
            stream,
        ) by {
            assert(rest[k] == pieces[k]);
        }
        lemma_gathered(a, rest, stream);
        let prior = after_pieces(a, rest);
        let after = after_pieces(a, pieces);
        assert(is_slice(a, pieces[pieces.len() - 1], stream));
        assert(belongs(prior, p.seg, p.file, p.bytes));
        let i = p.seg.segment_index as int;
        if prior.segments[i] is None {
            law_segment_is_stored(prior, p.seg, p.file, p.bytes);
        } else {
            law_other_segment_changes_nothing(prior, p.seg, p.file, p.bytes);
        }
        assert forall|k: int| 0 <= k < pieces.len() implies after.segments[(
        #[trigger] pieces[k]).seg.segment_index as int] is Some by {
            if k < rest.len() {
                assert(rest[k] == pieces[k]);
                assert(is_slice(a, pieces[k], stream));
                assert(prior.segments[rest[k].seg.segment_index as int] is Some);
            }
        }
    }
}

/// The segments of a stream join to it in whatever order they arrive, repeats
/// allowed. The stream comes out once every segment was handed in, as far as it
/// is small enough to be joined in memory.
pub proof fn law_any_order_joins(a: AssemblerView, pieces: Seq<Piece>, stream: Seq<u8>)
    requires
        a.wf(),
        forall|i: int| 0 <= i < a.segments.len() ==> (#[trigger] a.segments[i]) is None,
        stream.len() == a.root_compressed_size <= 268_435_456,
        forall|k: int| 0 <= k < pieces.len() ==> is_slice(a, #[trigger] pieces[k], stream),
        forall|i: int|
            #![trigger a.segments[i]]
            0 <= i < a.segments.len() ==> exists|k: int|
                0 <= k < pieces.len() && (#[trigger] pieces[k]).seg.segment_index == i,
    ensures
        after_pieces(a, pieces).complete(),
        after_pieces(a, pieces).stream() == Some(stream),
{
    lemma_gathered(a, pieces, stream);
    let after = after_pieces(a, pieces);
    assert forall|i: int| 0 <= i < after.segments.len() implies (#[trigger] after.segments[i])
        is Some && (after.segments[i]->0).bytes == stream.subrange(
        segment::segment_start(i),
        segment::segment_start(i) + segment::segment_len(stream.len() as int, i),
    ) by {
        assert(a.segments[i] is None);
        let k = choose|k: int|
            0 <= k < pieces.len() && (#[trigger] pieces[k]).seg.segment_index == i;
        assert(after.segments[pieces[k].seg.segment_index as int] is Some);
        segment::lemma_segment_in_stream(stream.len() as int, i);
    }
    assembler::law_segments_join_to_stream(after, stream);
}

/// No stream comes out of an assembly but the bytes of its segments, one after
/// the other, each with the digest that its metadata gives, and all of them as
/// long as the stream should be.
pub proof fn law_stream_is_made_of_checked_segments(a: AssemblerView)
    requires
        a.wf(),
        a.stream() is Some,
    ensures
        a.stream()->0.len() == a.root_compressed_size <= 268_435_456,
        a.stream()->0 == assembler::joined(a.segments),
        forall|i: int|
            0 <= i < a.segments.len() ==> (#[trigger] a.segments[i] matches Some(r)
                && digest::sha256_of(r.bytes) == r.meta.raw_sha256 && r.meta.segment_index == i),
{
    assert forall|i: int| 0 <= i < a.segments.len() implies (#[trigger] a.segments[i] matches Some(
        r,
    ) && digest::sha256_of(r.bytes) == r.meta.raw_sha256 && r.meta.segment_index == i) by {
        assert(a.slot_wf(i));
    }
}

/// The range of segment `i` of a stream of `size` bytes.
pub open spec fn range_of(r: Received, i: int, size: int) -> (u32, u64, u64, Seq<u8>) {
    (
        i as u32,
        (i * 33_488_904) as u64,
        (if size - i * 33_488_904 < 33_488_904 {
            size - i * 33_488_904
        } else {
            33_488_904
        }) as u64,
        r.meta.raw_sha256,
    )
}

proof fn lemma_ranges(a: AssemblerView, n: int)
    requires
        a.wf(),
        0 <= n <= a.segments.len(),
    ensures
        ({
            let size = a.root_compressed_size as int;
            let ranges = assembler::known_ranges(a.segments.take(n), size);
            &&& ranges.len() == assembler::count_received(a.segments.take(n))
            &&& forall|k: int| 0 <= k < ranges.len() ==> (#[trigger] ranges[k]).0 < n
            &&& forall|j: int, k: int| 0 <= j < k < ranges.len() ==> (#[trigger] ranges[j]).0 < (
                #[trigger] ranges[k]).0
            &&& forall|k: int|
                0 <= k < ranges.len() ==> (a.segments[(#[trigger] ranges[k]).0 as int] matches Some(
                    r,
                ) && ranges[k] == range_of(r, ranges[k].0 as int, size))
        }),
    decreases n,
{
    if n > 0 {
        lemma_ranges(a, n - 1);
        assert(a.segments.take(n).drop_last() =~= a.segments.take(n - 1));
        assert(a.slot_wf(n - 1));
        segment::lemma_segment_in_stream(a.root_compressed_size as int, n - 1);
    } else {
        assert(a.segments.take(0).len() == 0);
    }
}

/// The ranges that are listed are those of the segments that have arrived, one
/// each, in the order of the stream: index, offset, canonical length and digest.
pub proof fn law_ranges_list_arrived_segments(a: AssemblerView)
    requires
        a.wf(),
    ensures
        ({
            let size = a.root_compressed_size as int;
            let ranges = assembler::known_ranges(a.segments, size);
            &&& ranges.len() == assembler::count_received(a.segments)
            &&& forall|j: int, k: int| 0 <= j < k < ranges.len() ==> (#[trigger] ranges[j]).0 < (
                #[trigger] ranges[k]).0
            &&& forall|k: int|
                0 <= k < ranges.len() ==> {
                    &&& (#[trigger] ranges[k]).0 < a.segments.len()
                    &&& a.segments[ranges[k].0 as int] matches Some(r)
                    &&& ranges[k] == range_of(r, ranges[k].0 as int, size)
                }
        }),
{
    lemma_ranges(a, a.segments.len() as int);
    assert(a.segments.take(a.segments.len() as int) =~= a.segments);
}

} // verus!
