//! Joining the segments of a large transfer.
//!
//! Each segment is an ordinary object of its own session. The assembler collects
//! the recovered compressed bytes of each, checks length and SHA-256 against the
//! segment's metadata, and once every segment has arrived gives out the whole
//! compressed stream. Decompressing it is the caller's job.
//!
//! The whole stream is held in memory. Hosts with less memory write each segment
//! to disk at its offset instead.
use crate::digest;
use crate::transfer_engine::descriptor::{FileMeta, FileMetaView};
use crate::transfer_engine::segment;
use crate::transfer_engine::segment::{
    SegmentMeta, SegmentView, MAX_SEGMENT_COUNT, SEGMENT_RAW_BYTES,
};
use crate::transfer_engine::Error;
use crate::wire;
use std::collections::TryReserveError;
use vstd::prelude::*;

verus! {

/// Largest stream that is joined in memory.
pub const MAX_IN_MEMORY_ASSEMBLY_BYTES: u64 = 256 * 1024 * 1024;

/// The segments of one transfer.
pub struct TransferAssembler {
    root_session_id: u128,
    filename: String,
    total_segments: u32,
    root_compressed_size: u64,
    root_original_size: u64,
    root_sha256: [u8; 32],
    segments: Vec<Option<Vec<u8>>>,
    meta: Vec<Option<SegmentMeta>>,
    received_count: u32,
}

/// A segment that was received: its metadata and its compressed bytes.
#[verifier::ext_equal]
pub struct Received {
    pub meta: SegmentView,
    pub bytes: Seq<u8>,
}

/// What a [`TransferAssembler`] stands for.
#[verifier::ext_equal]
pub struct AssemblerView {
    pub root_session_id: u128,
    pub filename: Seq<char>,
    /// Size of the compressed stream.
    pub root_compressed_size: u64,
    /// Size of the original file.
    pub root_original_size: u64,
    pub root_sha256: Seq<u8>,
    /// The segments by index, as far as they have arrived.
    pub segments: Seq<Option<Received>>,
}

/// How many segments have arrived.
pub open spec fn count_received(segments: Seq<Option<Received>>) -> nat
    decreases segments.len(),
{
    if segments.len() == 0 {
        0
    } else {
        count_received(segments.drop_last()) + if segments.last() is Some {
            1nat
        } else {
            0
        }
    }
}

/// The bytes of the segments, one after the other.
pub open spec fn joined(segments: Seq<Option<Received>>) -> Seq<u8>
    decreases segments.len(),
{
    if segments.len() == 0 {
        Seq::empty()
    } else {
        joined(segments.drop_last()) + (segments.last()->0).bytes
    }
}

/// Why a segment has no place in a stream of `size` bytes, if it has none.
pub open spec fn range_rejection(seg: SegmentView, file: FileMetaView, size: int) -> Option<
    Seq<char>,
> {
    if seg.segment_count == 0 || seg.segment_count > MAX_SEGMENT_COUNT {
        Some("segment count out of range"@)
    } else if size == 0 || seg.segment_count != segment::segments_of(size) {
        Some("segment count inconsistent with compressed root size"@)
    } else if seg.segment_index >= seg.segment_count {
        Some("segment index out of range"@)
    } else if seg.root_original_size != size {
        Some("segment root size does not match assembler"@)
    } else if seg.original_offset != segment::segment_start(seg.segment_index as int) {
        Some("segment offset is not canonical"@)
    } else if file.compressed_size > segment::segment_len(size, seg.segment_index as int) {
        Some("segment compressed length exceeds canonical compressed range"@)
    } else {
        None
    }
}

/// Why no assembly can start from a segment, if none can.
pub open spec fn start_rejection(seg: SegmentView, file: FileMetaView) -> Option<Seq<char>> {
    let size = seg.root_original_size as int;
    if seg.segment_count == 0 || seg.segment_count > MAX_SEGMENT_COUNT {
        Some("segment count out of range"@)
    } else if size == 0 {
        Some("segment compressed root size is empty"@)
    } else if segment::segments_of(size) > u32::MAX {
        Some("segment count overflow"@)
    } else if seg.segment_count != segment::segments_of(size) {
        Some("segment count inconsistent with compressed root size"@)
    } else {
        range_rejection(seg, file, size)
    }
}

impl AssemblerView {
    /// An assembly that starts from a segment and holds none yet.
    pub open spec fn fresh(seg: SegmentView, file: FileMetaView) -> AssemblerView {
        AssemblerView {
            root_session_id: seg.root_session_id,
            filename: file.filename,
            root_compressed_size: seg.root_original_size,
            root_original_size: file.original_size,
            root_sha256: seg.root_sha256,
            segments: Seq::new(seg.segment_count as nat, |i: int| None::<Received>),
        }
    }

    /// Every segment has arrived.
    pub open spec fn complete(self) -> bool {
        forall|i: int| 0 <= i < self.segments.len() ==> (#[trigger] self.segments[i]) is Some
    }

    /// Slot `i` holds nothing, or a segment that was checked against its
    /// metadata.
    pub open spec fn slot_wf(self, i: int) -> bool {
        self.segments[i] matches Some(r) ==> {
            &&& r.meta.segment_index == i
            &&& r.meta.original_offset == segment::segment_start(i)
            &&& r.bytes.len() <= segment::segment_len(self.root_compressed_size as int, i)
            &&& digest::sha256_of(r.bytes) == r.meta.raw_sha256
            &&& r.meta.root_session_id == self.root_session_id
            &&& r.meta.root_sha256 == self.root_sha256
        }
    }

    /// The slots are those of the stream, and each is as it should be.
    pub open spec fn wf(self) -> bool {
        &&& self.root_compressed_size > 0
        &&& self.segments.len() == segment::segments_of(self.root_compressed_size as int)
        &&& 1 <= self.segments.len() <= MAX_SEGMENT_COUNT
        &&& forall|i: int| 0 <= i < self.segments.len() ==> #[trigger] self.slot_wf(i)
    }

    /// Why a segment is refused, if it is: the first of the checks, in their
    /// order, that fails.
    pub open spec fn segment_rejection(
        self,
        seg: SegmentView,
        file: FileMetaView,
        bytes: Seq<u8>,
    ) -> Option<Seq<char>> {
        if seg.root_session_id != self.root_session_id {
            Some("segment root id does not match assembler"@)
        } else if seg.segment_count != self.segments.len() {
            Some("segment count does not match assembler"@)
        } else if seg.root_sha256 != self.root_sha256 {
            Some("segment root sha256 does not match assembler"@)
        } else if file.filename != self.filename {
            Some("segment filename does not match assembler"@)
        } else if range_rejection(seg, file, self.root_compressed_size as int) is Some {
            range_rejection(seg, file, self.root_compressed_size as int)
        } else if bytes.len() != file.compressed_size {
            Some("segment length mismatch"@)
        } else if digest::sha256_of(bytes) != seg.raw_sha256 {
            Some("segment sha256 mismatch"@)
        } else if self.segments[seg.segment_index as int] matches Some(r) && r.meta != seg {
            Some("duplicate segment metadata conflicts with stored segment"@)
        } else {
            None
        }
    }

    /// The assembly after a segment was handed in: stored where it is not
    /// refused and not there yet.
    pub open spec fn with_segment(
        self,
        seg: SegmentView,
        file: FileMetaView,
        bytes: Seq<u8>,
    ) -> AssemblerView {
        let i = seg.segment_index as int;
        if self.segment_rejection(seg, file, bytes) is None && self.segments[i] is None {
            AssemblerView {
                segments: self.segments.update(i, Some(Received { meta: seg, bytes })),
                ..self
            }
        } else {
            self
        }
    }

    /// The compressed stream, if every segment has arrived, it is small enough
    /// and the segments fill it.
    pub open spec fn stream(self) -> Option<Seq<u8>> {
        if self.complete() && self.root_compressed_size <= MAX_IN_MEMORY_ASSEMBLY_BYTES && joined(
            self.segments,
        ).len() == self.root_compressed_size {
            Some(joined(self.segments))
        } else {
            None
        }
    }
}

/// All segments have arrived exactly where their count says so.
pub proof fn lemma_count_received(segments: Seq<Option<Received>>)
    ensures
        count_received(segments) <= segments.len(),
        count_received(segments) == segments.len() <==> forall|i: int|
            0 <= i < segments.len() ==> (#[trigger] segments[i]) is Some,
    decreases segments.len(),
{
    if segments.len() > 0 {
        let rest = segments.drop_last();
        lemma_count_received(rest);
        if count_received(segments) == segments.len() {
            assert forall|i: int| 0 <= i < segments.len() implies (#[trigger] segments[i]) is Some by {
                if i < rest.len() {
                    assert(rest[i] is Some);
                }
            }
        }
        if forall|i: int| 0 <= i < segments.len() ==> (#[trigger] segments[i]) is Some {
            assert forall|i: int| 0 <= i < rest.len() implies (#[trigger] rest[i]) is Some by {
                assert(segments[i] is Some);
            }
            assert(segments[segments.len() - 1] is Some);
        }
    }
}

/// One more segment is one more to count.
pub proof fn lemma_count_update(segments: Seq<Option<Received>>, i: int, r: Received)
    requires
        0 <= i < segments.len(),
        segments[i] is None,
    ensures
        count_received(segments.update(i, Some(r))) == count_received(segments) + 1,
    decreases segments.len(),
{
    let after = segments.update(i, Some(r));
    if i < segments.len() - 1 {
        lemma_count_update(segments.drop_last(), i, r);
        assert(after.drop_last() =~= segments.drop_last().update(i, Some(r)));
    } else {
        assert(after.drop_last() =~= segments.drop_last());
    }
}

/// Segments that are the slices of a stream join to that stream, in whatever
/// order they arrived.
pub proof fn law_segments_join_to_stream(a: AssemblerView, stream: Seq<u8>)
    requires
        a.wf(),
        stream.len() == a.root_compressed_size,
        forall|i: int|
            0 <= i < a.segments.len() ==> (#[trigger] a.segments[i]) is Some && (
            a.segments[i]->0).bytes == stream.subrange(
                segment::segment_start(i),
                segment::segment_start(i) + segment::segment_len(stream.len() as int, i),
            ),
    ensures
        joined(a.segments) == stream,
        stream.len() <= MAX_IN_MEMORY_ASSEMBLY_BYTES ==> a.stream() == Some(stream),
{
    let n = a.segments.len() as int;
    lemma_join_prefix(a, stream, n);
    segment::law_segments_partition_stream(stream.len() as int, n - 1);
    assert(a.segments.take(n) =~= a.segments);
    assert(stream.subrange(0, stream.len() as int) =~= stream);
}

/// Where segment `n` starts, or the end of the stream.
spec fn end_of_prefix(size: int, n: int) -> int {
    if n < segment::segments_of(size) {
        segment::segment_start(n)
    } else {
        size
    }
}

proof fn lemma_join_prefix(a: AssemblerView, stream: Seq<u8>, n: int)
    requires
        a.wf(),
        stream.len() == a.root_compressed_size,
        0 <= n <= a.segments.len(),
        forall|i: int|
            0 <= i < a.segments.len() ==> (#[trigger] a.segments[i]) is Some && (
            a.segments[i]->0).bytes == stream.subrange(
                segment::segment_start(i),
                segment::segment_start(i) + segment::segment_len(stream.len() as int, i),
            ),
    ensures
        0 <= end_of_prefix(stream.len() as int, n) <= stream.len(),
        joined(a.segments.take(n)) == stream.subrange(0, end_of_prefix(stream.len() as int, n)),
    decreases n,
{
    let size = stream.len() as int;
    if n == 0 {
        segment::law_segments_partition_stream(size, 0);
        assert(a.segments.take(0).len() == 0);
        assert(stream.subrange(0, 0) =~= Seq::<u8>::empty());
    } else {
        lemma_join_prefix(a, stream, n - 1);
        segment::law_segments_partition_stream(size, n - 1);
        segment::lemma_segment_in_stream(size, n - 1);
        assert(a.segments.take(n).drop_last() =~= a.segments.take(n - 1));
        assert(a.segments[n - 1] is Some);
        let start = segment::segment_start(n - 1);
        let end = start + segment::segment_len(size, n - 1);
        assert(stream.subrange(0, start) + stream.subrange(start, end) =~= stream.subrange(0, end));
    }
}

impl View for TransferAssembler {
    type V = AssemblerView;

    closed spec fn view(&self) -> AssemblerView {
        AssemblerView {
            root_session_id: self.root_session_id,
            filename: self.filename@,
            root_compressed_size: self.root_compressed_size,
            root_original_size: self.root_original_size,
            root_sha256: self.root_sha256@,
            segments: Seq::new(
                self.segments@.len(),
                |i: int|
                    match (self.segments@[i], self.meta@[i]) {
                        (Some(bytes), Some(meta)) => Some(
                            Received { meta: meta@, bytes: bytes@ },
                        ),
                        _ => None,
                    },
            ),
        }
    }
}

/// How many segments a stream of this size takes, if a `u32` can hold it.
fn expected_segment_count(root_compressed_size: u64) -> (count: Option<u32>)
    ensures
        match count {
            Some(n) => n == segment::segments_of(root_compressed_size as int),
            None => segment::segments_of(root_compressed_size as int) > u32::MAX,
        },
{
    if root_compressed_size == 0 {
        Some(0)
    } else {
        let count: u64 = (root_compressed_size - 1) / SEGMENT_RAW_BYTES + 1;
        if count > u32::MAX as u64 {
            None
        } else {
            Some(count as u32)
        }
    }
}

/// Length of a segment of a stream, zero past its end.
fn segment_raw_len(root_size: u64, segment_index: u32) -> (len: u64)
    ensures
        len == segment::segment_len(root_size as int, segment_index as int),
{
    let off: u64 = segment_index as u64 * SEGMENT_RAW_BYTES;
    let remaining: u64 = root_size.saturating_sub(off);
    if remaining < SEGMENT_RAW_BYTES {
        remaining
    } else {
        SEGMENT_RAW_BYTES
    }
}

/// Check a segment's place in a stream.
fn validate_segment_range(
    seg: &SegmentMeta,
    file_meta: &FileMeta,
    root_compressed_size: u64,
) -> (r: Result<(), &'static str>)
    ensures
        match r {
            Ok(_) => range_rejection(seg@, file_meta@, root_compressed_size as int) is None,
            Err(reason) => range_rejection(seg@, file_meta@, root_compressed_size as int) == Some(
                reason@,
            ),
        },
{
    if seg.segment_count == 0 || seg.segment_count > MAX_SEGMENT_COUNT {
        return Err("segment count out of range");
    }
    match expected_segment_count(root_compressed_size) {
        Some(count) => if count != seg.segment_count {
            return Err("segment count inconsistent with compressed root size");
        },
        None => {
            return Err("segment count inconsistent with compressed root size");
        },
    }
    if seg.segment_index >= seg.segment_count {
        return Err("segment index out of range");
    }
    if seg.root_original_size != root_compressed_size {
        return Err("segment root size does not match assembler");
    }
    let expected_offset: u64 = seg.segment_index as u64 * SEGMENT_RAW_BYTES;
    if seg.original_offset != expected_offset {
        return Err("segment offset is not canonical");
    }
    let canonical_len: u64 = segment_raw_len(root_compressed_size, seg.segment_index);
    if file_meta.compressed_size > canonical_len {
        return Err("segment compressed length exceeds canonical compressed range");
    }
    Ok(())
}

/// Whether two segments have the same metadata.
pub fn same_segment(a: &SegmentMeta, b: &SegmentMeta) -> (same: bool)
    ensures
        same == (a@ == b@),
{
    let same: bool = a.root_session_id == b.root_session_id && a.segment_index == b.segment_index
        && a.segment_count == b.segment_count && a.original_offset == b.original_offset
        && a.root_original_size == b.root_original_size && wire::same_bytes(
        &a.root_sha256,
        &b.root_sha256,
    ) && wire::same_bytes(&a.raw_sha256, &b.raw_sha256);
    assert(same ==> a@ =~= b@);
    same
}

/// An empty vector was refused room for `n` items: an error is what
/// `Vec::try_reserve` gave back for it.
pub open spec fn refused<T>(n: usize) -> bool {
    exists|v: &mut Vec<T>, reply: Result<(), TryReserveError>|
        (*v)@.len() == 0 && reply is Err && #[trigger] call_ensures(
            Vec::<T>::try_reserve,
            (v, n),
            reply,
        )
}

/// `n` empty slots, unless memory for them is refused.
fn empty_slots<T>(n: usize) -> (slots: Option<Vec<Option<T>>>)
    ensures
        match slots {
            Some(s) => s@.len() == n && forall|i: int| 0 <= i < n ==> (#[trigger] s@[i]) is None,
            None => refused::<Option<T>>(n),
        },
{
    let mut slots: Vec<Option<T>> = Vec::new();
    if slots.try_reserve(n).is_err() {
        return None;
    }
    let mut i: usize = 0;
    while i < n
        invariant
            i <= n,
            slots@.len() == i,
            forall|j: int| 0 <= j < i ==> (#[trigger] slots@[j]) is None,
        decreases n - i,
    {
        slots.push(None);
        i = i + 1;
    }
    Some(slots)
}

impl TransferAssembler {
    /// The slots hold what the view says.
    pub closed spec fn inner_wf(self) -> bool {
        &&& self.total_segments == self.segments@.len()
        &&& self.meta@.len() == self.segments@.len()
        &&& self.received_count == count_received(self@.segments)
        &&& forall|i: int|
            0 <= i < self.segments@.len() ==> ((#[trigger] self.segments@[i]) is Some
                <==> self.meta@[i] is Some)
    }

    /// The assembler is in a state that segments can bring about.
    pub open spec fn wf(self) -> bool {
        self.inner_wf() && self@.wf()
    }

    /// Start an assembly from the first segment that is seen. It fails where
    /// the segment is rejected, or where there is no memory for the slots.
    pub fn new(seg: &SegmentMeta, file_meta: &FileMeta) -> (r: Result<Self, Error>)
        ensures
            match r {
                Ok(a) => {
                    &&& start_rejection(seg@, file_meta@) is None
                    &&& a.wf()
                    &&& a@ == AssemblerView::fresh(seg@, file_meta@)
                },
                Err(e) => e matches Error::InvalidSegment(reason) && match start_rejection(
                    seg@,
                    file_meta@,
                ) {
                    Some(rejection) => reason@ == rejection,
                    None => {
                        ||| reason@ == "segment slot allocation failed"@ && refused::<
                            Option<Vec<u8>>,
                        >(seg.segment_count as usize)
                        ||| reason@ == "segment metadata allocation failed"@ && refused::<
                            Option<SegmentMeta>,
                        >(seg.segment_count as usize)
                    },
                },
            },
    {
        match Self::check_start(seg, file_meta) {
            Ok(_) => {},
            Err(reason) => {
                return Err(Error::InvalidSegment(reason));
            },
        }
        let n: usize = seg.segment_count as usize;
        let segments = empty_slots::<Vec<u8>>(n);
        let meta = empty_slots::<SegmentMeta>(n);
        Self::with_slots(seg, file_meta, segments, meta)
    }

    /// Check that an assembly can start from a segment.
    pub fn check_start(seg: &SegmentMeta, file_meta: &FileMeta) -> (r: Result<(), &'static str>)
        ensures
            match r {
                Ok(_) => start_rejection(seg@, file_meta@) is None,
                Err(reason) => start_rejection(seg@, file_meta@) == Some(reason@),
            },
    {
        if seg.segment_count == 0 || seg.segment_count > MAX_SEGMENT_COUNT {
            return Err("segment count out of range");
        }
        if seg.root_original_size == 0 {
            return Err("segment compressed root size is empty");
        }
        match expected_segment_count(seg.root_original_size) {
            Some(expected) => if expected != seg.segment_count {
                return Err("segment count inconsistent with compressed root size");
            },
            None => {
                return Err("segment count overflow");
            },
        }
        validate_segment_range(seg, file_meta, seg.root_original_size)
    }

    /// Start an assembly from a segment that passed the check, with the slots
    /// that memory was found for.
    pub fn with_slots(
        seg: &SegmentMeta,
        file_meta: &FileMeta,
        segments: Option<Vec<Option<Vec<u8>>>>,
        meta: Option<Vec<Option<SegmentMeta>>>,
    ) -> (r: Result<Self, Error>)
        requires
            start_rejection(seg@, file_meta@) is None,
            segments matches Some(s) ==> s@.len() == seg.segment_count && forall|i: int|
                0 <= i < s@.len() ==> (#[trigger] s@[i]) is None,
            meta matches Some(s) ==> s@.len() == seg.segment_count && forall|i: int|
                0 <= i < s@.len() ==> (#[trigger] s@[i]) is None,
        ensures
            match r {
                Ok(a) => {
                    &&& segments is Some
                    &&& meta is Some
                    &&& a.wf()
                    &&& a@ == AssemblerView::fresh(seg@, file_meta@)
                },
                Err(e) => e matches Error::InvalidSegment(reason) && if segments is None {
                    reason@ == "segment slot allocation failed"@
                } else {
                    meta is None && reason@ == "segment metadata allocation failed"@
                },
            },
    {
        let segments = match segments {
            Some(s) => s,
            None => {
                return Err(Error::InvalidSegment("segment slot allocation failed"));
            },
        };
        let meta = match meta {
            Some(s) => s,
            None => {
                return Err(Error::InvalidSegment("segment metadata allocation failed"));
            },
        };
        let a = TransferAssembler {
            root_session_id: seg.root_session_id,
            filename: file_meta.filename.clone(),
            total_segments: seg.segment_count,
            root_compressed_size: seg.root_original_size,
            root_original_size: file_meta.original_size,
            root_sha256: seg.root_sha256,
            segments,
            meta,
            received_count: 0,
        };
        proof {
            assert(a@.segments =~= AssemblerView::fresh(seg@, file_meta@).segments);
            assert(a@ =~= AssemblerView::fresh(seg@, file_meta@));
            lemma_none_received(a@.segments);
        }
        Ok(a)
    }

    /// Identity of the transfer.
    pub fn root_session_id(&self) -> (id: u128)
        ensures
            id == self@.root_session_id,
    {
        self.root_session_id
    }

    /// Name of the file.
    pub fn filename(&self) -> (name: &str)
        ensures
            name@ == self@.filename,
    {
        self.filename.as_str()
    }

    /// Size of the original file.
    pub fn root_original_size(&self) -> (size: u64)
        ensures
            size == self@.root_original_size,
    {
        self.root_original_size
    }

    /// Size of the compressed stream.
    pub fn root_compressed_size(&self) -> (size: u64)
        ensures
            size == self@.root_compressed_size,
    {
        self.root_compressed_size
    }

    /// Number of segments.
    pub fn total_segments(&self) -> (n: u32)
        requires
            self.wf(),
        ensures
            n == self@.segments.len(),
    {
        self.total_segments
    }

    /// Number of segments that have arrived.
    pub fn received_segments(&self) -> (n: u32)
        requires
            self.wf(),
        ensures
            n == count_received(self@.segments),
    {
        self.received_count
    }

    /// Whether every segment has arrived.
    pub fn is_complete(&self) -> (complete: bool)
        requires
            self.wf(),
        ensures
            complete == self@.complete(),
    {
        proof {
            lemma_count_received(self@.segments);
        }
        self.received_count == self.total_segments
    }

    /// Whether segment `segment_index` has arrived.
    pub fn has_segment(&self, segment_index: u32) -> (has: bool)
        requires
            self.wf(),
        ensures
            has == (segment_index < self@.segments.len() && self@.segments[segment_index as int]
                is Some),
    {
        (segment_index as usize) < self.segments.len() && self.segments[segment_index
            as usize].is_some()
    }

    /// Store the compressed bytes of a segment, after checking its identity, its
    /// place, its length and its SHA-256.
    ///
    /// Returns whether it was stored: a segment that is already there is not,
    /// and is refused where its metadata differ.
    pub fn add_segment(
        &mut self,
        seg: &SegmentMeta,
        file_meta: &FileMeta,
        bytes: Vec<u8>,
    ) -> (r: Result<bool, Error>)
        requires
            old(self).wf(),
        ensures
            final(self).wf(),
            final(self)@ == old(self)@.with_segment(seg@, file_meta@, bytes@),
            match r {
                Ok(stored) => {
                    &&& old(self)@.segment_rejection(seg@, file_meta@, bytes@) is None
                    &&& stored == (old(self)@.segments[seg.segment_index as int] is None)
                },
                Err(e) => e matches Error::InvalidSegment(reason)
                    && old(self)@.segment_rejection(seg@, file_meta@, bytes@) == Some(reason@),
            },
    {
        match self.check_segment(seg, file_meta, &bytes) {
            Ok(_) => {},
            Err(reason) => {
                return Err(Error::InvalidSegment(reason));
            },
        }
        let idx: usize = seg.segment_index as usize;
        let ghost before = self@;
        if self.segments[idx].is_some() {
            return Ok(false);
        }
        proof {
            lemma_count_received(before.segments);
            lemma_count_update(
                before.segments,
                idx as int,
                Received { meta: seg@, bytes: bytes@ },
            );
            assert(before.segments[idx as int] is None);
            assert(!before.complete());
            segment::lemma_segment_in_stream(before.root_compressed_size as int, idx as int);
        }
        self.segments.set(idx, Some(bytes));
        self.meta.set(idx, Some(seg.clone()));
        self.received_count = self.received_count + 1;
        proof {
            let after = before.with_segment(seg@, file_meta@, bytes@);
            assert(self@.segments =~= after.segments);
            assert(self@ =~= after);
            assert forall|i: int| 0 <= i < self@.segments.len() implies #[trigger] self@.slot_wf(
                i,
            ) by {
                assert(before.slot_wf(i));
            }
        }
        Ok(true)
    }

    /// Check a segment against the assembly.
    fn check_segment(&self, seg: &SegmentMeta, file_meta: &FileMeta, bytes: &Vec<u8>) -> (r: Result<
        (),
        &'static str,
    >)
        requires
            self.wf(),
        ensures
            match r {
                Ok(_) => self@.segment_rejection(seg@, file_meta@, bytes@) is None,
                Err(reason) => self@.segment_rejection(seg@, file_meta@, bytes@) == Some(reason@),
            },
    {
        if seg.root_session_id != self.root_session_id {
            return Err("segment root id does not match assembler");
        }
        if seg.segment_count != self.total_segments {
            return Err("segment count does not match assembler");
        }
        if !wire::same_bytes(&seg.root_sha256, &self.root_sha256) {
            return Err("segment root sha256 does not match assembler");
        }
        if !(file_meta.filename == self.filename) {
            return Err("segment filename does not match assembler");
        }
        match validate_segment_range(seg, file_meta, self.root_compressed_size) {
            Ok(_) => {},
            Err(reason) => {
                return Err(reason);
            },
        }
        if bytes.len() as u64 != file_meta.compressed_size {
            return Err("segment length mismatch");
        }
        proof {
            segment::lemma_segment_in_stream(
                self.root_compressed_size as int,
                seg.segment_index as int,
            );
        }
        if bytes.len() as u64 > segment_raw_len(self.root_compressed_size, seg.segment_index) {
            return Err("segment length exceeds canonical range");
        }
        let actual = digest::sha256(bytes);
        if !wire::same_bytes(&actual, &seg.raw_sha256) {
            return Err("segment sha256 mismatch");
        }
        let idx: usize = seg.segment_index as usize;
        if self.segments[idx].is_some() {
            match &self.meta[idx] {
                Some(meta) => if !same_segment(meta, seg) {
                    return Err("duplicate segment metadata conflicts with stored segment");
                },
                None => {
                    assert(false);
                },
            }
        }
        Ok(())
    }

    /// The whole compressed stream, once every segment has arrived. There is
    /// none where the stream is too large to be joined in memory, where the
    /// segments do not fill it, or where memory for it is refused.
    pub fn reassemble(&self) -> (stream: Option<Vec<u8>>)
        requires
            self.wf(),
        ensures
            match stream {
                Some(s) => self@.stream() == Some(s@),
                None => self@.stream() is None || refused::<u8>(
                    self@.root_compressed_size as usize,
                ),
            },
    {
        let mut out: Vec<u8> = Vec::new();
        if !self.is_complete() || self.root_compressed_size > MAX_IN_MEMORY_ASSEMBLY_BYTES {
            return None;
        }
        let room: bool = out.try_reserve(self.root_compressed_size as usize).is_ok();
        self.reassemble_into(out, room)
    }

    /// The whole compressed stream, written to the empty `out`, if there is
    /// room.
    pub fn reassemble_into(&self, out: Vec<u8>, room: bool) -> (stream: Option<Vec<u8>>)
        requires
            self.wf(),
            out@.len() == 0,
        ensures
            match stream {
                Some(s) => room && self@.stream() == Some(s@),
                None => !room || self@.stream() is None,
            },
    {
        if !room || !self.is_complete() || self.root_compressed_size
            > MAX_IN_MEMORY_ASSEMBLY_BYTES {
            return None;
        }
        let mut out: Vec<u8> = out;
        let mut i: usize = 0;
        assert(out@ =~= Seq::<u8>::empty());
        while i < self.segments.len()
            invariant
                self.wf(),
                self@.complete(),
                i <= self.segments@.len(),
                out@ == joined(self@.segments.take(i as int)),
            decreases self.segments@.len() - i,
        {
            proof {
                assert(self@.segments.take(i + 1).drop_last() =~= self@.segments.take(i as int));
                assert(self@.segments[i as int] is Some);
            }
            match &self.segments[i] {
                Some(bytes) => {
                    wire::push_bytes(&mut out, bytes);
                },
                None => {
                    return None;
                },
            }
            i = i + 1;
        }
        assert(self@.segments.take(i as int) =~= self@.segments);
        if out.len() as u64 != self.root_compressed_size {
            return None;
        }
        Some(out)
    }

    /// For every segment that has arrived, in order: its index, its offset in
    /// the compressed stream, its length there and its SHA-256.
    pub fn segment_ranges(&self) -> (ranges: Vec<(u32, u64, u64, [u8; 32])>)
        requires
            self.wf(),
        ensures
            range_views(ranges@) == known_ranges(
                self@.segments,
                self@.root_compressed_size as int,
            ),
    {
        let mut ranges: Vec<(u32, u64, u64, [u8; 32])> = Vec::new();
        let mut i: usize = 0;
        assert(range_views(ranges@) =~= known_ranges(
            self@.segments.take(0),
            self@.root_compressed_size as int,
        ));
        while i < self.meta.len()
            invariant
                self.wf(),
                i <= self.segments@.len() == self.meta@.len(),
                range_views(ranges@) == known_ranges(
                    self@.segments.take(i as int),
                    self@.root_compressed_size as int,
                ),
            decreases self.meta@.len() - i,
        {
            proof {
                assert(self@.segments.take(i + 1).drop_last() =~= self@.segments.take(i as int));
                assert(self@.slot_wf(i as int));
                assert(self.segments@[i as int] is Some <==> self.meta@[i as int] is Some);
            }
            let ghost before = ranges@;
            match &self.meta[i] {
                Some(seg) => {
                    ranges.push(
                        (
                            seg.segment_index,
                            seg.original_offset,
                            segment_raw_len(self.root_compressed_size, seg.segment_index),
                            seg.raw_sha256,
                        ),
                    );
                    assert(range_views(ranges@) =~= range_views(before).push(
                        range_view(ranges@.last()),
                    ));
                },
                None => {},
            }
            i = i + 1;
        }
        assert(self@.segments.take(i as int) =~= self@.segments);
        ranges
    }
}

/// What one segment range stands for.
pub open spec fn range_view(r: (u32, u64, u64, [u8; 32])) -> (u32, u64, u64, Seq<u8>) {
    (r.0, r.1, r.2, r.3@)
}

/// What segment ranges stand for.
pub open spec fn range_views(ranges: Seq<(u32, u64, u64, [u8; 32])>) -> Seq<
    (u32, u64, u64, Seq<u8>),
> {
    ranges.map_values(|r: (u32, u64, u64, [u8; 32])| range_view(r))
}

/// The ranges of the segments that have arrived, of a stream of `size` bytes.
pub open spec fn known_ranges(segments: Seq<Option<Received>>, size: int) -> Seq<
    (u32, u64, u64, Seq<u8>),
>
    decreases segments.len(),
{
    if segments.len() == 0 {
        Seq::empty()
    } else {
        let rest = known_ranges(segments.drop_last(), size);
        match segments.last() {
            Some(r) => rest.push(
                (
                    r.meta.segment_index,
                    r.meta.original_offset,
                    segment::segment_len(size, r.meta.segment_index as int) as u64,
                    r.meta.raw_sha256,
                ),
            ),
            None => rest,
        }
    }
}

/// Empty slots count nothing.
pub proof fn lemma_none_received(segments: Seq<Option<Received>>)
    requires
        forall|i: int| 0 <= i < segments.len() ==> (#[trigger] segments[i]) is None,
    ensures
        count_received(segments) == 0,
    decreases segments.len(),
{
    if segments.len() > 0 {
        lemma_none_received(segments.drop_last());
    }
}

} // verus!
