//! Segments of a large transfer.
//!
//! A transfer is compressed once into a single stream, and that stream is split
//! into fixed-size segments. Each segment is an independent RaptorQ object with
//! its own child session id, while its descriptor carries the root transfer id
//! and the segment's range within the compressed stream. The receiver joins the
//! segments in order and decompresses the whole stream once.
use crate::qr_protocol::frame::SessionIdRaw;
use crate::qr_protocol::session;
use crate::qr_protocol::SessionId;
use crate::transfer_engine::descriptor::{FileMeta, FileMetaView};
use vstd::prelude::*;

verus! {

/// Size of a segment of the compressed stream. It leaves one symbol of headroom
/// below the object ceiling, so that a padded segment fits for any symbol size.
pub const SEGMENT_RAW_BYTES: u64 = 33_488_904;

/// Ceiling on the number of segments of one transfer.
pub const MAX_SEGMENT_COUNT: u32 = 131_072;

/// Metadata of one segment of a compressed stream.
#[derive(Debug, PartialEq, Eq)]
pub struct SegmentMeta {
    /// Identity of the whole transfer.
    pub root_session_id: SessionIdRaw,
    /// Index of the segment, from zero.
    pub segment_index: u32,
    /// Number of segments.
    pub segment_count: u32,
    /// Byte offset of the segment within the compressed stream.
    pub original_offset: u64,
    /// Size of the whole compressed stream.
    pub root_original_size: u64,
    /// SHA-256 of the whole decompressed payload, the same in every segment.
    pub root_sha256: [u8; 32],
    /// SHA-256 of this segment's compressed bytes.
    pub raw_sha256: [u8; 32],
}

/// What a [`SegmentMeta`] stands for.
#[verifier::ext_equal]
pub struct SegmentView {
    pub root_session_id: SessionIdRaw,
    pub segment_index: u32,
    pub segment_count: u32,
    pub original_offset: u64,
    pub root_original_size: u64,
    pub root_sha256: Seq<u8>,
    pub raw_sha256: Seq<u8>,
}

impl View for SegmentMeta {
    type V = SegmentView;

    open spec fn view(&self) -> SegmentView {
        SegmentView {
            root_session_id: self.root_session_id,
            segment_index: self.segment_index,
            segment_count: self.segment_count,
            original_offset: self.original_offset,
            root_original_size: self.root_original_size,
            root_sha256: self.root_sha256@,
            raw_sha256: self.raw_sha256@,
        }
    }
}

impl Clone for SegmentMeta {
    fn clone(&self) -> (segment: Self)
        ensures
            segment@ == self@,
    {
        SegmentMeta {
            root_session_id: self.root_session_id,
            segment_index: self.segment_index,
            segment_count: self.segment_count,
            original_offset: self.original_offset,
            root_original_size: self.root_original_size,
            root_sha256: self.root_sha256,
            raw_sha256: self.raw_sha256,
        }
    }
}

/// Number of segments that a compressed stream of `size` bytes takes.
pub open spec fn segments_of(size: int) -> int {
    (size - 1) / SEGMENT_RAW_BYTES as int + 1
}

/// Where segment `index` starts.
pub open spec fn segment_start(index: int) -> int {
    index * SEGMENT_RAW_BYTES
}

/// Length of segment `index` of a compressed stream of `size` bytes. There is
/// nothing past the end of the stream.
pub open spec fn segment_len(size: int, index: int) -> int {
    if size <= segment_start(index) {
        0
    } else if size - segment_start(index) < SEGMENT_RAW_BYTES {
        size - segment_start(index)
    } else {
        SEGMENT_RAW_BYTES as int
    }
}

impl SegmentView {
    /// The segment has its place in a stream of its root size, the file
    /// metadata gives it a length within that place, and the session is the
    /// segment's own.
    pub open spec fn valid(self, child_session_id: SessionIdRaw, file: FileMetaView) -> bool {
        &&& self.segment_index < self.segment_count <= MAX_SEGMENT_COUNT
        &&& self.root_original_size > 0
        &&& self.segment_count == segments_of(self.root_original_size as int)
        &&& self.original_offset == segment_start(self.segment_index as int)
        &&& file.compressed_size_known
        &&& 1 <= file.compressed_size <= segment_len(
            self.root_original_size as int,
            self.segment_index as int,
        )
        &&& child_session_id == session::derived_segment_id(
            self.root_session_id,
            self.segment_index,
        )
    }

    /// Why the segment is rejected, if it is: the first of the checks, in their
    /// order, that fails.
    pub open spec fn rejection(
        self,
        child_session_id: SessionIdRaw,
        file: FileMetaView,
    ) -> Option<Seq<char>> {
        let size = self.root_original_size as int;
        if self.segment_count == 0 || self.segment_count > MAX_SEGMENT_COUNT {
            Some("segment count out of range"@)
        } else if self.segment_index >= self.segment_count {
            Some("segment index out of range"@)
        } else if size == 0 {
            Some("root compressed size must be non-zero"@)
        } else if segments_of(size) > u32::MAX {
            Some("segment count exceeds protocol budget"@)
        } else if self.segment_count != segments_of(size) {
            Some("segment count inconsistent with compressed root size"@)
        } else if self.original_offset != segment_start(self.segment_index as int) {
            Some("segment offset is not canonical"@)
        } else if !file.compressed_size_known || file.compressed_size == 0 {
            Some("segment compressed size missing or empty"@)
        } else if file.compressed_size > segment_len(size, self.segment_index as int) {
            Some("segment compressed length exceeds canonical compressed range"@)
        } else if child_session_id != session::derived_segment_id(
            self.root_session_id,
            self.segment_index,
        ) {
            Some("segment child session id mismatch"@)
        } else {
            None
        }
    }
}

/// Every segment of a stream lies within it and is not empty.
pub proof fn lemma_segment_in_stream(size: int, index: int)
    requires
        0 < size,
        0 <= index < segments_of(size),
    ensures
        0 <= segment_start(index) < size,
        0 < segment_len(size, index) <= SEGMENT_RAW_BYTES,
        segment_start(index) + segment_len(size, index) <= size,
{
    let c = SEGMENT_RAW_BYTES as int;
    vstd::arithmetic::div_mod::lemma_fundamental_div_mod(size - 1, c);
    let q = (size - 1) / c;
    assert(index * c <= q * c) by (nonlinear_arith)
        requires
            index <= q,
            c > 0,
    ;
    assert(q * c == c * q) by (nonlinear_arith);
    assert(0 <= index * c) by (nonlinear_arith)
        requires
            0 <= index,
            c > 0,
    ;
}

/// The segments of a stream follow one another without gap or overlap: each
/// starts where the one before ends, and the last one ends the stream.
pub proof fn law_segments_partition_stream(size: int, index: int)
    requires
        0 < size,
        0 <= index < segments_of(size),
    ensures
        segment_start(0) == 0,
        index + 1 < segments_of(size) ==> segment_start(index) + segment_len(size, index)
            == segment_start(index + 1),
        index + 1 == segments_of(size) ==> segment_start(index) + segment_len(size, index) == size,
{
    let c = SEGMENT_RAW_BYTES as int;
    vstd::arithmetic::div_mod::lemma_fundamental_div_mod(size - 1, c);
    let q = (size - 1) / c;
    assert((index + 1) * c == index * c + c) by (nonlinear_arith);
    assert(q * c == c * q) by (nonlinear_arith);
    if index + 1 < segments_of(size) {
        lemma_segment_in_stream(size, index + 1);
    }
}

/// The lengths of the first `n` segments of a stream of `size` bytes, summed.
pub open spec fn summed_len(size: int, n: int) -> int
    decreases n,
{
    if n <= 0 {
        0
    } else {
        summed_len(size, n - 1) + segment_len(size, n - 1)
    }
}

proof fn lemma_summed_len(size: int, n: int)
    requires
        0 <= size,
        0 <= n <= segments_of(size),
    ensures
        summed_len(size, n) == if n < segments_of(size) {
            segment_start(n)
        } else {
            size
        },
    decreases n,
{
    if n > 0 {
        lemma_summed_len(size, n - 1);
        law_segments_partition_stream(size, n - 1);
    } else if size > 0 {
        law_segments_partition_stream(size, 0);
    }
}

/// A stream takes as few segments as hold it. Every one but the last is full,
/// the last one is not empty, there is nothing past it, and together they are
/// as long as the stream.
pub proof fn law_segment_lengths_fill_stream(size: int, index: int)
    requires
        0 <= size,
        0 <= index,
    ensures
        size <= segments_of(size) * SEGMENT_RAW_BYTES < size + SEGMENT_RAW_BYTES,
        index < segments_of(size) ==> 1 <= segment_len(size, index) <= SEGMENT_RAW_BYTES,
        index + 1 < segments_of(size) ==> segment_len(size, index) == SEGMENT_RAW_BYTES,
        index >= segments_of(size) ==> segment_len(size, index) == 0,
        summed_len(size, segments_of(size)) == size,
{
    let c = SEGMENT_RAW_BYTES as int;
    let q = (size - 1) / c;
    vstd::arithmetic::div_mod::lemma_fundamental_div_mod(size - 1, c);
    assert((q + 1) * c == c * q + c) by (nonlinear_arith);
    lemma_summed_len(size, segments_of(size));
    if index < segments_of(size) {
        lemma_segment_in_stream(size, index);
        law_segments_partition_stream(size, index);
        assert((index + 1) * c == index * c + c) by (nonlinear_arith);
    } else {
        assert(index * c >= (q + 1) * c) by (nonlinear_arith)
            requires
                index >= q + 1,
                c > 0,
        ;
    }
}

impl SegmentMeta {
    /// Validate segment coordinates before a host uses them for allocation or
    /// positioned writes.
    pub fn validate(&self, child_session_id: SessionIdRaw, file_meta: &FileMeta) -> (r: Result<
        (),
        &'static str,
    >)
        ensures
            r is Ok <==> self@.valid(child_session_id, file_meta@),
            match r {
                Ok(_) => self@.rejection(child_session_id, file_meta@) is None,
                Err(reason) => self@.rejection(child_session_id, file_meta@) == Some(reason@),
            },
    {
        if self.segment_count == 0 || self.segment_count > MAX_SEGMENT_COUNT {
            return Err("segment count out of range");
        }
        if self.segment_index >= self.segment_count {
            return Err("segment index out of range");
        }
        if self.root_original_size == 0 {
            return Err("root compressed size must be non-zero");
        }
        let expected_count: u64 = (self.root_original_size - 1) / SEGMENT_RAW_BYTES + 1;
        if expected_count > u32::MAX as u64 {
            return Err("segment count exceeds protocol budget");
        }
        if expected_count != self.segment_count as u64 {
            return Err("segment count inconsistent with compressed root size");
        }
        let expected_offset: u64 = self.segment_index as u64 * SEGMENT_RAW_BYTES;
        if self.original_offset != expected_offset {
            return Err("segment offset is not canonical");
        }
        proof {
            lemma_segment_in_stream(self.root_original_size as int, self.segment_index as int);
        }
        let remaining: u64 = self.root_original_size - expected_offset;
        let canonical_len: u64 = if remaining < SEGMENT_RAW_BYTES {
            remaining
        } else {
            SEGMENT_RAW_BYTES
        };
        if !file_meta.compressed_size_known || file_meta.compressed_size == 0 {
            return Err("segment compressed size missing or empty");
        }
        if file_meta.compressed_size > canonical_len {
            return Err("segment compressed length exceeds canonical compressed range");
        }
        if SessionId::derive_segment(self.root_session_id, self.segment_index).0
            != child_session_id {
            return Err("segment child session id mismatch");
        }
        Ok(())
    }
}

} // verus!
