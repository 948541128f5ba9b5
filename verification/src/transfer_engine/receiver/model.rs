//! What a receiver session does, as a function of its state and the frame.
use crate::qr_protocol::compress;
use crate::qr_protocol::frame::{SessionIdRaw, FLAG_DESCRIPTOR};
use crate::qr_protocol::FrameHeader;
use crate::raptorq_core::codec;
use crate::raptorq_core::decoder;
use crate::raptorq_core::decoder::DecoderView;
use crate::raptorq_core::meta;
use crate::raptorq_core::meta::MetaView;
use crate::raptorq_core::{MAX_OBJECT_BYTES, MAX_ORIGINAL_BYTES};
use crate::text;
use crate::transfer_engine::descriptor;
use crate::transfer_engine::descriptor::{DescriptorView, FileMetaView};
use crate::transfer_engine::progress::Progress;
use crate::transfer_engine::replay_cache;
use crate::transfer_engine::resume;
use crate::transfer_engine::resume::ResumeView;
use crate::transfer_engine::segment::SegmentView;
use vstd::prelude::*;

verus! {

/// Most symbols held before the descriptor while the symbol size is unknown.
pub const PRE_META_SYMBOL_CACHE_MAX: usize = 12_000;

/// Budget of the symbols held before the descriptor, in bytes.
pub const PRE_META_CACHE_BYTES_BUDGET: u64 = MAX_OBJECT_BYTES;

/// What a held symbol is charged at least, in bytes: what it takes besides its
/// own bytes.
pub const PRE_META_CACHE_BYTES_PER_ENTRY: usize = 64;

/// Most symbols held before the descriptor, whatever their size.
pub const PRE_META_CACHE_CEILING: usize = 524_288;

/// What one held symbol of `symbol_size` bytes is charged.
pub open spec fn entry_charge(symbol_size: u32) -> nat {
    if symbol_size < PRE_META_CACHE_BYTES_PER_ENTRY {
        PRE_META_CACHE_BYTES_PER_ENTRY as nat
    } else {
        symbol_size as nat
    }
}

/// Most symbols of `symbol_size` bytes held before the descriptor: as many as
/// the byte budget pays for, the last one in part.
pub open spec fn cache_max(symbol_size: u32) -> nat {
    if symbol_size == 0 {
        PRE_META_SYMBOL_CACHE_MAX as nat
    } else {
        codec::ceil_div(PRE_META_CACHE_BYTES_BUDGET as nat, entry_charge(symbol_size))
    }
}

/// The ids of `set` that are below `k`: the source symbols of a block.
pub open spec fn source_ids(set: Set<u32>, k: u32) -> Set<u32> {
    set.filter(|esi: u32| esi < k)
}

/// Source symbols that the first `n` blocks are recovered to: all of a
/// reconstructed block, and those received of any other.
pub open spec fn recovered_symbols(d: DecoderView, received: Seq<Set<u32>>, n: int) -> nat
    decreases n,
{
    if n <= 0 {
        0
    } else {
        let k = d.meta.blocks[n - 1].num_source_symbols;
        recovered_symbols(d, received, n - 1) + if d.blocks[n - 1].decoded is Some {
            k as nat
        } else {
            source_ids(received[n - 1], k).len()
        }
    }
}

/// What a receiver session stands for.
#[verifier::ext_equal]
pub struct ReceiverView {
    pub session_id: SessionIdRaw,
    /// The decoder and the object's metadata, once they are known.
    pub decoder: Option<DecoderView>,
    /// Whether a descriptor was accepted.
    pub descriptor_seen: bool,
    pub file: FileMetaView,
    pub segment: Option<SegmentView>,
    /// Per block, the ids of the symbols received.
    pub received: Seq<Set<u32>>,
    /// Symbols that arrived before the metadata.
    pub cache: Seq<(u32, u32, Seq<u8>)>,
    pub frames_seen: u64,
    pub frames_duplicate: u64,
    pub frames_corrupt: u64,
    /// Frames of another session since the last one of this session.
    pub session_mismatch_streak: u32,
    /// Bytes per symbol: the object's, or what the last frame said, or zero.
    pub symbol_size: u32,
    /// Why the last attempt to assemble failed.
    pub last_assemble_error: Option<Seq<char>>,
}

/// Outcome of assembling what was received.
pub enum Assembly {
    /// Not every block is reconstructed.
    Incomplete,
    /// The recovered bytes.
    Done(Seq<u8>),
    /// The recovered payload is not what the descriptor says, or a size in the
    /// descriptor does not fit this machine. The reason is kept.
    Failed(Seq<char>),
}

/// The metadata of a file is one that a receiver takes on.
pub open spec fn file_acceptable(
    file: FileMetaView,
    meta: MetaView,
    segment: Option<SegmentView>,
) -> bool {
    &&& compress::known_tag(file.compression)
    &&& segment is None ==> file.original_size <= MAX_ORIGINAL_BYTES
    &&& file.compressed_size_known ==> file.compressed_size <= meta.transfer_length
    &&& segment is None && file.compression != compress::COMPRESSION_NONE ==> file.original_size
        != 0
}

/// A descriptor is one that a receiver takes on: its metadata is valid and
/// agrees with the frame around it.
pub open spec fn descriptor_acceptable(header: FrameHeader, info: DescriptorView) -> bool {
    &&& info.meta.valid()
    &&& header.symbol_size == info.meta.symbol_size
    &&& header.total_blocks == info.meta.blocks.len()
    &&& header.total_symbols == meta::total_symbols(info.meta.blocks)
    &&& file_acceptable(info.file, info.meta, info.segment)
    &&& info.segment matches Some(s) ==> s.valid(header.session_id, info.file)
}

impl ReceiverView {
    /// A session that knows nothing of the object.
    pub open spec fn pending(session_id: SessionIdRaw) -> ReceiverView {
        ReceiverView {
            session_id,
            decoder: None,
            descriptor_seen: false,
            file: FileMetaView::unknown(),
            segment: None,
            received: Seq::empty(),
            cache: Seq::empty(),
            frames_seen: 0,
            frames_duplicate: 0,
            frames_corrupt: 0,
            session_mismatch_streak: 0,
            symbol_size: 0,
            last_assemble_error: None,
        }
    }

    /// The session with a fresh decoder for `meta`, and nothing received.
    pub open spec fn with_decoder(self, meta: MetaView) -> ReceiverView {
        ReceiverView {
            decoder: Some(DecoderView::fresh(meta)),
            received: Seq::new(meta.blocks.len(), |i: int| Set::<u32>::empty()),
            cache: Seq::empty(),
            symbol_size: meta.symbol_size,
            ..self
        }
    }

    /// A session that knows the object's metadata.
    pub open spec fn confirmed(session_id: SessionIdRaw, meta: MetaView) -> ReceiverView {
        ReceiverView::pending(session_id).with_decoder(meta)
    }

    /// The object's metadata, once it is known.
    pub open spec fn meta(self) -> Option<MetaView> {
        match self.decoder {
            Some(d) => Some(d.meta),
            None => None,
        }
    }

    /// Every block is reconstructed.
    pub open spec fn complete(self) -> bool {
        self.decoder matches Some(d) && d.complete()
    }

    /// Distinct symbols received, or held while there is no metadata.
    pub open spec fn received_symbols(self) -> nat {
        if self.decoder is Some {
            resume::total_ids(self.received)
        } else {
            self.cache.len()
        }
    }

    /// Source symbols recovered.
    pub open spec fn decoded_symbols(self) -> nat {
        match self.decoder {
            Some(d) => recovered_symbols(d, self.received, d.blocks.len() as int),
            None => 0,
        }
    }

    /// Blocks reconstructed.
    pub open spec fn decoded_blocks(self) -> nat {
        match self.decoder {
            Some(d) => decoder::decoded_count(d.blocks),
            None => 0,
        }
    }

    /// Source symbols of the object.
    pub open spec fn total_symbols(self) -> nat {
        match self.decoder {
            Some(d) => meta::total_symbols(d.meta.blocks),
            None => 0,
        }
    }

    /// Blocks of the object.
    pub open spec fn total_blocks(self) -> nat {
        match self.decoder {
            Some(d) => d.meta.blocks.len(),
            None => 0,
        }
    }

    /// How far the session is.
    pub open spec fn progress(self) -> Progress {
        Progress {
            decoded_symbols: self.decoded_symbols() as u32,
            total_symbols: self.total_symbols() as u32,
            symbol_size: self.symbol_size,
            received_symbols: self.received_symbols() as u32,
            frames_seen: self.frames_seen,
            frames_duplicate: self.frames_duplicate,
            frames_corrupt: self.frames_corrupt,
            decoded_blocks: self.decoded_blocks() as u32,
            total_blocks: self.total_blocks() as u32,
            meta_confirmed: self.decoder is Some,
            session_mismatch_streak: self.session_mismatch_streak,
        }
    }

    /// One more frame was discarded.
    pub open spec fn one_corrupt(self) -> ReceiverView {
        ReceiverView { frames_corrupt: (self.frames_corrupt + 1) as u64, ..self }
    }

    /// One more frame was a duplicate.
    pub open spec fn one_duplicate(self) -> ReceiverView {
        ReceiverView { frames_duplicate: (self.frames_duplicate + 1) as u64, ..self }
    }

    /// The symbol was received and fed to the decoder.
    pub open spec fn took(self, sbn: u32, esi: u32, data: Seq<u8>) -> ReceiverView {
        ReceiverView {
            decoder: Some(self.decoder->0.fed(sbn, esi, data)),
            received: self.received.update(
                sbn as int,
                self.received[sbn as int].insert(esi),
            ),
            ..self
        }
    }

    /// A stored symbol was replayed: it is discarded where its coordinates or
    /// its size are not the object's, and ignored where its id was received.
    pub open spec fn replayed_one(self, s: (u32, u32, Seq<u8>)) -> ReceiverView {
        if s.0 >= self.received.len() || s.1 >= codec::ESI_LIMIT || s.2.len()
            != self.symbol_size {
            self.one_corrupt()
        } else if self.received[s.0 as int].contains(s.1) {
            self
        } else {
            self.took(s.0, s.1, s.2)
        }
    }

    /// Stored symbols were replayed, in order.
    pub open spec fn replayed(self, symbols: Seq<(u32, u32, Seq<u8>)>) -> ReceiverView
        decreases symbols.len(),
    {
        if symbols.len() == 0 {
            self
        } else {
            self.replayed(symbols.drop_last()).replayed_one(symbols.last())
        }
    }

    /// The metadata became known: what was held is replayed.
    pub open spec fn with_meta(self, meta: MetaView) -> ReceiverView {
        self.with_decoder(meta).replayed(self.cache)
    }

    /// A descriptor frame of the session came in.
    pub open spec fn after_descriptor(self, header: FrameHeader, payload: Seq<u8>) -> ReceiverView {
        match descriptor::parsed(payload) {
            None => self.one_corrupt(),
            Some(info) => if !descriptor_acceptable(header, info) {
                self.one_corrupt()
            } else if self.descriptor_seen {
                if self.meta() == Some(info.meta) && self.file == info.file && self.segment
                    == info.segment {
                    self
                } else {
                    self.one_corrupt()
                }
            } else if self.decoder is Some && self.meta() != Some(info.meta) {
                self.one_corrupt()
            } else {
                let v = if self.decoder is None {
                    self.with_meta(info.meta)
                } else {
                    self
                };
                ReceiverView { descriptor_seen: true, file: info.file, segment: info.segment, ..v }
            },
        }
    }

    /// A data frame of the session came in before the metadata: the symbol is
    /// held, unless it is already, or there are too many.
    pub open spec fn after_early_symbol(
        self,
        header: FrameHeader,
        payload: Seq<u8>,
    ) -> ReceiverView {
        let v = ReceiverView { symbol_size: header.symbol_size, ..self };
        if replay_cache::holds(self.cache, header.sbn, header.esi) {
            v.one_duplicate()
        } else if self.cache.len() >= cache_max(header.symbol_size) {
            v.one_corrupt()
        } else {
            ReceiverView { cache: self.cache.push((header.sbn, header.esi, payload)), ..v }
        }
    }

    /// A data frame of the session came in: the symbol is discarded where its
    /// coordinates or its size are not the object's, and ignored where the
    /// object is complete or the id was received.
    pub open spec fn after_symbol(self, header: FrameHeader, payload: Seq<u8>) -> ReceiverView {
        if header.sbn >= self.received.len() || header.esi >= codec::ESI_LIMIT
            || payload.len() != self.symbol_size {
            self.one_corrupt()
        } else if self.complete() || self.received[header.sbn as int].contains(header.esi) {
            self.one_duplicate()
        } else {
            self.took(header.sbn, header.esi, payload)
        }
    }

    /// A frame came in.
    pub open spec fn after_frame(self, header: FrameHeader, payload: Seq<u8>) -> ReceiverView {
        if header.session_id != self.session_id {
            ReceiverView {
                session_mismatch_streak: (self.session_mismatch_streak + 1) as u32,
                ..self
            }
        } else {
            let v = ReceiverView {
                session_mismatch_streak: 0,
                frames_seen: (self.frames_seen + 1) as u64,
                ..self
            };
            if header.flags & FLAG_DESCRIPTOR != 0 {
                v.after_descriptor(header, payload)
            } else if self.decoder is None {
                v.after_early_symbol(header, payload)
            } else {
                v.after_symbol(header, payload)
            }
        }
    }

    /// The payload as far as the descriptor says it goes.
    pub open spec fn trimmed(self) -> Seq<u8> {
        let raw = self.decoder->0.assembled();
        if self.file.compressed_size_known {
            raw.take(self.file.compressed_size as int)
        } else {
            raw
        }
    }

    /// Most bytes that the payload may decompress to.
    pub open spec fn output_cap(self) -> usize {
        if self.file.original_size > 0 {
            self.file.original_size as usize
        } else {
            MAX_ORIGINAL_BYTES as usize
        }
    }

    /// What the recovered payload decompresses to.
    pub open spec fn unpacked(self) -> Assembly {
        match compress::limited(self.trimmed(), self.file.compression, self.output_cap()) {
            Ok(out) => if self.file.original_size > 0 && out.len() != self.file.original_size {
                Assembly::Failed(
                    "decompressed size mismatch: expected "@ + text::decimal(
                        self.file.original_size as nat,
                    ) + ", got "@ + text::decimal(out.len()),
                )
            } else {
                Assembly::Done(out)
            },
            Err(message) => Assembly::Failed("compression error: "@ + message),
        }
    }

    /// What comes of assembling the file.
    pub open spec fn assembly(self) -> Assembly {
        let raw = self.decoder->0.assembled();
        if !self.complete() {
            Assembly::Incomplete
        } else if self.file.compressed_size_known && self.file.compressed_size > usize::MAX {
            Assembly::Failed("descriptor compressed_size does not fit this platform"@)
        } else if self.file.compressed_size_known && self.file.compressed_size > raw.len() {
            Assembly::Failed(
                "descriptor compressed_size ("@ + text::decimal(self.file.compressed_size as nat)
                    + ") exceeds recovered payload ("@ + text::decimal(raw.len()) + ")"@,
            )
        } else if self.file.compression == compress::COMPRESSION_NONE {
            Assembly::Done(self.trimmed())
        } else if self.file.original_size > usize::MAX {
            Assembly::Failed("descriptor original_size does not fit this platform"@)
        } else if self.file.original_size > MAX_ORIGINAL_BYTES {
            Assembly::Failed("descriptor original_size exceeds receiver limit"@)
        } else {
            self.unpacked()
        }
    }

    /// The session after it was asked for the file.
    pub open spec fn after_assembly(self) -> ReceiverView {
        ReceiverView {
            last_assemble_error: match self.assembly() {
                Assembly::Failed(message) => Some(message),
                _ => None,
            },
            ..self
        }
    }

    /// The state that can be persisted, once there is metadata: the symbols
    /// whose bytes are held.
    pub open spec fn saved(self) -> Option<ResumeView> {
        match self.decoder {
            Some(d) => Some(
                ResumeView {
                    session_id: self.session_id,
                    meta: d.meta,
                    received: Seq::new(
                        d.meta.blocks.len(),
                        |b: int| held_ids(self.cache, b),
                    ),
                    symbols: self.cache,
                },
            ),
            None => None,
        }
    }

    /// A session restored from a state.
    pub open spec fn restored(state: ResumeView) -> ReceiverView {
        ReceiverView::confirmed(state.session_id, state.meta).replayed(state.symbols)
    }

    /// Every id received fits in 24 bits.
    pub open spec fn ids_small(self) -> bool {
        forall|b: int|
            0 <= b < self.received.len() ==> resume::small_ids(#[trigger] self.received[b])
    }

    /// What every operation keeps.
    pub open spec fn wf(self) -> bool {
        &&& match self.decoder {
            Some(d) => {
                &&& d.sound()
                &&& self.received.len() == d.blocks.len()
                &&& self.symbol_size == d.meta.symbol_size
                &&& self.cache.len() == 0
                &&& self.descriptor_seen ==> {
                    &&& file_acceptable(self.file, d.meta, self.segment)
                    &&& self.segment matches Some(s) ==> s.valid(self.session_id, self.file)
                }
            },
            None => {
                &&& self.received.len() == 0
                &&& !self.descriptor_seen
                &&& self.cache.len() <= PRE_META_CACHE_CEILING
            },
        }
        &&& self.ids_small()
        &&& replay_cache::distinct(self.cache)
        &&& self.frames_corrupt + self.frames_duplicate + self.cache.len() <= self.frames_seen
    }

    /// The counter that a frame of the session `session_id` goes to has room for
    /// it.
    pub open spec fn can_count(self, session_id: SessionIdRaw) -> bool {
        if session_id == self.session_id {
            self.frames_seen < u64::MAX
        } else {
            self.session_mismatch_streak < u32::MAX
        }
    }
}

/// The ids of the symbols of block `b` in `symbols`.
pub open spec fn held_ids(symbols: Seq<(u32, u32, Seq<u8>)>, b: int) -> Set<u32> {
    Set::new(|esi: u32| exists|i: int|
        0 <= i < symbols.len() && (#[trigger] symbols[i]).0 == b && symbols[i].1 == esi)
}

/// The ids below `k` are at most `k`.
pub proof fn lemma_ids_below(set: Set<u32>, k: u32)
    requires
        forall|esi: u32| #[trigger] set.contains(esi) ==> esi < k,
    ensures
        set.finite(),
        set.len() <= k,
{
    resume::lemma_id_set_len(set);
    let range = vstd::set_lib::set_int_range(0, k as int);
    vstd::set_lib::lemma_int_range(0, k as int);
    let ints = set.map(|id: u32| id as int);
    assert(ints.subset_of(range));
    vstd::set_lib::lemma_len_subset(ints, range);
    let back = ints.map(|i: int| i as u32);
    assert(back =~= set) by {
        assert forall|id: u32| set.contains(id) implies #[trigger] back.contains(id) by {
            assert(ints.contains(id as int));
            assert((id as int) as u32 == id);
        }
        assert forall|id: u32| #[trigger] back.contains(id) implies set.contains(id) by {
            let i = choose|i: int| ints.contains(i) && i as u32 == id;
            let orig = choose|x: u32| set.contains(x) && x as int == i;
            assert(orig == id);
        }
    }
    vstd::set_lib::lemma_map_size_bound(ints, back, |i: int| i as u32);
}

/// One more id is one more source symbol exactly where it is one.
pub proof fn lemma_source_ids_insert(set: Set<u32>, k: u32, esi: u32)
    requires
        !set.contains(esi),
    ensures
        source_ids(set.insert(esi), k).len() == source_ids(set, k).len() + if esi < k {
            1nat
        } else {
            0
        },
        source_ids(set, k).len() <= k,
        source_ids(set.insert(esi), k).len() <= k,
{
    lemma_ids_below(source_ids(set, k), k);
    lemma_ids_below(source_ids(set.insert(esi), k), k);
    if esi < k {
        assert(source_ids(set.insert(esi), k) =~= source_ids(set, k).insert(esi));
    } else {
        assert(source_ids(set.insert(esi), k) =~= source_ids(set, k));
    }
}

/// The total is at most 2^24 per block.
pub proof fn lemma_total_ids_bound(sets: Seq<Set<u32>>)
    requires
        forall|b: int| 0 <= b < sets.len() ==> resume::small_ids(#[trigger] sets[b]),
    ensures
        resume::total_ids(sets) <= sets.len() * 0x100_0000,
    decreases sets.len(),
{
    if sets.len() > 0 {
        let rest = sets.drop_last();
        assert forall|b: int| 0 <= b < rest.len() implies resume::small_ids(
            #[trigger] rest[b],
        ) by {
            assert(rest[b] == sets[b]);
        }
        lemma_total_ids_bound(rest);
        assert(resume::small_ids(sets[sets.len() - 1]));
        lemma_ids_below(sets.last(), codec::ESI_LIMIT);
    }
}

/// One more id in one set is one more in total.
pub proof fn lemma_total_ids_insert(sets: Seq<Set<u32>>, b: int, esi: u32)
    requires
        0 <= b < sets.len(),
        !sets[b].contains(esi),
    ensures
        resume::total_ids(sets.update(b, sets[b].insert(esi))) == resume::total_ids(sets) + 1,
    decreases sets.len(),
{
    let after = sets.update(b, sets[b].insert(esi));
    resume::lemma_id_set_len(sets[b]);
    if b == sets.len() - 1 {
        assert(after.drop_last() =~= sets.drop_last());
    } else {
        assert(after.drop_last() =~= sets.drop_last().update(b, sets[b].insert(esi)));
        lemma_total_ids_insert(sets.drop_last(), b, esi);
    }
}

/// Empty sets have no ids.
pub proof fn lemma_total_ids_empty(sets: Seq<Set<u32>>)
    requires
        forall|b: int| 0 <= b < sets.len() ==> (#[trigger] sets[b]) == Set::<u32>::empty(),
    ensures
        resume::total_ids(sets) == 0,
    decreases sets.len(),
{
    if sets.len() > 0 {
        let rest = sets.drop_last();
        assert forall|b: int| 0 <= b < rest.len() implies (#[trigger] rest[b]) == Set::<
            u32,
        >::empty() by {
            assert(rest[b] == sets[b]);
        }
        lemma_total_ids_empty(rest);
        assert(sets[sets.len() - 1] == Set::<u32>::empty());
    }
}

/// The symbols recovered of the first `n` blocks are at most those they have.
pub proof fn lemma_recovered_bound(d: DecoderView, received: Seq<Set<u32>>, n: int)
    requires
        0 <= n <= d.meta.blocks.len(),
    ensures
        recovered_symbols(d, received, n) <= meta::total_symbols(d.meta.blocks.take(n)),
    decreases n,
{
    if n > 0 {
        lemma_recovered_bound(d, received, n - 1);
        let k = d.meta.blocks[n - 1].num_source_symbols;
        assert(d.meta.blocks.take(n).drop_last() =~= d.meta.blocks.take(n - 1));
        assert(d.meta.blocks.take(n).last() == d.meta.blocks[n - 1]);
        lemma_ids_below(source_ids(received[n - 1], k), k);
    } else {
        assert(d.meta.blocks.take(0).len() == 0);
    }
}

/// The cache never outgrows its ceiling.
pub proof fn lemma_cache_max(symbol_size: u32)
    ensures
        cache_max(symbol_size) <= PRE_META_CACHE_CEILING,
{
    let c = entry_charge(symbol_size) as int;
    let b = PRE_META_CACHE_BYTES_BUDGET as int;
    if symbol_size != 0 {
        assert((b + c - 1) / c <= 524_288) by (nonlinear_arith)
            requires
                c >= 64,
                b == 33_554_432,
        ;
    }
}

/// Replaying stored symbols changes the decoder's blocks, the ids received and
/// the count of discarded frames only.
pub proof fn lemma_replayed_keeps(v: ReceiverView, symbols: Seq<(u32, u32, Seq<u8>)>)
    requires
        v.decoder is Some,
    ensures
        ({
            let after = v.replayed(symbols);
            &&& after.meta() == v.meta()
            &&& after.received.len() == v.received.len()
            &&& after == ReceiverView {
                decoder: after.decoder,
                received: after.received,
                frames_corrupt: after.frames_corrupt,
                ..v
            }
        }),
    decreases symbols.len(),
{
    if symbols.len() > 0 {
        lemma_replayed_keeps(v, symbols.drop_last());
    }
}

/// Once the metadata is known it stays what it is, whatever comes in.
pub proof fn law_metadata_is_final(v: ReceiverView, header: FrameHeader, payload: Seq<u8>)
    requires
        v.decoder is Some,
    ensures
        v.after_frame(header, payload).meta() == v.meta(),
{
}

/// The first accepted descriptor is final: neither the object's nor the file's
/// nor the segment's metadata changes afterwards, whatever comes in.
pub proof fn law_first_descriptor_is_final(v: ReceiverView, header: FrameHeader, payload: Seq<u8>)
    requires
        v.wf(),
        v.descriptor_seen,
    ensures
        ({
            let after = v.after_frame(header, payload);
            &&& after.descriptor_seen
            &&& after.meta() == v.meta()
            &&& after.file == v.file
            &&& after.segment == v.segment
        }),
{
}

/// Once a descriptor was accepted, a further one of the session does no more than
/// count: as a frame seen, and as discarded unless it says again what the first
/// one said.
pub proof fn law_later_descriptors_only_count(
    v: ReceiverView,
    header: FrameHeader,
    payload: Seq<u8>,
)
    requires
        v.wf(),
        v.descriptor_seen,
        header.session_id == v.session_id,
        header.flags & FLAG_DESCRIPTOR != 0,
    ensures
        ({
            let after = v.after_frame(header, payload);
            let again = descriptor::parsed(payload) matches Some(info) && {
                &&& v.meta() == Some(info.meta)
                &&& v.file == info.file
                &&& v.segment == info.segment
                &&& header.symbol_size == info.meta.symbol_size
                &&& header.total_blocks == info.meta.blocks.len()
                &&& header.total_symbols == meta::total_symbols(info.meta.blocks)
            };
            &&& after == (ReceiverView {
                session_mismatch_streak: 0,
                frames_seen: after.frames_seen,
                frames_corrupt: after.frames_corrupt,
                ..v
            })
            &&& after.complete() == v.complete()
            &&& after.received_symbols() == v.received_symbols()
            &&& after.total_symbols() == v.total_symbols()
            &&& after.total_blocks() == v.total_blocks()
            &&& again ==> after.frames_corrupt == v.frames_corrupt
            &&& v.can_count(header.session_id) ==> {
                &&& after.frames_seen == v.frames_seen + 1
                &&& !again ==> after.frames_corrupt == v.frames_corrupt + 1
            }
        }),
{
}

/// A data frame with a symbol of the object counts once: as one symbol more, or
/// as a duplicate where the symbol was received before or the object is
/// complete. It is never discarded, and a complete object stays complete.
pub proof fn law_symbol_counts_once(v: ReceiverView, header: FrameHeader, payload: Seq<u8>)
    requires
        v.wf(),
        v.decoder is Some,
        header.session_id == v.session_id,
        header.flags & FLAG_DESCRIPTOR == 0,
        header.sbn < v.total_blocks(),
        header.esi < codec::ESI_LIMIT,
        payload.len() == v.symbol_size,
    ensures
        ({
            let after = v.after_frame(header, payload);
            let known = v.complete() || v.received[header.sbn as int].contains(header.esi);
            &&& after.frames_corrupt == v.frames_corrupt
            &&& after.received[header.sbn as int].contains(header.esi) || v.complete()
            &&& known ==> after.received_symbols() == v.received_symbols()
            &&& !known ==> after.received_symbols() == v.received_symbols() + 1
            &&& !known ==> after.frames_duplicate == v.frames_duplicate
            &&& v.complete() ==> after.complete()
            &&& v.can_count(header.session_id) ==> {
                &&& after.frames_seen == v.frames_seen + 1
                &&& known ==> after.frames_duplicate == v.frames_duplicate + 1
            }
        }),
{
    let b = header.sbn as int;
    if !v.complete() && !v.received[b].contains(header.esi) {
        lemma_total_ids_insert(v.received, b, header.esi);
    }
}

/// Once the object is complete, no frame changes what was received or decoded.
pub proof fn law_complete_is_final(v: ReceiverView, header: FrameHeader, payload: Seq<u8>)
    requires
        v.wf(),
        v.complete(),
    ensures
        ({
            let after = v.after_frame(header, payload);
            &&& after.complete()
            &&& after.decoder == v.decoder
            &&& after.received == v.received
            &&& after.received_symbols() == v.received_symbols()
            &&& after.cache == v.cache
        }),
{
}

/// A frame of another session changes nothing but the count of such frames.
pub proof fn law_other_session_ignored(v: ReceiverView, header: FrameHeader, payload: Seq<u8>)
    requires
        header.session_id != v.session_id,
    ensures
        v.after_frame(header, payload) == (ReceiverView {
            session_mismatch_streak: (v.session_mismatch_streak + 1) as u32,
            ..v
        }),
{
}

/// A frame that comes in twice does no more than count the second time.
pub proof fn law_repeated_frame_only_counts(v: ReceiverView, header: FrameHeader, payload: Seq<u8>)
    requires
        v.wf(),
    ensures
        ({
            let once = v.after_frame(header, payload);
            let twice = once.after_frame(header, payload);
            twice == ReceiverView {
                frames_seen: twice.frames_seen,
                frames_duplicate: twice.frames_duplicate,
                frames_corrupt: twice.frames_corrupt,
                session_mismatch_streak: twice.session_mismatch_streak,
                ..once
            }
        }),
{
    let once = v.after_frame(header, payload);
    if header.session_id == v.session_id {
        if header.flags & FLAG_DESCRIPTOR != 0 {
            let counted = ReceiverView {
                session_mismatch_streak: 0,
                frames_seen: (v.frames_seen + 1) as u64,
                ..v
            };
            if let Some(info) = descriptor::parsed(payload) {
                if v.decoder is None {
                    lemma_replayed_keeps(counted.with_decoder(info.meta), v.cache);
                }
            }
        } else if v.decoder is None {
            if once.cache.len() > v.cache.len() {
                let i = v.cache.len() as int;
                assert(once.cache[i].0 == header.sbn && once.cache[i].1 == header.esi);
                assert(replay_cache::holds(once.cache, header.sbn, header.esi));
            }
        }
    }
}

/// The symbols held before the descriptor stay within the byte budget, but for
/// the last one, at what each is charged.
pub proof fn law_cache_within_budget(symbol_size: u32)
    requires
        symbol_size > 0,
    ensures
        (cache_max(symbol_size) - 1) * entry_charge(symbol_size) < PRE_META_CACHE_BYTES_BUDGET,
{
    let c = entry_charge(symbol_size) as int;
    let b = PRE_META_CACHE_BYTES_BUDGET as int;
    let q = (b + c - 1) / c;
    vstd::arithmetic::div_mod::lemma_fundamental_div_mod(b + c - 1, c);
    vstd::arithmetic::div_mod::lemma_div_pos_is_pos(b + c - 1, c);
    assert((q - 1) * c < b) by (nonlinear_arith)
        requires
            c * q <= b + c - 1,
            c > 0,
    ;
}

/// What a session saves once it has metadata holds no symbols, is a state that
/// can be restored, and restores to a session that knows the metadata and waits
/// for symbols.
pub proof fn law_saved_state_restores(v: ReceiverView)
    requires
        v.wf(),
        v.decoder is Some,
    ensures
        v.saved() matches Some(state) && {
            &&& state.symbols.len() == 0
            &&& state.valid()
            &&& ReceiverView::restored(state) == ReceiverView::confirmed(
                v.session_id,
                v.decoder->0.meta,
            )
        },
{
    let state = v.saved()->0;
    assert forall|b: int| 0 <= b < state.received.len() implies (#[trigger] state.received[b])
        == Set::<u32>::empty() by {
        assert(state.received[b] =~= Set::<u32>::empty());
    }
    lemma_total_ids_empty(state.received);
    assert(state.received_ok());
    assert(0 <= state.meta.symbol_size * state.meta.blocks.len()) by (nonlinear_arith);
    assert(state.symbols.len() * state.meta.symbol_size == 0) by (nonlinear_arith)
        requires
            state.symbols.len() == 0,
    ;
}

} // verus!
