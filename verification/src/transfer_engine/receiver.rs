//! Receiver sessions.
//!
//! A session starts without the object's metadata. Until a descriptor brings
//! it, data frames are only held. The first valid descriptor builds the decoder,
//! replays what was held, and is final: a later one that says otherwise is
//! discarded.
use crate::qr_protocol::compress;
use crate::qr_protocol::frame::{SessionIdRaw, FLAG_DESCRIPTOR};
use crate::qr_protocol::{Frame, FrameHeader};
use crate::raptorq_core::codec;
use crate::raptorq_core::decoder;
use crate::raptorq_core::decoder::DecoderView;
use crate::raptorq_core::meta::MetaView;
use crate::raptorq_core::{Decoder, ObjectMeta, SourceBlockMeta, Symbol, MAX_ORIGINAL_BYTES};
use crate::text;
use crate::transfer_engine::assembler;
use crate::transfer_engine::descriptor;
use crate::transfer_engine::descriptor::{DescriptorInfo, FileMeta};
use crate::transfer_engine::progress::Progress;
use crate::transfer_engine::replay_cache::ReplayCache;
use crate::transfer_engine::resume;
use crate::transfer_engine::resume::ResumeState;
use crate::transfer_engine::segment::SegmentMeta;
use crate::transfer_engine::Error;
use crate::wire;
use model::{
    Assembly, ReceiverView, PRE_META_CACHE_BYTES_BUDGET, PRE_META_CACHE_BYTES_PER_ENTRY,
    PRE_META_SYMBOL_CACHE_MAX,
};
use std::collections::HashSet;
use vstd::prelude::*;

pub mod laws;
pub mod model;

verus! {

broadcast use vstd::std_specs::hash::group_hash_axioms;

/// Most symbols of `pending_symbol_size` bytes that are held before the
/// descriptor.
///
/// Each is charged its own size, or a fixed overhead where that is larger, so
/// that neither tiny nor large symbols exceed the byte budget.
pub fn pre_meta_cache_max(pending_symbol_size: u32) -> (n: usize)
    ensures
        n == model::cache_max(pending_symbol_size),
{
    if pending_symbol_size == 0 {
        return PRE_META_SYMBOL_CACHE_MAX;
    }
    let budget_bytes: u64 = PRE_META_CACHE_BYTES_BUDGET;
    let per_entry: u64 = if (pending_symbol_size as usize) < PRE_META_CACHE_BYTES_PER_ENTRY {
        PRE_META_CACHE_BYTES_PER_ENTRY as u64
    } else {
        pending_symbol_size as u64
    };
    proof {
        model::lemma_cache_max(pending_symbol_size);
    }
    ((budget_bytes + per_entry - 1) / per_entry) as usize
}

/// What an optional decoder stands for.
pub open spec fn decoder_view(decoder: Option<Decoder>) -> Option<DecoderView> {
    match decoder {
        Some(d) => Some(d@),
        None => None,
    }
}

/// What an optional message stands for.
pub open spec fn message_view(message: Option<String>) -> Option<Seq<char>> {
    match message {
        Some(m) => Some(m@),
        None => None,
    }
}

/// A receiver session.
pub struct ReceiverSession {
    session_id: SessionIdRaw,
    /// The decoder with the object's metadata, once that is known.
    decoder: Option<Decoder>,
    /// Whether a descriptor was accepted. From then on the metadata is final.
    descriptor_seen: bool,
    file_meta: FileMeta,
    segment_meta: Option<SegmentMeta>,
    /// Per block, the ids of the symbols received.
    received: Vec<HashSet<u32>>,
    /// Per block, how many source symbols were received.
    source_recv: Vec<u32>,
    /// Symbols that arrived before the metadata.
    symbol_cache: ReplayCache,
    progress: Progress,
    /// Bytes per symbol: the object's, or what the last frame said.
    pending_symbol_size: u32,
    last_assemble_error: Option<String>,
}

impl View for ReceiverSession {
    type V = ReceiverView;

    closed spec fn view(&self) -> ReceiverView {
        ReceiverView {
            session_id: self.session_id,
            decoder: decoder_view(self.decoder),
            descriptor_seen: self.descriptor_seen,
            file: self.file_meta@,
            segment: descriptor::segment_view(self.segment_meta),
            received: self.received@.map_values(|s: HashSet<u32>| s@),
            cache: self.symbol_cache@,
            frames_seen: self.progress.frames_seen,
            frames_duplicate: self.progress.frames_duplicate,
            frames_corrupt: self.progress.frames_corrupt,
            session_mismatch_streak: self.progress.session_mismatch_streak,
            symbol_size: self.pending_symbol_size,
            last_assemble_error: message_view(self.last_assemble_error),
        }
    }
}

impl ReceiverSession {
    /// The parts fit together, and the counts of what was received are right.
    pub closed spec fn inner_core(self) -> bool {
        &&& self.decoder matches Some(d) ==> d.wf()
        &&& self.symbol_cache.wf()
        &&& self.source_recv@.len() == self.received@.len()
        &&& self.decoder matches Some(d) ==> forall|b: int|
            0 <= b < self.source_recv@.len() ==> (#[trigger] self.source_recv@[b])
                == model::source_ids(
                self@.received[b],
                d@.meta.blocks[b].num_source_symbols,
            ).len()
        &&& self.progress.received_symbols == self@.received_symbols()
        &&& self.progress.total_symbols == self@.total_symbols()
        &&& self.progress.total_blocks == self@.total_blocks()
    }

    /// Besides, the counts of what is recovered are right.
    pub closed spec fn inner_wf(self) -> bool {
        &&& self.inner_core()
        &&& self.progress.decoded_symbols == self@.decoded_symbols()
        &&& self.progress.decoded_blocks == self@.decoded_blocks()
    }

    /// The session is in a state that frames can bring about.
    pub open spec fn wf(self) -> bool {
        self.inner_wf() && self@.wf()
    }

    /// A session without metadata: data frames are held until the first
    /// descriptor arrives.
    pub fn new_pending(session_id: SessionIdRaw) -> (session: Self)
        ensures
            session.wf(),
            session@ == ReceiverView::pending(session_id),
    {
        let session = ReceiverSession {
            session_id,
            decoder: None,
            descriptor_seen: false,
            file_meta: FileMeta::default(),
            segment_meta: None,
            received: Vec::new(),
            source_recv: Vec::new(),
            symbol_cache: ReplayCache::new(),
            progress: Progress::default(),
            pending_symbol_size: 0,
            last_assemble_error: None,
        };
        assert(session@ =~= ReceiverView::pending(session_id));
        session
    }

    /// A session for the object that the first observed frame belongs to.
    pub fn from_first_frame(frame: &Frame) -> (session: Self)
        ensures
            session.wf(),
            session@ == ReceiverView::pending(frame.header.session_id),
    {
        ReceiverSession::new_pending(frame.header.session_id)
    }

    /// A session with known metadata, which must be valid.
    pub fn new(session_id: SessionIdRaw, meta: ObjectMeta) -> (r: Result<Self, Error>)
        ensures
            is_confirmed_session(r, session_id, meta),
    {
        ReceiverSession::new_confirmed(session_id, meta)
    }

    /// A session with known metadata, which must be valid: data frames are
    /// decoded at once.
    pub fn new_confirmed(session_id: SessionIdRaw, meta: ObjectMeta) -> (r: Result<Self, Error>)
        ensures
            is_confirmed_session(r, session_id, meta),
    {
        match Decoder::new(meta) {
            Ok(decoder) => {
                let mut session = ReceiverSession::new_pending(session_id);
                session.install(decoder);
                session.refresh_decoded_counts();
                Ok(session)
            },
            Err(e) => Err(Error::Raptorq(e)),
        }
    }

    /// Take on a fresh decoder, with nothing received.
    fn install(&mut self, decoder: Decoder)
        requires
            old(self)@.wf(),
            old(self)@.decoder is None,
            old(self)@.cache.len() == 0,
            old(self).inner_core(),
            decoder.wf(),
            decoder@ == DecoderView::fresh(decoder@.meta),
        ensures
            final(self).inner_core(),
            final(self)@.wf(),
            final(self)@ == old(self)@.with_decoder(decoder@.meta),
    {
        let n: usize = decoder.meta().blocks.len();
        let total: u32 = descriptor::sum_symbols(&decoder.meta().blocks);
        let mut received: Vec<HashSet<u32>> = Vec::new();
        let mut source_recv: Vec<u32> = Vec::new();
        let mut i: usize = 0;
        while i < n
            invariant
                i <= n,
                received@.len() == i,
                source_recv@.len() == i,
                forall|b: int| 0 <= b < i ==> (#[trigger] received@[b])@ == Set::<u32>::empty(),
                forall|b: int| 0 <= b < i ==> (#[trigger] source_recv@[b]) == 0,
            decreases n - i,
        {
            received.push(HashSet::new());
            source_recv.push(0);
            i = i + 1;
        }
        self.pending_symbol_size = decoder.meta().symbol_size;
        self.progress.total_symbols = total;
        self.progress.total_blocks = n as u32;
        self.progress.received_symbols = 0;
        self.received = received;
        self.source_recv = source_recv;
        self.decoder = Some(decoder);
        proof {
            assert(self@.received =~= Seq::new(
                decoder@.meta.blocks.len(),
                |i: int| Set::<u32>::empty(),
            ));
            assert(self@.cache =~= Seq::<(u32, u32, Seq<u8>)>::empty());
            assert(self@ =~= old(self)@.with_decoder(decoder@.meta));
            model::lemma_total_ids_empty(self@.received);
            assert forall|b: int| 0 <= b < self.source_recv@.len() implies (
            #[trigger] self.source_recv@[b]) == model::source_ids(
                self@.received[b],
                decoder@.meta.blocks[b].num_source_symbols,
            ).len() by {
                assert(model::source_ids(
                    self@.received[b],
                    decoder@.meta.blocks[b].num_source_symbols,
                ) =~= Set::<u32>::empty());
            }
        }
    }

    /// Receive a symbol that was not received before, and feed it to the
    /// decoder.
    fn take_symbol(&mut self, sbn: u32, esi: u32, data: Vec<u8>)
        requires
            old(self).inner_core(),
            old(self)@.wf(),
            old(self)@.decoder is Some,
            sbn < old(self)@.received.len(),
            esi < codec::ESI_LIMIT,
            !old(self)@.received[sbn as int].contains(esi),
        ensures
            final(self).inner_core(),
            final(self)@.wf(),
            final(self)@ == old(self)@.took(sbn, esi, data@),
    {
        let ghost before = self@;
        let ghost counts = self.source_recv@;
        let bi: usize = sbn as usize;
        proof {
            let after = before.took(sbn, esi, data@).received;
            assert(before.received[bi as int] == self.received@[bi as int]@);
            assert forall|b: int| 0 <= b < after.len() implies resume::small_ids(
                #[trigger] after[b],
            ) by {
                assert(resume::small_ids(before.received[b]));
            }
            model::lemma_total_ids_bound(after);
            model::lemma_total_ids_insert(before.received, bi as int, esi);
            let k = before.decoder->0.meta.blocks[bi as int].num_source_symbols;
            model::lemma_source_ids_insert(before.received[bi as int], k, esi);
            assert(self.source_recv@[bi as int] == model::source_ids(
                before.received[bi as int],
                k,
            ).len());
        }
        let set = &mut self.received[bi];
        set.insert(esi);
        self.progress.received_symbols = self.progress.received_symbols + 1;
        let symbol = Symbol::new(sbn, esi, data);
        match &mut self.decoder {
            Some(dec) => {
                if esi < dec.meta().blocks[bi].num_source_symbols {
                    self.source_recv.set(bi, self.source_recv[bi] + 1);
                }
                let _ = dec.add_symbol(&symbol);
            },
            None => {
                assert(false);
            },
        }
        proof {
            assert(self@.received =~= before.took(sbn, esi, data@).received);
            assert(self@ =~= before.took(sbn, esi, data@));
        }
    }

    /// Recompute the counts of what is recovered.
    fn refresh_decoded_counts(&mut self)
        requires
            old(self).inner_core(),
            old(self)@.wf(),
        ensures
            final(self).inner_wf(),
            final(self)@ == old(self)@,
    {
        let (symbols, blocks): (u32, u32) = match &self.decoder {
            Some(dec) => {
                let n: usize = dec.meta().blocks.len();
                let ghost d = dec@;
                let ghost received = self@.received;
                let mut decoded_symbols: u32 = 0;
                let mut i: usize = 0;
                while i < n
                    invariant
                        i <= n == d.meta.blocks.len(),
                        dec@ == d,
                        d.sound(),
                        n == received.len() == self.source_recv@.len(),
                        forall|b: int|
                            0 <= b < self.source_recv@.len() ==> (#[trigger] self.source_recv@[b])
                                == model::source_ids(
                                received[b],
                                d.meta.blocks[b].num_source_symbols,
                            ).len(),
                        decoded_symbols == model::recovered_symbols(d, received, i as int),
                    decreases n - i,
                {
                    let k: u32 = dec.meta().blocks[i].num_source_symbols;
                    proof {
                        assert(d.meta.valid_block(i as int));
                        model::lemma_recovered_bound(d, received, i + 1);
                        descriptor::lemma_total_symbols_prefix(d.meta.blocks, i + 1);
                    }
                    decoded_symbols = decoded_symbols + if dec.is_block_decoded(i as u32) {
                        k
                    } else {
                        self.source_recv[i]
                    };
                    i = i + 1;
                }
                (decoded_symbols, dec.decoded_block_count() as u32)
            },
            None => (0, 0),
        };
        proof {
            if self@.decoder is Some {
                lemma_decoded_count_bound(self@.decoder->0.blocks);
            }
        }
        self.progress.decoded_symbols = symbols;
        self.progress.decoded_blocks = blocks;
        assert(self@ =~= old(self)@);
    }
}

impl ReceiverSession {
    /// Replay stored symbols, in order.
    fn replay(&mut self, symbols: Vec<(u32, u32, Vec<u8>)>)
        requires
            old(self).inner_core(),
            old(self)@.wf(),
            old(self)@.decoder is Some,
            old(self)@.frames_corrupt + old(self)@.frames_duplicate + symbols.len() <= old(
                self,
            )@.frames_seen || all_usable(old(self)@, symbols@),
        ensures
            final(self).wf(),
            final(self)@ == old(self)@.replayed(entries_view(symbols@)),
            final(self)@.decoder is Some,
    {
        let ghost before = self@;
        let ghost all = symbols@;
        let ghost views = entries_view(all);
        for entry in it: symbols
            invariant
                it.seq() == all,
                views == entries_view(all),
                self.inner_core(),
                self@.wf(),
                self@.decoder is Some,
                self@ == before.replayed(views.take(it.index() as int)),
                self@.received.len() == before.received.len(),
                self@.symbol_size == before.symbol_size,
                self@.frames_seen == before.frames_seen,
                self@.frames_duplicate == before.frames_duplicate,
                before.frames_corrupt <= self@.frames_corrupt <= before.frames_corrupt + it.index(),
                before.frames_corrupt + before.frames_duplicate + all.len() <= before.frames_seen
                    || (all_usable(before, all) && self@.frames_corrupt == before.frames_corrupt),
        {
            let ghost i = it.index() as int;
            proof {
                assert(views[i] == resume::symbol_view(all[i]));
                assert(entry == all[i]);
                assert(views.take(i + 1).drop_last() =~= views.take(i));
                assert(views.take(i + 1).last() == views[i]);
            }
            let ghost prior = self@;
            let (sbn, esi, data) = entry;
            let bi: usize = sbn as usize;
            if bi >= self.received.len() || esi >= codec::ESI_LIMIT || data.len()
                != self.pending_symbol_size as usize {
                self.progress.frames_corrupt = self.progress.frames_corrupt + 1;
                assert(self@ =~= prior.one_corrupt());
            } else {
                assert(prior.received[bi as int] == self.received@[bi as int]@);
                if !self.received[bi].contains(&esi) {
                    self.take_symbol(sbn, esi, data);
                }
            }
        }
        assert(views.take(all.len() as int) =~= views);
        self.refresh_decoded_counts();
    }

    /// Take on the object's metadata: build the decoder and replay what was
    /// held.
    fn apply_meta(&mut self, meta: ObjectMeta)
        requires
            old(self).wf(),
            old(self)@.decoder is None,
            meta@.valid(),
        ensures
            final(self).wf(),
            final(self)@ == old(self)@.with_meta(meta@),
            final(self)@.decoder is Some,
    {
        let ghost before = self@;
        match Decoder::new(meta) {
            Ok(decoder) => {
                let mut held = ReplayCache::new();
                std::mem::swap(&mut held, &mut self.symbol_cache);
                self.progress.received_symbols = 0;
                assert(self@ =~= (ReceiverView { cache: Seq::empty(), ..before }));
                self.install(decoder);
                assert(self@ =~= before.with_decoder(meta@));
                self.replay(held.into_entries());
            },
            Err(_) => {
                assert(false);
            },
        }
    }
}

/// Whether `header` and `info` make a descriptor that a receiver takes on.
///
/// A descriptor is read off any screen. Metadata that the codec cannot take,
/// that disagrees with the frame around it, or that lets a payload expand
/// beyond the receiver's budget is refused here.
pub fn accepts_descriptor(header: &FrameHeader, info: &DescriptorInfo) -> (accepted: bool)
    ensures
        accepted == model::descriptor_acceptable(*header, info@),
{
    if info.meta.validate().is_err() {
        return false;
    }
    if header.symbol_size != info.meta.symbol_size || header.total_blocks as usize
        != info.meta.blocks.len() || header.total_symbols != descriptor::sum_symbols(
        &info.meta.blocks,
    ) {
        return false;
    }
    let file = &info.file_meta;
    if !compress::is_known_compression_tag(file.compression) {
        return false;
    }
    if file.compressed_size_known && file.compressed_size > info.meta.transfer_length {
        return false;
    }
    match &info.segment {
        None => file.original_size <= MAX_ORIGINAL_BYTES && (file.compression
            == compress::COMPRESSION_NONE || file.original_size != 0),
        Some(segment) => segment.validate(header.session_id, file).is_ok(),
    }
}

/// Whether two optional segments are the same.
fn same_segments(a: &Option<SegmentMeta>, b: &Option<SegmentMeta>) -> (same: bool)
    ensures
        same == (descriptor::segment_view(*a) == descriptor::segment_view(*b)),
{
    match (a, b) {
        (Some(x), Some(y)) => assembler::same_segment(x, y),
        (None, None) => true,
        _ => false,
    }
}

impl ReceiverSession {
    /// Take in a frame. Returns whether the object is complete.
    ///
    /// A descriptor frame tells the metadata. A data frame is held until the
    /// metadata is known, and from then on its symbol is fed to the decoder,
    /// unless it was received before or the object is complete.
    pub fn ingest(&mut self, frame: Frame) -> (r: Result<bool, Error>)
        requires
            old(self).wf(),
            old(self)@.can_count(frame.header.session_id),
        ensures
            final(self).wf(),
            final(self)@ == old(self)@.after_frame(frame.header, frame.payload@),
            match r {
                Ok(complete) => {
                    &&& frame.header.session_id == old(self)@.session_id
                    &&& complete == final(self)@.complete()
                },
                Err(e) => {
                    &&& frame.header.session_id != old(self)@.session_id
                    &&& e == (Error::SessionMismatch {
                        expected: old(self)@.session_id,
                        got: frame.header.session_id,
                    })
                },
            },
    {
        let ghost before = self@;
        if frame.header.session_id != self.session_id {
            self.progress.session_mismatch_streak = self.progress.session_mismatch_streak + 1;
            assert(self@ =~= before.after_frame(frame.header, frame.payload@));
            return Err(
                Error::SessionMismatch {
                    expected: self.session_id,
                    got: frame.header.session_id,
                },
            );
        }
        self.progress.session_mismatch_streak = 0;
        self.progress.frames_seen = self.progress.frames_seen + 1;
        assert(self@ =~= (ReceiverView {
            session_mismatch_streak: 0,
            frames_seen: (before.frames_seen + 1) as u64,
            ..before
        }));
        if frame.header.flags & FLAG_DESCRIPTOR != 0 {
            self.ingest_descriptor(&frame.header, &frame.payload);
        } else if self.decoder.is_none() {
            self.hold_symbol(&frame.header, frame.payload);
        } else {
            self.ingest_symbol(&frame.header, frame.payload);
        }
        Ok(self.is_complete())
    }

    /// Take in a descriptor frame of the session.
    fn ingest_descriptor(&mut self, header: &FrameHeader, payload: &[u8])
        requires
            old(self).wf(),
            header.session_id == old(self)@.session_id,
            old(self)@.frames_corrupt + old(self)@.frames_duplicate + old(self)@.cache.len() < old(
                self,
            )@.frames_seen,
        ensures
            final(self).wf(),
            final(self)@ == old(self)@.after_descriptor(*header, payload@),
    {
        let ghost before = self@;
        let info = match descriptor::parse_payload(payload) {
            Some(info) => info,
            None => {
                self.progress.frames_corrupt = self.progress.frames_corrupt + 1;
                assert(self@ =~= before.one_corrupt());
                return ;
            },
        };
        if !accepts_descriptor(header, &info) {
            self.progress.frames_corrupt = self.progress.frames_corrupt + 1;
            assert(self@ =~= before.one_corrupt());
            return ;
        }
        let same_meta: bool = match &self.decoder {
            Some(dec) => dec.meta().same(&info.meta),
            None => false,
        };
        if self.descriptor_seen {
            if !same_meta || !self.file_meta.same(&info.file_meta) || !same_segments(
                &self.segment_meta,
                &info.segment,
            ) {
                self.progress.frames_corrupt = self.progress.frames_corrupt + 1;
                assert(self@ =~= before.one_corrupt());
            }
            return ;
        }
        if self.decoder.is_none() {
            self.apply_meta(info.meta);
        } else if !same_meta {
            self.progress.frames_corrupt = self.progress.frames_corrupt + 1;
            assert(self@ =~= before.one_corrupt());
            return ;
        }
        let ghost known = self@;
        proof {
            if before.decoder is None {
                model::lemma_replayed_keeps(before.with_decoder(info.meta@), before.cache);
            }
        }
        self.descriptor_seen = true;
        self.file_meta = info.file_meta;
        self.segment_meta = info.segment;
        assert(self@ =~= (ReceiverView {
            descriptor_seen: true,
            file: info.file_meta@,
            segment: descriptor::segment_view(info.segment),
            ..known
        }));
    }

    /// Hold the symbol of a data frame that came before the metadata.
    fn hold_symbol(&mut self, header: &FrameHeader, payload: Vec<u8>)
        requires
            old(self).wf(),
            old(self)@.decoder is None,
            old(self)@.frames_corrupt + old(self)@.frames_duplicate + old(self)@.cache.len() < old(
                self,
            )@.frames_seen,
        ensures
            final(self).wf(),
            final(self)@ == old(self)@.after_early_symbol(*header, payload@),
    {
        let ghost before = self@;
        proof {
            model::lemma_cache_max(header.symbol_size);
        }
        self.pending_symbol_size = header.symbol_size;
        if self.symbol_cache.contains(header.sbn, header.esi) {
            self.progress.frames_duplicate = self.progress.frames_duplicate + 1;
        } else if self.symbol_cache.len() >= pre_meta_cache_max(header.symbol_size) {
            self.progress.frames_corrupt = self.progress.frames_corrupt + 1;
        } else {
            self.symbol_cache.insert(header.sbn, header.esi, payload);
        }
        self.progress.received_symbols = self.symbol_cache.len() as u32;
        assert(self@ =~= before.after_early_symbol(*header, payload@));
    }

    /// Take in a data frame of the session.
    fn ingest_symbol(&mut self, header: &FrameHeader, payload: Vec<u8>)
        requires
            old(self).wf(),
            old(self)@.decoder is Some,
            old(self)@.frames_corrupt + old(self)@.frames_duplicate + old(self)@.cache.len() < old(
                self,
            )@.frames_seen,
        ensures
            final(self).wf(),
            final(self)@ == old(self)@.after_symbol(*header, payload@),
    {
        let ghost before = self@;
        let bi: usize = header.sbn as usize;
        if bi >= self.received.len() || header.esi >= codec::ESI_LIMIT || payload.len()
            != self.pending_symbol_size as usize {
            self.progress.frames_corrupt = self.progress.frames_corrupt + 1;
            assert(self@ =~= before.one_corrupt());
            return ;
        }
        assert(before.received[bi as int] == self.received@[bi as int]@);
        if self.is_complete() || self.received[bi].contains(&header.esi) {
            self.progress.frames_duplicate = self.progress.frames_duplicate + 1;
            assert(self@ =~= before.one_duplicate());
            return ;
        }
        self.take_symbol(header.sbn, header.esi, payload);
        self.refresh_decoded_counts();
    }

    /// Whether every block is reconstructed.
    pub fn is_complete(&self) -> (complete: bool)
        ensures
            complete == self@.complete(),
    {
        match &self.decoder {
            Some(dec) => dec.is_complete(),
            None => false,
        }
    }
}

/// `r` says what came of assembling.
pub open spec fn tells_assembly(r: Result<Option<Vec<u8>>, Error>, a: Assembly) -> bool {
    match a {
        Assembly::Incomplete => r matches Ok(None),
        Assembly::Done(bytes) => r matches Ok(Some(out)) && out@ == bytes,
        Assembly::Failed(reason) => r matches Err(Error::Compress(m)) && m@ == reason,
    }
}

impl ReceiverSession {
    /// The recovered object exactly as transmitted, padding included.
    pub fn assemble_raw(&self) -> (object: Option<Vec<u8>>)
        requires
            self.wf(),
        ensures
            codec::option_view(object) == if self@.complete() {
                Some(self@.decoder->0.assembled())
            } else {
                None::<Seq<u8>>
            },
    {
        match &self.decoder {
            Some(dec) => dec.assemble(),
            None => None,
        }
    }

    /// The original file, once it is complete: the recovered object without its
    /// padding, decompressed. `None` where it is not complete or cannot be
    /// decompressed.
    pub fn assemble(&mut self) -> (file: Option<Vec<u8>>)
        requires
            old(self).wf(),
        ensures
            final(self).wf(),
            final(self)@ == old(self)@.after_assembly(),
            codec::option_view(file) == match old(self)@.assembly() {
                Assembly::Done(bytes) => Some(bytes),
                _ => None::<Seq<u8>>,
            },
    {
        match self.assemble_result() {
            Ok(file) => file,
            Err(_) => None,
        }
    }

    /// Keep the reason why the file cannot be assembled, and report it.
    fn fail_assembly(&mut self, message: String) -> (r: Result<Option<Vec<u8>>, Error>)
        requires
            old(self).wf(),
        ensures
            final(self).wf(),
            final(self)@ == (ReceiverView { last_assemble_error: Some(message@), ..old(self)@ }),
            r matches Err(Error::Compress(m)) && m@ == message@,
    {
        self.last_assemble_error = Some(message.clone());
        assert(self@ =~= (ReceiverView { last_assemble_error: Some(message@), ..old(self)@ }));
        Err(Error::Compress(message))
    }

    /// Forget why the file could not be assembled.
    fn clear_failure(&mut self)
        requires
            old(self).wf(),
        ensures
            final(self).wf(),
            final(self)@ == (ReceiverView { last_assemble_error: None, ..old(self)@ }),
    {
        self.last_assemble_error = None;
        assert(self@ =~= (ReceiverView { last_assemble_error: None, ..old(self)@ }));
    }

    /// Like [`ReceiverSession::assemble`], but tells why a complete object does
    /// not give the file. `Ok(None)` where it is not complete.
    pub fn assemble_result(&mut self) -> (r: Result<Option<Vec<u8>>, Error>)
        requires
            old(self).wf(),
        ensures
            final(self).wf(),
            final(self)@ == old(self)@.after_assembly(),
            tells_assembly(r, old(self)@.assembly()),
    {
        let mut raw = match self.assemble_raw() {
            Some(bytes) => bytes,
            None => {
                self.clear_failure();
                return Ok(None);
            },
        };
        let ghost object = raw@;
        if self.file_meta.compressed_size_known {
            let size: u64 = self.file_meta.compressed_size;
            if size > usize::MAX as u64 {
                return self.fail_assembly(
                    "descriptor compressed_size does not fit this platform".to_owned(),
                );
            }
            if size > raw.len() as u64 {
                let mut message = text::numbered("descriptor compressed_size (", size);
                text::push_str(&mut message, ") exceeds recovered payload (");
                text::push_decimal(&mut message, raw.len() as u64);
                text::push_str(&mut message, ")");
                return self.fail_assembly(message);
            }
            raw.truncate(size as usize);
        }
        assert(raw@ == self@.trimmed());
        if self.file_meta.compression == compress::COMPRESSION_NONE {
            self.clear_failure();
            return Ok(Some(raw));
        }
        let original_size: u64 = self.file_meta.original_size;
        if original_size > usize::MAX as u64 {
            return self.fail_assembly(
                "descriptor original_size does not fit this platform".to_owned(),
            );
        }
        if original_size > MAX_ORIGINAL_BYTES {
            return self.fail_assembly(
                "descriptor original_size exceeds receiver limit".to_owned(),
            );
        }
        let cap: usize = if original_size > 0 {
            original_size as usize
        } else {
            MAX_ORIGINAL_BYTES as usize
        };
        match compress::decompress_with_limit(&raw, self.file_meta.compression, cap) {
            Ok(out) => {
                if original_size > 0 && out.len() as u64 != original_size {
                    let mut message = text::numbered(
                        "decompressed size mismatch: expected ",
                        original_size,
                    );
                    text::push_str(&mut message, ", got ");
                    text::push_decimal(&mut message, out.len() as u64);
                    self.fail_assembly(message)
                } else {
                    self.clear_failure();
                    Ok(Some(out))
                }
            },
            Err(e) => {
                let message = e.message();
                self.fail_assembly(message)
            },
        }
    }

    /// Why the last attempt to assemble failed, if it did.
    pub fn last_assemble_error(&self) -> (message: Option<&str>)
        ensures
            match message {
                Some(m) => self@.last_assemble_error == Some(m@),
                None => self@.last_assemble_error is None,
            },
    {
        match &self.last_assemble_error {
            Some(message) => Some(message.as_str()),
            None => None,
        }
    }

    /// How far the session is.
    pub fn progress(&self) -> (progress: Progress)
        requires
            self.wf(),
        ensures
            progress == self@.progress(),
    {
        let mut progress = self.progress;
        progress.meta_confirmed = self.decoder.is_some();
        progress.symbol_size = self.pending_symbol_size;
        progress
    }

    /// How far the session is.
    pub fn progress_snapshot(&self) -> (progress: Progress)
        requires
            self.wf(),
        ensures
            progress == self@.progress(),
    {
        self.progress()
    }

    /// The state to persist, or `None` while there is no metadata.
    ///
    /// Only symbols whose bytes are held are saved, and only their ids count as
    /// received: an id without its bytes would make a restored session refuse
    /// the symbol that it lacks.
    pub fn save_state(&self) -> (state: Option<ResumeState>)
        requires
            self.wf(),
        ensures
            match state {
                Some(s) => self@.saved() == Some(s@),
                None => self@.saved() is None,
            },
    {
        let meta = match &self.decoder {
            Some(dec) => dec.meta().clone(),
            None => {
                return None;
            },
        };
        let n: usize = meta.blocks.len();
        let mut received: Vec<HashSet<u32>> = Vec::new();
        while received.len() < n
            invariant
                received@.len() <= n,
                forall|b: int|
                    0 <= b < received@.len() ==> (#[trigger] received@[b])@ == Set::<u32>::empty(),
            decreases n - received@.len(),
        {
            received.push(HashSet::new());
        }
        let entries = self.symbol_cache.entries();
        let ghost views = self@.cache;
        let mut symbols: Vec<(u32, u32, Vec<u8>)> = Vec::new();
        let mut i: usize = 0;
        proof {
            assert forall|b: int| 0 <= b < n implies (#[trigger] received@[b])@
                == model::held_ids(views.take(0), b) by {
                assert(model::held_ids(views.take(0), b) =~= Set::<u32>::empty());
            }
            assert(entries_view(symbols@) =~= views.take(0));
        }
        while i < entries.len()
            invariant
                i <= entries@.len(),
                views == entries_view(entries@),
                received@.len() == n,
                entries_view(symbols@) == views.take(i as int),
                forall|b: int|
                    0 <= b < n ==> (#[trigger] received@[b])@ == model::held_ids(
                        views.take(i as int),
                        b,
                    ),
            decreases entries@.len() - i,
        {
            let entry = &entries[i];
            let sbn: u32 = entry.0;
            let esi: u32 = entry.1;
            let ghost sets = received@;
            symbols.push((sbn, esi, wire::copy_of(&entry.2)));
            if (sbn as usize) < received.len() {
                let set = &mut received[sbn as usize];
                set.insert(esi);
            }
            proof {
                let before = views.take(i as int);
                let after = views.take(i + 1);
                assert(views[i as int] == resume::symbol_view(entries@[i as int]));
                assert(after =~= before.push(views[i as int]));
                assert(entries_view(symbols@) =~= after);
                assert forall|b: int| 0 <= b < n implies (#[trigger] received@[b])@
                    == model::held_ids(after, b) by {
                    assert(sets[b]@ == model::held_ids(before, b));
                    lemma_held_ids_push(before, views[i as int], b);
                }
            }
            i = i + 1;
        }
        assert(views.take(i as int) =~= views);
        let state = ResumeState { session_id: self.session_id, meta, received, symbols };
        proof {
            let saved = self@.saved()->0;
            assert(state@.received =~= saved.received);
            assert(state@ =~= saved);
        }
        Some(state)
    }

    /// A session restored from a saved state: a fresh decoder that the saved
    /// symbols are replayed into. The saved id sets are checked and otherwise
    /// ignored.
    pub fn restore(state: ResumeState) -> (r: Result<Self, Error>)
        ensures
            match r {
                Ok(session) => {
                    &&& state@.valid()
                    &&& session.wf()
                    &&& session@ == ReceiverView::restored(state@)
                },
                Err(e) => {
                    &&& !state@.valid()
                    &&& e matches Error::InvalidResume(reason) && state@.rejection() == Some(
                        reason@,
                    )
                },
            },
    {
        match state.validate() {
            Ok(_) => {},
            Err(reason) => {
                return Err(Error::InvalidResume(reason));
            },
        }
        let ghost view = state@;
        let ResumeState { session_id, meta, received: _, symbols } = state;
        match ReceiverSession::new_confirmed(session_id, meta) {
            Ok(mut session) => {
                proof {
                    assert(entries_view(symbols@) =~= view.symbols);
                    assert forall|i: int| 0 <= i < symbols@.len() implies (
                    #[trigger] symbols@[i]).0 < session@.received.len() && symbols@[i].1
                        < codec::ESI_LIMIT && symbols@[i].2@.len() == session@.symbol_size by {
                        assert(view.symbol_ok(i));
                        assert(view.symbols[i] == resume::symbol_view(symbols@[i]));
                    }
                }
                session.replay(symbols);
                Ok(session)
            },
            Err(e) => {
                assert(false);
                Err(e)
            },
        }
    }

    /// The session's identity.
    pub fn session_id(&self) -> (id: SessionIdRaw)
        ensures
            id == self@.session_id,
    {
        self.session_id
    }

    /// Source symbols of the object, zero until they are known.
    pub fn total_symbols(&self) -> (n: u32)
        requires
            self.wf(),
        ensures
            n == self@.total_symbols(),
    {
        self.progress.total_symbols
    }

    /// File metadata that the descriptor told.
    pub fn file_meta(&self) -> (file: &FileMeta)
        ensures
            file@ == self@.file,
    {
        &self.file_meta
    }

    /// Segment metadata that the descriptor told, if it was one of a segment.
    pub fn segment_meta(&self) -> (segment: Option<&SegmentMeta>)
        ensures
            descriptor::borrowed_view(segment) == self@.segment,
    {
        self.segment_meta.as_ref()
    }

    /// Whether the object's metadata is known, so that data frames are decoded
    /// at once.
    pub fn is_meta_confirmed(&self) -> (confirmed: bool)
        ensures
            confirmed == (self@.decoder is Some),
    {
        self.decoder.is_some()
    }

    /// Whether the counter that a frame of the session `session_id` goes to has
    /// room for it.
    pub fn has_room(&self, session_id: SessionIdRaw) -> (room: bool)
        ensures
            room == self@.can_count(session_id),
    {
        if session_id == self.session_id {
            self.progress.frames_seen < u64::MAX
        } else {
            self.progress.session_mismatch_streak < u32::MAX
        }
    }

    /// Symbols held while there is no metadata.
    pub fn cached_symbols(&self) -> (n: usize)
        ensures
            n == self@.cache.len(),
    {
        self.symbol_cache.len()
    }
}

/// One more symbol is one more id of its block.
proof fn lemma_held_ids_push(
    symbols: Seq<(u32, u32, Seq<u8>)>,
    s: (u32, u32, Seq<u8>),
    b: int,
)
    ensures
        model::held_ids(symbols.push(s), b) == if s.0 == b {
            model::held_ids(symbols, b).insert(s.1)
        } else {
            model::held_ids(symbols, b)
        },
{
    let after = symbols.push(s);
    let expected = if s.0 == b {
        model::held_ids(symbols, b).insert(s.1)
    } else {
        model::held_ids(symbols, b)
    };
    assert forall|esi: u32| #[trigger] model::held_ids(after, b).contains(esi)
        <==> expected.contains(esi) by {
        if model::held_ids(after, b).contains(esi) {
            let i = choose|i: int|
                0 <= i < after.len() && (#[trigger] after[i]).0 == b && after[i].1 == esi;
            if i < symbols.len() {
                assert(symbols[i] == after[i]);
            }
        }
        if model::held_ids(symbols, b).contains(esi) {
            let i = choose|i: int|
                0 <= i < symbols.len() && (#[trigger] symbols[i]).0 == b && symbols[i].1 == esi;
            assert(after[i] == symbols[i]);
        }
        assert(after[symbols.len() as int] == s);
    }
    assert(model::held_ids(after, b) =~= expected);
}

/// What stored symbols stand for.
pub open spec fn entries_view(symbols: Seq<(u32, u32, Vec<u8>)>) -> Seq<(u32, u32, Seq<u8>)> {
    symbols.map_values(|s: (u32, u32, Vec<u8>)| resume::symbol_view(s))
}

/// Every symbol has coordinates and a size of the object.
pub open spec fn all_usable(v: ReceiverView, symbols: Seq<(u32, u32, Vec<u8>)>) -> bool {
    forall|i: int|
        0 <= i < symbols.len() ==> (#[trigger] symbols[i]).0 < v.received.len() && symbols[i].1
            < codec::ESI_LIMIT && symbols[i].2@.len() == v.symbol_size
}

/// At most all blocks are reconstructed.
proof fn lemma_decoded_count_bound(blocks: Seq<decoder::BlockView>)
    ensures
        decoder::decoded_count(blocks) <= blocks.len(),
    decreases blocks.len(),
{
    if blocks.len() > 0 {
        lemma_decoded_count_bound(blocks.drop_last());
    }
}

/// `r` is a session for `meta`, or the reason why `meta` is rejected.
pub open spec fn is_confirmed_session(
    r: Result<ReceiverSession, Error>,
    session_id: SessionIdRaw,
    meta: ObjectMeta,
) -> bool {
    match r {
        Ok(session) => {
            &&& meta@.valid()
            &&& session.wf()
            &&& session@ == ReceiverView::confirmed(session_id, meta@)
        },
        Err(e) => {
            &&& !meta@.valid()
            &&& e matches Error::Raptorq(crate::raptorq_core::Error::InvalidObjectMeta(reason))
                && meta@.rejection() == Some(reason@)
        },
    }
}

/// Blocks that a layout guessed from totals has: the number told, at least one,
/// in eight bits.
pub open spec fn guessed_blocks(total_blocks: u32) -> int {
    if total_blocks < 1 {
        1
    } else {
        total_blocks as int % 256
    }
}

/// Packet size that a guessed layout is laid out for.
pub open spec fn guessed_mtu(symbol_size: u32) -> int {
    symbol_size as int % 0x1_0000 + 4
}

/// The metadata guessed from totals: the symbols split evenly, the larger blocks
/// first.
pub open spec fn guessed_meta(total_blocks: u32, total_symbols: u32, symbol_size: u32) -> MetaView {
    let n = guessed_blocks(total_blocks);
    let len = total_symbols * symbol_size;
    MetaView {
        transfer_length: len as u64,
        symbol_size,
        oti: codec::encoding_oti(len as nat, guessed_mtu(symbol_size) as u16),
        blocks: Seq::new(
            n as nat,
            |i: int|
                {
                    let k = total_symbols as int / n + if i < total_symbols as int % n {
                        1int
                    } else {
                        0
                    };
                    SourceBlockMeta {
                        sbn: i as u32,
                        num_source_symbols: k as u32,
                        block_length: (k * symbol_size) as u64,
                    }
                },
        ),
    }
}

/// Guess the object's metadata from the totals of a frame header.
///
/// A placeholder for diagnostics: the real partitioning of an object with more
/// than one block does not follow from its totals. A session learns it from a
/// descriptor instead.
pub fn derive_meta_from_totals(total_blocks: u32, total_symbols: u32, symbol_size: u32) -> (meta:
    ObjectMeta)
    requires
        guessed_blocks(total_blocks) != 0,
        total_symbols > 0,
        symbol_size > 0,
        guessed_mtu(symbol_size) <= u16::MAX,
        codec::object_symbols(
            (total_symbols * symbol_size) as nat,
            guessed_mtu(symbol_size) as u16,
        ) <= u32::MAX,
    ensures
        meta@ == guessed_meta(total_blocks, total_symbols, symbol_size),
{
    let n: u32 = if total_blocks < 1 {
        1
    } else {
        total_blocks % 256
    };
    assert(0 < total_symbols * symbol_size <= u32::MAX * u32::MAX) by (nonlinear_arith)
        requires
            0 < total_symbols <= u32::MAX,
            0 < symbol_size <= u32::MAX,
    ;
    let len: u64 = total_symbols as u64 * symbol_size as u64;
    let mtu: u16 = (symbol_size % 0x1_0000 + 4) as u16;
    let oti_bytes = codec::default_oti(len, mtu);
    let per: u32 = total_symbols / n;
    let rem: u32 = total_symbols % n;
    proof {
        vstd::arithmetic::div_mod::lemma_fundamental_div_mod(total_symbols as int, n as int);
        assert(per + rem <= total_symbols) by (nonlinear_arith)
            requires
                total_symbols == n * per + rem,
                n >= 1,
                per >= 0,
        ;
    }
    let mut blocks: Vec<SourceBlockMeta> = Vec::new();
    let ghost expected = guessed_meta(total_blocks, total_symbols, symbol_size).blocks;
    let mut i: u32 = 0;
    while i < n
        invariant
            i <= n == guessed_blocks(total_blocks),
            n <= 255,
            per == total_symbols as int / n as int,
            rem == total_symbols as int % n as int,
            per + rem <= total_symbols,
            expected == guessed_meta(total_blocks, total_symbols, symbol_size).blocks,
            blocks@ == expected.take(i as int),
        decreases n - i,
    {
        let k: u32 = if i < rem {
            per + 1
        } else {
            per
        };
        assert(0 <= k * symbol_size <= u32::MAX * u32::MAX) by (nonlinear_arith)
            requires
                0 <= k <= u32::MAX,
                0 <= symbol_size <= u32::MAX,
        ;
        blocks.push(
            SourceBlockMeta {
                sbn: i,
                num_source_symbols: k,
                block_length: k as u64 * symbol_size as u64,
            },
        );
        assert(blocks@ =~= expected.take(i + 1));
        i = i + 1;
    }
    assert(expected.take(n as int) =~= expected);
    ObjectMeta { transfer_length: len, symbol_size, oti_bytes, blocks }
}

} // verus!
