//! The sender's session.
//!
//! A session emits a descriptor as its very first frame and every few frames
//! after that. In between come data frames: every source symbol once, block by
//! block in turn, and then fresh repair symbols, each of which a receiver has
//! not seen before.
use crate::qr_protocol::chunker;
use crate::qr_protocol::frame::{FrameView, SessionIdRaw, FLAG_DESCRIPTOR};
use crate::qr_protocol::{Frame, FrameHeader, SessionId};
use crate::raptorq_core::codec;
use crate::raptorq_core::config;
use crate::raptorq_core::layout;
use crate::raptorq_core::meta;
use crate::raptorq_core::meta::MetaView;
use crate::raptorq_core::{Config, Encoder, ObjectMeta, SourceBlockMeta, Symbol, SymbolId};
use crate::transfer_engine::descriptor;
use crate::transfer_engine::descriptor::{FileMeta, FileMetaView};
use crate::transfer_engine::progress::{Stats, StatsView};
use crate::transfer_engine::segment;
use crate::transfer_engine::segment::{SegmentMeta, SegmentView};
use crate::transfer_engine::time;
use crate::transfer_engine::Error;
use vstd::prelude::*;

pub mod laws;

verus! {

/// Configuration of a sender session.
#[derive(Debug, Clone, Copy, PartialEq, Eq, Structural)]
pub struct SenderConfig {
    /// Codec configuration.
    pub codec: Config,
    /// Redundancy in percent, from 5 to 50. It serves the estimate of how many
    /// frames a transfer takes; the stream itself is not bounded by it.
    pub redundancy_pct: u8,
}

impl Default for SenderConfig {
    fn default() -> (config: Self)
        ensures
            config.codec.symbol_size() == config::DEFAULT_SYMBOL_SIZE,
            config.redundancy_pct == 25,
    {
        SenderConfig { codec: Config::default(), redundancy_pct: 25 }
    }
}

impl SenderConfig {
    /// The redundancy is within the range.
    pub open spec fn valid(self) -> bool {
        5 <= self.redundancy_pct <= 50
    }

    /// Accept a redundancy from 5 to 50 percent.
    pub fn validate(&self) -> (r: Result<(), Error>)
        ensures
            match r {
                Ok(_) => self.valid(),
                Err(e) => !self.valid() && e == Error::InvalidRedundancy(self.redundancy_pct),
            },
    {
        if self.redundancy_pct < 5 || self.redundancy_pct > 50 {
            return Err(Error::InvalidRedundancy(self.redundancy_pct));
        }
        Ok(())
    }
}

/// One round of the source plan: the symbol `esi` of every block that has it.
pub open spec fn plan_round(blocks: Seq<SourceBlockMeta>, esi: u32) -> Seq<(u32, u32)>
    decreases blocks.len(),
{
    if blocks.len() == 0 {
        Seq::empty()
    } else {
        let rest = plan_round(blocks.drop_last(), esi);
        if esi < blocks.last().num_source_symbols {
            rest.push((blocks.last().sbn, esi))
        } else {
            rest
        }
    }
}

/// The first `n` rounds of the source plan.
pub open spec fn plan_rounds(blocks: Seq<SourceBlockMeta>, n: int) -> Seq<(u32, u32)>
    decreases n,
{
    if n <= 0 {
        Seq::empty()
    } else {
        plan_rounds(blocks, n - 1) + plan_round(blocks, (n - 1) as u32)
    }
}

/// The largest number of source symbols of any block.
pub open spec fn max_symbols(blocks: Seq<SourceBlockMeta>) -> u32
    decreases blocks.len(),
{
    if blocks.len() == 0 {
        0
    } else {
        let rest = max_symbols(blocks.drop_last());
        if rest < blocks.last().num_source_symbols {
            blocks.last().num_source_symbols
        } else {
            rest
        }
    }
}

/// The order in which source symbols are emitted: symbol 0 of every block, then
/// symbol 1 of every block, and so on, so that a burst of lost frames is spread
/// over all blocks.
pub open spec fn source_plan(blocks: Seq<SourceBlockMeta>) -> Seq<(u32, u32)> {
    plan_rounds(blocks, max_symbols(blocks) as int)
}

/// The `cursor`-th repair symbol: the blocks in turn, each with ids that only
/// ever increase from its first repair id on, as long as they fit in 24 bits.
pub open spec fn repair_id(blocks: Seq<SourceBlockMeta>, cursor: u64) -> Option<(u32, u32)> {
    let b = blocks[cursor as int % blocks.len() as int];
    let esi = b.num_source_symbols + cursor as int / blocks.len() as int;
    if esi < codec::ESI_LIMIT {
        Some((b.sbn, esi as u32))
    } else {
        None
    }
}

fn max_block_symbols(blocks: &Vec<SourceBlockMeta>) -> (max: u32)
    ensures
        max == max_symbols(blocks@),
{
    let mut max: u32 = 0;
    let mut i: usize = 0;
    while i < blocks.len()
        invariant
            i <= blocks@.len(),
            max == max_symbols(blocks@.take(i as int)),
        decreases blocks@.len() - i,
    {
        assert(blocks@.take(i + 1).drop_last() =~= blocks@.take(i as int));
        if max < blocks[i].num_source_symbols {
            max = blocks[i].num_source_symbols;
        }
        i = i + 1;
    }
    assert(blocks@.take(i as int) =~= blocks@);
    max
}

/// Build the order in which source symbols are emitted.
pub fn build_source_plan(meta: &ObjectMeta) -> (plan: Vec<(u32, u32)>)
    ensures
        plan@ == source_plan(meta@.blocks),
{
    let mut plan: Vec<(u32, u32)> = Vec::new();
    let max_k: u32 = max_block_symbols(&meta.blocks);
    let mut esi: u32 = 0;
    while esi < max_k
        invariant
            esi <= max_k,
            plan@ == plan_rounds(meta.blocks@, esi as int),
        decreases max_k - esi,
    {
        let mut i: usize = 0;
        let ghost before = plan@;
        assert(plan@ =~= before + plan_round(meta.blocks@.take(0), esi));
        while i < meta.blocks.len()
            invariant
                i <= meta.blocks@.len(),
                plan@ == before + plan_round(meta.blocks@.take(i as int), esi),
            decreases meta.blocks@.len() - i,
        {
            let b = meta.blocks[i];
            assert(meta.blocks@.take(i + 1).drop_last() =~= meta.blocks@.take(i as int));
            if esi < b.num_source_symbols {
                plan.push((b.sbn, esi));
            }
            assert(plan@ =~= before + plan_round(meta.blocks@.take(i + 1), esi));
            i = i + 1;
        }
        assert(meta.blocks@.take(i as int) =~= meta.blocks@);
        esi = esi + 1;
    }
    plan
}

/// The `cursor`-th repair symbol of the session. There must be a block.
pub fn repair_symbol_id(blocks: &[SourceBlockMeta], cursor: u64) -> (id: Option<(u32, u32)>)
    requires
        blocks@.len() > 0,
    ensures
        id == repair_id(blocks@, cursor),
{
    assert(blocks.len() <= u64::MAX);
    let nblocks: u64 = blocks.len() as u64;
    let bi: usize = (cursor % nblocks) as usize;
    let offset: u64 = cursor / nblocks;
    if offset > u32::MAX as u64 {
        return None;
    }
    let b = blocks[bi];
    let esi: u64 = b.num_source_symbols as u64 + offset;
    if esi < codec::ESI_LIMIT as u64 {
        Some((b.sbn, esi as u32))
    } else {
        None
    }
}

/// `id` names a source symbol of one of `blocks`.
pub open spec fn is_source_id(blocks: Seq<SourceBlockMeta>, id: (u32, u32)) -> bool {
    exists|b: int|
        #![trigger blocks[b]]
        0 <= b < blocks.len() && blocks[b].sbn == id.0 && id.1 < blocks[b].num_source_symbols
}

/// A round has one symbol for every block that is long enough.
proof fn lemma_round_members(blocks: Seq<SourceBlockMeta>, esi: u32)
    ensures
        forall|i: int|
            0 <= i < plan_round(blocks, esi).len() ==> (#[trigger] plan_round(blocks, esi)[i]).1
                == esi,
        forall|b: int|
            0 <= b < blocks.len() && esi < (#[trigger] blocks[b]).num_source_symbols
                ==> plan_round(blocks, esi).contains((blocks[b].sbn, esi)),
        forall|i: int|
            0 <= i < plan_round(blocks, esi).len() ==> is_source_id(
                blocks,
                #[trigger] plan_round(blocks, esi)[i],
            ),
    decreases blocks.len(),
{
    if blocks.len() > 0 {
        let rest = blocks.drop_last();
        let last = blocks.last();
        let shorter = plan_round(rest, esi);
        let round = plan_round(blocks, esi);
        lemma_round_members(rest, esi);
        assert forall|b: int|
            0 <= b < blocks.len() && esi < (#[trigger] blocks[b]).num_source_symbols implies round.contains(
            (blocks[b].sbn, esi),
        ) by {
            if b < rest.len() {
                assert(rest[b] == blocks[b]);
                let i = choose|i: int| 0 <= i < shorter.len() && shorter[i] == (blocks[b].sbn, esi);
                assert(round[i] == shorter[i]);
            } else {
                assert(round[shorter.len() as int] == (last.sbn, esi));
            }
        }
        assert forall|i: int| 0 <= i < round.len() implies is_source_id(
            blocks,
            #[trigger] round[i],
        ) by {
            if i < shorter.len() {
                assert(is_source_id(rest, shorter[i]));
                let b = choose|b: int|
                    #![trigger rest[b]]
                    0 <= b < rest.len() && rest[b].sbn == shorter[i].0 && shorter[i].1
                        < rest[b].num_source_symbols;
                assert(blocks[b] == rest[b]);
            } else {
                assert(blocks[blocks.len() - 1] == last);
            }
        }
    }
}

/// Symbols that a round of `blocks` has, counted over all rounds below `n`.
spec fn symbols_below(blocks: Seq<SourceBlockMeta>, n: int) -> nat
    decreases blocks.len(),
{
    if blocks.len() == 0 {
        0
    } else {
        symbols_below(blocks.drop_last(), n) + if (blocks.last().num_source_symbols as int) < n {
            blocks.last().num_source_symbols as nat
        } else {
            n as nat
        }
    }
}

proof fn lemma_symbols_below_step(blocks: Seq<SourceBlockMeta>, n: int)
    requires
        0 <= n < u32::MAX,
    ensures
        symbols_below(blocks, n + 1) == symbols_below(blocks, n) + plan_round(
            blocks,
            n as u32,
        ).len(),
    decreases blocks.len(),
{
    if blocks.len() > 0 {
        lemma_symbols_below_step(blocks.drop_last(), n);
    }
}

proof fn lemma_symbols_below(blocks: Seq<SourceBlockMeta>, n: int)
    ensures
        n >= max_symbols(blocks) ==> symbols_below(blocks, n) == meta::total_symbols(blocks),
        n == 0 ==> symbols_below(blocks, n) == 0,
    decreases blocks.len(),
{
    if blocks.len() > 0 {
        lemma_symbols_below(blocks.drop_last(), n);
    }
}

proof fn lemma_rounds_len(blocks: Seq<SourceBlockMeta>, n: int)
    requires
        0 <= n <= u32::MAX,
    ensures
        plan_rounds(blocks, n).len() == symbols_below(blocks, n),
    decreases n,
{
    if n > 0 {
        lemma_rounds_len(blocks, n - 1);
        lemma_symbols_below_step(blocks, n - 1);
    } else {
        lemma_symbols_below(blocks, 0);
    }
}

/// The source plan has as many entries as there are source symbols.
pub proof fn lemma_plan_len(blocks: Seq<SourceBlockMeta>)
    ensures
        source_plan(blocks).len() == meta::total_symbols(blocks),
{
    lemma_rounds_len(blocks, max_symbols(blocks) as int);
    lemma_symbols_below(blocks, max_symbols(blocks) as int);
}

/// Descriptors come every so many frames. The default has no factor in common
/// with 2 or 4, so that descriptors visit every slot of a screen that shows two
/// or four codes at a time.
pub const DEFAULT_DESCRIPTOR_INTERVAL: u32 = 17;

/// A sender session: the encoded payload and where the stream stands.
pub struct SenderSession {
    config: SenderConfig,
    session_id: SessionIdRaw,
    encoder: Encoder,
    meta: ObjectMeta,
    file_meta: FileMeta,
    segment_meta: Option<SegmentMeta>,
    total_k: u32,
    source_plan: Vec<(u32, u32)>,
    source_cursor: usize,
    repair_cursor: u64,
    frame_index: u64,
    descriptor_interval: u32,
    started: bool,
    start_ms: u64,
    stats: Stats,
}

/// The statistics have room for `n` more frames.
pub open spec fn room_for(s: SenderView, n: int) -> bool {
    s.stats.bytes + n * s.size() <= u64::MAX && s.stats.frames + n <= u64::MAX
}

/// The encoding symbol `esi` of block `sbn` of an object cut into symbols of
/// `size` bytes.
pub open spec fn symbol_of(object: Seq<u8>, size: u32, sbn: u32, esi: u32) -> Seq<u8> {
    codec::encoded_block(object, layout::mtu_for(size), sbn as int)[esi as int]
}

/// Every encoding symbol of the object has `size` bytes.
pub open spec fn symbols_whole(object: Seq<u8>, size: u32) -> bool {
    forall|sbn: u32, esi: u32|
        sbn < layout::object_meta(object.len(), size).blocks.len() && esi < codec::ESI_LIMIT
            ==> (#[trigger] symbol_of(object, size, sbn, esi)).len() == size
}

/// What a [`SenderSession`] stands for.
#[verifier::ext_equal]
pub struct SenderView {
    pub config: SenderConfig,
    pub session_id: SessionIdRaw,
    /// The payload, padded to whole symbols.
    pub object: Seq<u8>,
    pub file: FileMetaView,
    pub segment: Option<SegmentView>,
    /// Source symbols emitted.
    pub source_cursor: int,
    /// Repair symbols emitted.
    pub repair_cursor: u64,
    /// Frames emitted.
    pub frame_index: u64,
    pub descriptor_interval: u32,
    pub started: bool,
    /// When the first frame was emitted.
    pub start_ms: u64,
    pub stats: StatsView,
}

impl SenderView {
    /// Bytes per symbol.
    pub open spec fn size(self) -> u32 {
        self.config.codec.symbol_size()
    }

    /// The metadata of the object.
    pub open spec fn meta(self) -> MetaView {
        layout::object_meta(self.object.len(), self.size())
    }

    /// The encoding symbol `esi` of block `sbn`.
    pub open spec fn symbol_bytes(self, sbn: u32, esi: u32) -> Seq<u8> {
        symbol_of(self.object, self.size(), sbn, esi)
    }

    /// A session that has emitted nothing.
    pub open spec fn fresh(
        payload: Seq<u8>,
        session_id: SessionIdRaw,
        config: SenderConfig,
        file: FileMetaView,
        segment: Option<SegmentView>,
    ) -> SenderView {
        SenderView {
            config,
            session_id,
            object: chunker::padded(payload, config.codec.symbol_size() as nat),
            file,
            segment,
            source_cursor: 0,
            repair_cursor: 0,
            frame_index: 0,
            descriptor_interval: DEFAULT_DESCRIPTOR_INTERVAL,
            started: false,
            start_ms: 0,
            stats: StatsView::empty(),
        }
    }

    /// The next frame is a descriptor: the very first one, and every
    /// `descriptor_interval`-th.
    pub open spec fn descriptor_due(self) -> bool {
        self.frame_index == 0 || self.frame_index as int % self.descriptor_interval as int == 0
    }

    /// The data symbol that comes next, if there is one left.
    pub open spec fn next_id(self) -> Option<(u32, u32)> {
        let plan = source_plan(self.meta().blocks);
        if self.source_cursor < plan.len() {
            Some(plan[self.source_cursor])
        } else {
            repair_id(self.meta().blocks, self.repair_cursor)
        }
    }

    /// The session after its next data symbol was picked.
    pub open spec fn id_taken(self) -> SenderView {
        if self.source_cursor < source_plan(self.meta().blocks).len() {
            SenderView { source_cursor: self.source_cursor + 1, ..self }
        } else {
            SenderView { repair_cursor: (self.repair_cursor + 1) as u64, ..self }
        }
    }

    /// The session with its clock started.
    pub open spec fn clock_started(self, started_at: u64) -> SenderView {
        if self.started {
            self
        } else {
            SenderView { started: true, start_ms: started_at, ..self }
        }
    }

    /// The session after a frame was emitted.
    pub open spec fn emitted(self, sampled_at: u64) -> SenderView {
        SenderView {
            frame_index: self.frame_index.wrapping_add(1),
            stats: self.stats.counted(sampled_at, self.size() as u64),
            ..self
        }
    }

    /// The descriptor frame that comes next.
    pub open spec fn descriptor_frame(self, now: u64) -> FrameView {
        descriptor::descriptor_frame(
            self.meta(),
            self.file,
            self.segment,
            self.session_id,
            self.frame_index.wrapping_add(1),
            now,
        )
    }

    /// The data frame that carries symbol `(sbn, esi)` and comes next.
    pub open spec fn data_frame(self, sbn: u32, esi: u32, now: u64) -> FrameView {
        FrameView::sealed(
            FrameHeader {
                session_id: self.session_id,
                flags: 0,
                sbn,
                esi,
                total_blocks: self.meta().blocks.len() as u32,
                total_symbols: meta::total_symbols(self.meta().blocks) as u32,
                symbol_size: self.size(),
                frame_index: self.frame_index.wrapping_add(1),
                timestamp_ms: now,
                payload_crc32: 0,
            },
            self.symbol_bytes(sbn, esi),
        )
    }

    /// The frame that comes next at time `now`, if there is one left.
    pub open spec fn next_frame(self, now: u64) -> Option<FrameView> {
        if self.descriptor_due() {
            Some(self.descriptor_frame(now))
        } else {
            match self.next_id() {
                Some((sbn, esi)) => Some(self.data_frame(sbn, esi, now)),
                None => None,
            }
        }
    }

    /// The session after it was asked for the next frame, where the clock read
    /// these times.
    pub open spec fn after_frame(self, started_at: u64, sampled_at: u64) -> SenderView {
        let s = self.clock_started(started_at);
        if self.descriptor_due() {
            s.emitted(sampled_at)
        } else if self.next_id() is Some {
            s.id_taken().emitted(sampled_at)
        } else {
            s
        }
    }

    /// The counters of the statistics have room for one more frame.
    pub open spec fn can_count(self) -> bool {
        self.stats.bytes + self.size() <= u64::MAX && self.stats.frames < u64::MAX
    }

    /// The object is encodable, its descriptor fits in a symbol, and the stream
    /// stands where emitting frames can bring it.
    pub open spec fn stream_wf(self) -> bool {
        &&& config::valid_symbol_size(self.size())
        &&& codec::encodable(self.object.len(), layout::mtu_for(self.size()))
        &&& self.object.len() <= usize::MAX
        &&& self.meta().oti.len() == 12
        &&& self.object.len() <= meta::MAX_OBJECT_BYTES ==> self.meta().valid()
        &&& symbols_whole(self.object, self.size())
        &&& descriptor::body_len(self.meta(), self.file, self.segment) <= self.size()
        &&& self.segment matches Some(s) ==> s.valid(self.session_id, self.file)
            && s.root_sha256.len() == 32 && s.raw_sha256.len() == 32
        &&& 0 <= self.source_cursor <= source_plan(self.meta().blocks).len()
        &&& self.repair_cursor > 0 ==> self.source_cursor == source_plan(self.meta().blocks).len()
        &&& self.repair_cursor <= 0x1_0000_0000
        &&& self.descriptor_interval >= 1
    }

    /// The stream and the statistics are as emitting frames can bring them about.
    pub open spec fn wf(self) -> bool {
        self.stream_wf() && self.stats.wf()
    }
}

impl View for SenderSession {
    type V = SenderView;

    closed spec fn view(&self) -> SenderView {
        SenderView {
            config: self.config,
            session_id: self.session_id,
            object: self.encoder.object(),
            file: self.file_meta@,
            segment: descriptor::segment_view(self.segment_meta),
            source_cursor: self.source_cursor as int,
            repair_cursor: self.repair_cursor,
            frame_index: self.frame_index,
            descriptor_interval: self.descriptor_interval,
            started: self.started,
            start_ms: self.start_ms,
            stats: self.stats@,
        }
    }
}

/// What starting a session with these arguments gives: the session, or the
/// first reason not to, in the order of the checks.
pub open spec fn is_new_session(
    r: Result<SenderSession, Error>,
    payload: Seq<u8>,
    session_id: SessionIdRaw,
    config: SenderConfig,
    file: FileMetaView,
    segment: Option<SegmentView>,
) -> bool {
    let fresh = SenderView::fresh(payload, session_id, config, file, segment);
    let need = descriptor::body_len(fresh.meta(), file, segment);
    match r {
        Ok(session) => {
            &&& config.valid()
            &&& payload.len() > 0
            &&& config::valid_symbol_size(config.codec.symbol_size())
            &&& need <= config.codec.symbol_size()
            &&& session.wf()
            &&& session@ == fresh
        },
        Err(e) => if !config.valid() {
            e == Error::InvalidRedundancy(config.redundancy_pct)
        } else if payload.len() == 0 {
            e == Error::Raptorq(crate::raptorq_core::Error::EmptyData)
        } else if !config::valid_symbol_size(config.codec.symbol_size()) {
            e == Error::Raptorq(crate::raptorq_core::Error::InvalidSymbolSize)
        } else {
            &&& need > config.codec.symbol_size()
            &&& e == Error::Protocol(
                crate::qr_protocol::Error::BufferTooShort {
                    need: need as usize,
                    have: config.codec.symbol_size() as usize,
                },
            )
        },
    }
}

/// The padded payload must fit in memory, and the codec takes at most 255 blocks
/// of 56403 symbols.
pub open spec fn encodable_payload(len: nat, config: SenderConfig) -> bool {
    let t = config.codec.symbol_size() as nat;
    &&& t > 0
    &&& len + t <= usize::MAX
    &&& config::valid_symbol_size(config.codec.symbol_size()) ==> codec::ceil_div(len, t) <= 255
        * codec::MAX_BLOCK_SYMBOLS
}

/// What fits in a segment can always be encoded.
pub proof fn lemma_segment_encodable(len: nat, config: SenderConfig)
    requires
        config::valid_symbol_size(config.codec.symbol_size()),
        len <= segment::SEGMENT_RAW_BYTES,
    ensures
        encodable_payload(len, config),
{
    let t = config.codec.symbol_size() as nat;
    layout::lemma_ceil_div(len, t);
    let c = codec::ceil_div(len, t);
    assert(c <= len) by (nonlinear_arith)
        requires
            c * t < len + t,
            t >= 64,
            c >= 0,
            len >= 0,
    ;
    assert(c * 64 <= c * t) by (nonlinear_arith)
        requires
            t >= 64,
            c >= 0,
    ;
}

/// A padded payload has the symbols it was padded to.
proof fn lemma_padded_symbols(len: nat, t: nat)
    requires
        t > 0,
    ensures
        codec::ceil_div(codec::ceil_div(len, t) * t, t) == codec::ceil_div(len, t),
        len > 0 ==> codec::ceil_div(len, t) * t > 0,
        len == 0 ==> codec::ceil_div(len, t) * t == 0,
        codec::ceil_div(len, t) * t < len + t,
        codec::ceil_div(len, t) * t >= len,
{
    let c = codec::ceil_div(len, t);
    layout::lemma_ceil_div(len, t);
    layout::lemma_ceil_div(c * t, t);
    let d = codec::ceil_div(c * t, t) as int;
    assert(d == c) by (nonlinear_arith)
        requires
            c * t <= d * t < c * t + t,
            t > 0,
    ;
    if len > 0 {
        assert(c * t > 0) by (nonlinear_arith)
            requires
                c >= 1,
                t > 0,
        ;
    } else {
        assert(c * t == 0) by (nonlinear_arith)
            requires
                c == 0,
        ;
    }
}

/// Whether a payload of `len` bytes can be cut into blocks under `config`.
pub fn can_encode(len: usize, config: SenderConfig) -> (can: bool)
    ensures
        can == encodable_payload(len as nat, config),
{
    let t: u32 = config.codec.symbol_size();
    if t == 0 || len > usize::MAX - t as usize {
        return false;
    }
    proof {
        layout::lemma_ceil_div(len as nat, t as nat);
    }
    let symbols: u64 = if len % t as usize == 0 {
        (len / t as usize) as u64
    } else {
        (len / t as usize) as u64 + 1
    };
    proof {
        lemma_rounded_up(len as int, t as int);
    }
    let valid = config::MIN_SYMBOL_SIZE <= t && t <= config::MAX_SYMBOL_SIZE && t % 8 == 0;
    !valid || symbols <= 255 * codec::MAX_BLOCK_SYMBOLS as u64
}

/// Rounding a quotient up.
proof fn lemma_rounded_up(n: int, t: int)
    requires
        0 <= n,
        0 < t,
    ensures
        (n + t - 1) / t == n / t + if n % t == 0 {
            0int
        } else {
            1
        },
{
    vstd::arithmetic::div_mod::lemma_fundamental_div_mod(n, t);
    let q = n / t;
    let r = n % t;
    assert(t * q == q * t) by (nonlinear_arith);
    if r == 0 {
        vstd::arithmetic::div_mod::lemma_fundamental_div_mod_converse(n + t - 1, t, q, t - 1);
    } else {
        assert(q * t + t == (q + 1) * t) by (nonlinear_arith);
        vstd::arithmetic::div_mod::lemma_fundamental_div_mod_converse(n + t - 1, t, q + 1, r - 1);
    }
}

impl SenderSession {
    /// The parts of the session agree with one another.
    pub closed spec fn inner_wf(self) -> bool {
        &&& self.encoder.wf()
        &&& self.encoder.size() == self.config.codec.symbol_size()
        &&& self.meta@ == self@.meta()
        &&& self.total_k == meta::total_symbols(self@.meta().blocks)
        &&& self.source_plan@ == source_plan(self@.meta().blocks)
        &&& self.source_plan@.len() > 0
    }

    /// The session is in a state that emitting frames can bring about.
    pub open spec fn wf(self) -> bool {
        self.inner_wf() && self@.wf()
    }

    /// Start a session for a payload.
    pub fn new(
        compressed_payload: &[u8],
        session_id: SessionId,
        config: SenderConfig,
        file_meta: FileMeta,
    ) -> (r: Result<Self, Error>)
        requires
            config.valid() ==> encodable_payload(compressed_payload@.len(), config),
        ensures
            is_new_session(r, compressed_payload@, session_id.0, config, file_meta@, None),
    {
        Self::new_inner(compressed_payload, session_id, config, file_meta, None)
    }

    /// Start a session for one segment of a large transfer. The segment must be
    /// valid, and as long as its metadata say.
    pub fn new_segment(
        compressed_payload: &[u8],
        child_session_id: SessionId,
        config: SenderConfig,
        file_meta: FileMeta,
        segment_meta: SegmentMeta,
    ) -> (r: Result<Self, Error>)
        requires
            config.valid() && file_meta@.compressed_size == compressed_payload@.len()
                && segment_meta@.valid(child_session_id.0, file_meta@) ==> encodable_payload(
                compressed_payload@.len(),
                config,
            ),
        ensures
            if file_meta@.compressed_size != compressed_payload@.len()
                || !file_meta@.compressed_size_known {
                r matches Err(e) && e matches Error::InvalidSegment(reason) && reason@
                    == "segment compressed size does not match payload"@
            } else if !segment_meta@.valid(child_session_id.0, file_meta@) {
                r matches Err(e) && e matches Error::InvalidSegment(reason)
                    && segment_meta@.rejection(child_session_id.0, file_meta@) == Some(reason@)
            } else {
                is_new_session(
                    r,
                    compressed_payload@,
                    child_session_id.0,
                    config,
                    file_meta@,
                    Some(segment_meta@),
                )
            },
    {
        assert(compressed_payload.len() <= u64::MAX);
        if file_meta.compressed_size != compressed_payload.len() as u64
            || !file_meta.compressed_size_known {
            return Err(Error::InvalidSegment("segment compressed size does not match payload"));
        }
        match segment_meta.validate(child_session_id.0, &file_meta) {
            Ok(_) => {},
            Err(reason) => {
                return Err(Error::InvalidSegment(reason));
            },
        }
        Self::new_inner(
            compressed_payload,
            child_session_id,
            config,
            file_meta,
            Some(segment_meta),
        )
    }

    fn new_inner(
        compressed_payload: &[u8],
        session_id: SessionId,
        config: SenderConfig,
        file_meta: FileMeta,
        segment_meta: Option<SegmentMeta>,
    ) -> (r: Result<Self, Error>)
        requires
            config.valid() ==> encodable_payload(compressed_payload@.len(), config),
            segment_meta matches Some(s) ==> s@.valid(session_id.0, file_meta@),
        ensures
            is_new_session(
                r,
                compressed_payload@,
                session_id.0,
                config,
                file_meta@,
                descriptor::segment_view(segment_meta),
            ),
    {
        match config.validate() {
            Ok(_) => {},
            Err(e) => {
                return Err(e);
            },
        }
        let ghost len = compressed_payload@.len();
        let ghost t = config.codec.symbol_size();
        let ghost seg = descriptor::segment_view(segment_meta);
        proof {
            lemma_padded_symbols(len, t as nat);
            if config::valid_symbol_size(t) {
                layout::lemma_symbol_size(t);
            }
        }
        let padded = chunker::pad_to_symbols(compressed_payload, config.codec);
        assert(padded@.len() == codec::ceil_div(len, t as nat) * t);
        assert(seg matches Some(s) ==> s.root_sha256.len() == 32 && s.raw_sha256.len() == 32);
        let encoder = match Encoder::new(&padded, config.codec) {
            Ok(encoder) => encoder,
            Err(e) => {
                return Err(Error::Raptorq(e));
            },
        };
        let meta = encoder.meta().clone();
        proof {
            layout::lemma_block_count(encoder.object().len(), layout::mtu_for(t));
            layout::lemma_meta_total_symbols(encoder.object().len(), t);
        }
        let built = match &segment_meta {
            Some(segment) => descriptor::build_segment_payload(&meta, &file_meta, segment),
            None => descriptor::build_payload(&meta, &file_meta),
        };
        match built {
            Ok(_) => {},
            Err(e) => {
                return Err(e);
            },
        }
        let total_k: u32 = descriptor::sum_symbols(&meta.blocks);
        let source_plan = build_source_plan(&meta);
        proof {
            lemma_plan_len(meta@.blocks);
        }
        let session = SenderSession {
            config,
            session_id: session_id.0,
            encoder,
            meta,
            file_meta,
            segment_meta,
            total_k,
            source_plan,
            source_cursor: 0,
            repair_cursor: 0,
            frame_index: 0,
            descriptor_interval: DEFAULT_DESCRIPTOR_INTERVAL,
            started: false,
            start_ms: 0,
            stats: Stats::default(),
        };
        proof {
            assert(session@ =~= SenderView::fresh(
                compressed_payload@,
                session_id.0,
                config,
                file_meta@,
                seg,
            ));
            assert(session.meta.oti_bytes@.len() == 12);
            let object = session@.object;
            let size = session@.size();
            assert forall|sbn: u32, esi: u32|
                sbn < layout::object_meta(object.len(), size).blocks.len() && esi
                    < codec::ESI_LIMIT implies (#[trigger] symbol_of(object, size, sbn, esi)).len()
                == size by {
                assert(session.encoder.symbol_bytes(sbn as int, esi as int).len()
                    == session.encoder.size());
            }
        }
        Ok(session)
    }

    /// Emit a descriptor every `interval` frames, at least every frame.
    pub fn set_descriptor_interval(&mut self, interval: u32)
        requires
            old(self).wf(),
        ensures
            final(self).wf(),
            final(self)@ == (SenderView {
                descriptor_interval: if interval < 1 {
                    1
                } else {
                    interval
                },
                ..old(self)@
            }),
    {
        self.descriptor_interval = if interval < 1 {
            1
        } else {
            interval
        };
    }

    /// How often a descriptor is emitted, in frames.
    pub fn descriptor_interval(&self) -> (interval: u32)
        ensures
            interval == self@.descriptor_interval,
    {
        self.descriptor_interval
    }

    /// Metadata of the object.
    pub fn meta(&self) -> (meta: &ObjectMeta)
        requires
            self.wf(),
        ensures
            meta@ == self@.meta(),
    {
        &self.meta
    }

    /// Metadata of the file.
    pub fn file_meta(&self) -> (file: &FileMeta)
        ensures
            file@ == self@.file,
    {
        &self.file_meta
    }

    /// Metadata of the segment, for a segment of a large transfer.
    pub fn segment_meta(&self) -> (segment: Option<&SegmentMeta>)
        ensures
            descriptor::borrowed_view(segment) == self@.segment,
    {
        match &self.segment_meta {
            Some(s) => Some(s),
            None => None,
        }
    }

    pub fn session_id(&self) -> (id: SessionIdRaw)
        ensures
            id == self@.session_id,
    {
        self.session_id
    }

    /// Source symbols of the object.
    pub fn total_k(&self) -> (k: u32)
        requires
            self.wf(),
        ensures
            k == meta::total_symbols(self@.meta().blocks),
    {
        self.total_k
    }

    /// Source blocks of the object.
    pub fn num_blocks(&self) -> (n: usize)
        requires
            self.wf(),
        ensures
            n == self@.meta().blocks.len(),
    {
        self.meta.blocks.len()
    }

    /// Emit the next frame, at the current time.
    pub fn next_frame(&mut self) -> (r: Result<Frame, Error>)
        requires
            old(self).wf(),
            old(self)@.can_count(),
        ensures
            final(self).wf(),
            exists|started_at: u64, now: u64, sampled_at: u64|
                time::was_read(started_at) && time::was_read(now) && time::was_read(sampled_at)
                    && #[trigger] is_next_frame(
                    r,
                    old(self)@,
                    final(self)@,
                    started_at,
                    now,
                    sampled_at,
                ),
    {
        let started_at: u64 = time::now_ms();
        let now: u64 = time::now_ms();
        let sampled_at: u64 = time::now_ms();
        self.next_frame_at(started_at, now, sampled_at)
    }

    /// Emit the next frame, where the clock reads `started_at` when the first
    /// frame is asked for, `now` when the frame is stamped, and `sampled_at`
    /// when it is counted.
    pub fn next_frame_at(&mut self, started_at: u64, now: u64, sampled_at: u64) -> (r: Result<
        Frame,
        Error,
    >)
        requires
            old(self).wf(),
            old(self)@.can_count(),
        ensures
            final(self).wf(),
            is_next_frame(r, old(self)@, final(self)@, started_at, now, sampled_at),
    {
        let ghost before = self@;
        let ghost s = before.clock_started(started_at);
        if self.source_plan.len() == 0 {
            return Err(Error::NoPayload);
        }
        if !self.started {
            self.start_ms = started_at;
            self.started = true;
        }
        assert(self@ =~= s);
        proof {
            layout::lemma_block_count(self@.object.len(), layout::mtu_for(self@.size()));
            layout::lemma_meta_total_symbols(self@.object.len(), self@.size());
            crate::transfer_engine::progress::law_window_bounded(
                before.stats,
                sampled_at,
                before.size() as u64,
            );
        }
        if self.frame_index == 0 || self.frame_index % self.descriptor_interval as u64 == 0 {
            self.frame_index = self.frame_index.wrapping_add(1);
            let built = match &self.segment_meta {
                Some(segment) => descriptor::build_segment_frame(
                    &self.meta,
                    &self.file_meta,
                    segment,
                    self.session_id,
                    self.frame_index,
                    now,
                ),
                None => descriptor::build_frame(
                    &self.meta,
                    &self.file_meta,
                    self.session_id,
                    self.frame_index,
                    now,
                ),
            };
            let frame = match built {
                Ok(frame) => frame,
                Err(e) => {
                    assert(false);
                    return Err(e);
                },
            };
            assert(frame@ == before.descriptor_frame(now));
            self.stats.record_sent_at(sampled_at, frame.payload.len() as u64);
            assert(self@ =~= before.after_frame(started_at, sampled_at));
            return Ok(frame);
        }
        let (sbn, esi) = match self.next_symbol_id() {
            Ok(id) => id,
            Err(e) => {
                return Err(e);
            },
        };
        assert(self@ == s.id_taken());
        let symbol = self.fetch_symbol(sbn, esi);
        self.frame_index = self.frame_index.wrapping_add(1);
        self.stats.record_sent_at(sampled_at, symbol.data.len() as u64);
        assert(self@ =~= before.after_frame(started_at, sampled_at));
        let frame = Frame::build(
            self.session_id,
            0,
            sbn,
            esi,
            self.meta.blocks.len() as u32,
            self.total_k,
            self.config.codec.symbol_size(),
            self.frame_index,
            now,
            &symbol.data,
        );
        assert(frame@ == before.data_frame(sbn, esi, now));
        Ok(frame)
    }

    fn fetch_symbol(&self, sbn: u32, esi: u32) -> (symbol: Symbol)
        requires
            self.wf(),
            sbn < self@.meta().blocks.len(),
            esi < codec::ESI_LIMIT,
        ensures
            symbol.id == (SymbolId { sbn, esi }),
            symbol.data@ == self@.symbol_bytes(sbn, esi),
            symbol.data@.len() == self@.size(),
    {
        proof {
            layout::lemma_block_symbols(self@.object.len(), self.encoder.mtu(), sbn as int);
            assert(self.encoder.symbol_bytes(sbn as int, esi as int).len() == self@.size());
        }
        let k: u32 = self.meta.blocks[sbn as usize].num_source_symbols;
        assert(k == self.encoder.k(sbn as int));
        if esi < k {
            match self.encoder.source_symbol(sbn, esi) {
                Ok(symbol) => symbol,
                Err(_) => {
                    assert(false);
                    Symbol::new(sbn, esi, Vec::new())
                },
            }
        } else {
            match self.encoder.repair_symbols(sbn, esi - k, 1) {
                Ok(mut symbols) => symbols.remove(0),
                Err(_) => {
                    assert(false);
                    Symbol::new(sbn, esi, Vec::new())
                },
            }
        }
    }

    /// Pick the next data symbol: the source symbols once, then fresh repair
    /// symbols. No symbol is ever picked twice.
    fn next_symbol_id(&mut self) -> (r: Result<(u32, u32), Error>)
        requires
            old(self).wf(),
        ensures
            final(self).wf(),
            match r {
                Ok(id) => {
                    &&& old(self)@.next_id() == Some(id)
                    &&& final(self)@ == old(self)@.id_taken()
                    &&& id.0 < old(self)@.meta().blocks.len()
                    &&& id.1 < codec::ESI_LIMIT
                },
                Err(e) => {
                    &&& old(self)@.next_id() is None
                    &&& final(self)@ == old(self)@
                    &&& e == Error::SymbolIdSpaceExhausted
                },
            },
    {
        proof {
            lemma_ids_in_range(self@);
        }
        if self.source_cursor < self.source_plan.len() {
            let id = self.source_plan[self.source_cursor];
            self.source_cursor = self.source_cursor + 1;
            return Ok(id);
        }
        let id = match repair_symbol_id(&self.meta.blocks, self.repair_cursor) {
            Some(id) => id,
            None => {
                return Err(Error::SymbolIdSpaceExhausted);
            },
        };
        self.repair_cursor = self.repair_cursor + 1;
        Ok(id)
    }

    /// Whether the statistics have room for `frames` more frames.
    pub fn has_room(&self, frames: u32) -> (room: bool)
        requires
            self.wf(),
        ensures
            room == room_for(self@, frames as int),
            frames == 1 ==> room == self@.can_count(),
    {
        let t: u64 = self.meta.symbol_size as u64;
        assert(0 <= frames * t <= 0xFFFF_FFFF * 65_528) by (nonlinear_arith)
            requires
                0 <= frames <= 0xFFFF_FFFF,
                0 <= t <= 65_528,
        ;
        assert(1 * t == t) by (nonlinear_arith);
        let more: u64 = frames as u64 * t;
        self.stats.total_bytes() <= u64::MAX - more && self.stats.total_frames() <= u64::MAX
            - frames as u64
    }

    /// Statistics at the current time.
    pub fn stats(&self) -> (stats: Stats)
        ensures
            exists|now: u64| time::was_read(now) && stats@ == #[trigger] stats_at(self@, now),
    {
        let now: u64 = time::now_ms();
        self.stats_at(now)
    }

    /// Statistics at the time `now`.
    pub fn stats_at(&self, now: u64) -> (stats: Stats)
        ensures
            stats@ == stats_at(self@, now),
    {
        let mut s = self.stats.clone();
        if self.started {
            s.set_elapsed(now.saturating_sub(self.start_ms));
        }
        s.finalize();
        assert(s@ =~= stats_at(self@, now));
        s
    }
}

/// The statistics of a session at the time `now`.
pub open spec fn stats_at(s: SenderView, now: u64) -> StatsView {
    if s.started {
        StatsView {
            elapsed_ms: if now < s.start_ms {
                0
            } else {
                (now - s.start_ms) as u64
            },
            ..s.stats
        }
    } else {
        s.stats
    }
}

/// `r` is the next frame of `before`, and `after` is the session that is left.
/// The only error is that the symbol ids are used up.
pub open spec fn is_next_frame(
    r: Result<Frame, Error>,
    before: SenderView,
    after: SenderView,
    started_at: u64,
    now: u64,
    sampled_at: u64,
) -> bool {
    &&& after == before.after_frame(started_at, sampled_at)
    &&& match r {
        Ok(frame) => before.next_frame(now) == Some(frame@),
        Err(e) => before.next_frame(now) is None && e == Error::SymbolIdSpaceExhausted,
    }
}

/// The next data symbol belongs to the object, and the repair cursor has room.
pub proof fn lemma_ids_in_range(s: SenderView)
    requires
        s.stream_wf(),
    ensures
        s.next_id() matches Some(id) ==> id.0 < s.meta().blocks.len() && id.1 < codec::ESI_LIMIT,
        s.next_id() is Some && s.source_cursor == source_plan(s.meta().blocks).len()
            ==> s.repair_cursor < 0x1_0000_0000,
{
    let blocks = s.meta().blocks;
    let mtu = layout::mtu_for(s.size());
    let n = blocks.len() as int;
    layout::lemma_symbol_size(s.size());
    layout::lemma_block_count(s.object.len(), mtu);
    lemma_plan_members(blocks);
    if s.next_id() is Some {
        if s.source_cursor < source_plan(blocks).len() {
            let id = source_plan(blocks)[s.source_cursor];
            assert(is_source_id(blocks, id));
            let b = choose|b: int|
                #![trigger blocks[b]]
                0 <= b < blocks.len() && blocks[b].sbn == id.0 && id.1
                    < blocks[b].num_source_symbols;
            layout::lemma_block_symbols(s.object.len(), mtu, b);
        } else {
            let c = s.repair_cursor as int;
            vstd::arithmetic::div_mod::lemma_fundamental_div_mod(c, n);
            let q = c / n;
            let r = c % n;
            layout::lemma_block_symbols(s.object.len(), mtu, r);
            assert(c < 0x1_0000_0000) by (nonlinear_arith)
                requires
                    c == n * q + r,
                    0 <= r < n,
                    n <= 255,
                    q < 0x100_0000,
            ;
        }
    }
}

/// Every entry of the source plan names a source symbol.
pub proof fn lemma_plan_members(blocks: Seq<SourceBlockMeta>)
    ensures
        forall|i: int|
            0 <= i < source_plan(blocks).len() ==> is_source_id(
                blocks,
                #[trigger] source_plan(blocks)[i],
            ),
{
    lemma_rounds_members(blocks, max_symbols(blocks) as int);
}

proof fn lemma_rounds_members(blocks: Seq<SourceBlockMeta>, n: int)
    requires
        0 <= n <= u32::MAX,
    ensures
        forall|i: int|
            0 <= i < plan_rounds(blocks, n).len() ==> is_source_id(
                blocks,
                #[trigger] plan_rounds(blocks, n)[i],
            ),
        forall|i: int|
            0 <= i < plan_rounds(blocks, n).len() ==> (#[trigger] plan_rounds(blocks, n)[i]).1 < n,
    decreases n,
{
    if n > 0 {
        lemma_rounds_members(blocks, n - 1);
        lemma_round_members(blocks, (n - 1) as u32);
        let head = plan_rounds(blocks, n - 1);
        let round = plan_round(blocks, (n - 1) as u32);
        assert forall|i: int| 0 <= i < plan_rounds(blocks, n).len() implies is_source_id(
            blocks,
            #[trigger] plan_rounds(blocks, n)[i],
        ) && plan_rounds(blocks, n)[i].1 < n by {
            if i < head.len() {
                assert(plan_rounds(blocks, n)[i] == head[i]);
            } else {
                assert(plan_rounds(blocks, n)[i] == round[i - head.len()]);
            }
        }
    }
}

/// The blocks are numbered in order.
pub open spec fn canonical(blocks: Seq<SourceBlockMeta>) -> bool {
    forall|b: int| 0 <= b < blocks.len() ==> (#[trigger] blocks[b]).sbn == b
}

/// The id of the `d`-th data symbol of a session.
pub open spec fn data_id(blocks: Seq<SourceBlockMeta>, d: int) -> Option<(u32, u32)> {
    let plan = source_plan(blocks);
    if d < plan.len() {
        Some(plan[d])
    } else {
        repair_id(blocks, (d - plan.len()) as u64)
    }
}

proof fn lemma_round_no_duplicates(blocks: Seq<SourceBlockMeta>, esi: u32)
    requires
        canonical(blocks),
    ensures
        plan_round(blocks, esi).no_duplicates(),
        forall|i: int|
            0 <= i < plan_round(blocks, esi).len() ==> (#[trigger] plan_round(blocks, esi)[i]).0
                < blocks.len(),
    decreases blocks.len(),
{
    if blocks.len() > 0 {
        let rest = blocks.drop_last();
        assert(canonical(rest)) by {
            assert forall|b: int| 0 <= b < rest.len() implies (#[trigger] rest[b]).sbn == b by {
                assert(rest[b] == blocks[b]);
            }
        }
        lemma_round_no_duplicates(rest, esi);
        assert(blocks[blocks.len() - 1].sbn == blocks.len() - 1);
    }
}

proof fn lemma_rounds_no_duplicates(blocks: Seq<SourceBlockMeta>, n: int)
    requires
        canonical(blocks),
        0 <= n <= u32::MAX,
    ensures
        plan_rounds(blocks, n).no_duplicates(),
    decreases n,
{
    if n > 0 {
        let head = plan_rounds(blocks, n - 1);
        let round = plan_round(blocks, (n - 1) as u32);
        lemma_rounds_no_duplicates(blocks, n - 1);
        lemma_rounds_members(blocks, n - 1);
        lemma_round_members(blocks, (n - 1) as u32);
        lemma_round_no_duplicates(blocks, (n - 1) as u32);
        let all = head + round;
        assert forall|i: int, j: int|
            0 <= i < all.len() && 0 <= j < all.len() && i != j implies all[i] != all[j] by {
            if i < head.len() {
                assert(all[i] == head[i] && head[i].1 < n - 1);
            } else {
                assert(all[i] == round[i - head.len()] && round[i - head.len()].1 == n - 1);
            }
            if j < head.len() {
                assert(all[j] == head[j] && head[j].1 < n - 1);
            } else {
                assert(all[j] == round[j - head.len()] && round[j - head.len()].1 == n - 1);
            }
        }
    }
}

proof fn lemma_rounds_contain(blocks: Seq<SourceBlockMeta>, n: int, b: int, esi: u32)
    requires
        0 <= b < blocks.len(),
        esi < blocks[b].num_source_symbols,
        esi < n <= u32::MAX,
    ensures
        plan_rounds(blocks, n).contains((blocks[b].sbn, esi)),
    decreases n,
{
    let id = (blocks[b].sbn, esi);
    let head = plan_rounds(blocks, n - 1);
    let round = plan_round(blocks, (n - 1) as u32);
    if esi == n - 1 {
        lemma_round_members(blocks, esi);
        let i = choose|i: int| 0 <= i < round.len() && round[i] == id;
        assert((head + round)[head.len() + i] == id);
    } else {
        lemma_rounds_contain(blocks, n - 1, b, esi);
        let i = choose|i: int| 0 <= i < head.len() && head[i] == id;
        assert((head + round)[i] == id);
    }
}

proof fn lemma_max_symbols(blocks: Seq<SourceBlockMeta>, b: int)
    requires
        0 <= b < blocks.len(),
    ensures
        blocks[b].num_source_symbols <= max_symbols(blocks),
    decreases blocks.len(),
{
    if b < blocks.len() - 1 {
        lemma_max_symbols(blocks.drop_last(), b);
    }
}

/// The source plan lists every source symbol of every block exactly once, and
/// nothing else.
pub proof fn law_plan_lists_each_source_symbol_once(blocks: Seq<SourceBlockMeta>)
    requires
        canonical(blocks),
    ensures
        source_plan(blocks).no_duplicates(),
        source_plan(blocks).len() == meta::total_symbols(blocks),
        forall|sbn: u32, esi: u32|
            #[trigger] source_plan(blocks).contains((sbn, esi)) <==> sbn < blocks.len() && esi
                < blocks[sbn as int].num_source_symbols,
{
    let plan = source_plan(blocks);
    lemma_plan_len(blocks);
    lemma_rounds_no_duplicates(blocks, max_symbols(blocks) as int);
    lemma_plan_members(blocks);
    assert forall|sbn: u32, esi: u32|
        #[trigger] plan.contains((sbn, esi)) <==> sbn < blocks.len() && esi
            < blocks[sbn as int].num_source_symbols by {
        if plan.contains((sbn, esi)) {
            let i = choose|i: int| 0 <= i < plan.len() && plan[i] == (sbn, esi);
            assert(is_source_id(blocks, plan[i]));
        }
        if sbn < blocks.len() && esi < blocks[sbn as int].num_source_symbols {
            lemma_max_symbols(blocks, sbn as int);
            lemma_rounds_contain(blocks, max_symbols(blocks) as int, sbn as int, esi);
        }
    }
}

/// Repair symbols serve the blocks in turn, are never source symbols, and stop
/// only where a block's ids are used up.
pub proof fn law_repair_round_robin(blocks: Seq<SourceBlockMeta>, cursor: u64)
    requires
        canonical(blocks),
        0 < blocks.len() <= u32::MAX,
    ensures
        ({
            let b = cursor as int % blocks.len() as int;
            let k = blocks[b].num_source_symbols;
            match repair_id(blocks, cursor) {
                Some((sbn, esi)) => sbn == b && k <= esi < codec::ESI_LIMIT && esi - k
                    == cursor as int / blocks.len() as int,
                None => k + cursor as int / blocks.len() as int >= codec::ESI_LIMIT,
            }
        }),
{
    let n = blocks.len() as int;
    vstd::arithmetic::div_mod::lemma_fundamental_div_mod(cursor as int, n);
    vstd::arithmetic::div_mod::lemma_div_pos_is_pos(cursor as int, n);
}

/// No session ever emits a data symbol twice: distinct positions in the stream
/// have distinct symbol ids.
pub proof fn law_no_symbol_twice(blocks: Seq<SourceBlockMeta>, c: int, d: int)
    requires
        canonical(blocks),
        0 < blocks.len() <= u32::MAX,
        0 <= c < d,
        d - source_plan(blocks).len() <= u64::MAX,
        data_id(blocks, c) is Some,
        data_id(blocks, d) is Some,
    ensures
        data_id(blocks, c) != data_id(blocks, d),
{
    let plan = source_plan(blocks);
    let n = blocks.len() as int;
    law_plan_lists_each_source_symbol_once(blocks);
    if d < plan.len() {
        assert(plan[c] != plan[d]);
    } else {
        let e = (d - plan.len()) as u64;
        law_repair_round_robin(blocks, e);
        let id = data_id(blocks, d)->0;
        if c < plan.len() {
            assert(plan.contains(plan[c]));
            assert(plan.contains((plan[c].0, plan[c].1)));
        } else {
            let a = (c - plan.len()) as u64;
            law_repair_round_robin(blocks, a);
            vstd::arithmetic::div_mod::lemma_fundamental_div_mod(a as int, n);
            vstd::arithmetic::div_mod::lemma_fundamental_div_mod(e as int, n);
        }
    }
}

/// A session's blocks are numbered in order, and the data symbol that comes next
/// is the one at its position in the stream.
pub proof fn law_stream_position(s: SenderView)
    requires
        s.stream_wf(),
    ensures
        canonical(s.meta().blocks),
        s.next_id() == data_id(s.meta().blocks, s.source_cursor + s.repair_cursor),
        s.id_taken().source_cursor + s.id_taken().repair_cursor == s.source_cursor
            + s.repair_cursor + 1,
{
    layout::lemma_block_count(s.object.len(), layout::mtu_for(s.size()));
}

/// Wherever a receiver joins the stream, a descriptor comes within one
/// descriptor interval.
pub proof fn law_descriptor_within_interval(s: SenderView, joined_at: u64) -> (frame_index: u64)
    requires
        s.descriptor_interval >= 1,
        joined_at + s.descriptor_interval <= u64::MAX,
    ensures
        joined_at <= frame_index < joined_at + s.descriptor_interval,
        (SenderView { frame_index, ..s }).descriptor_due(),
{
    let n = s.descriptor_interval as int;
    let i = joined_at as int;
    vstd::arithmetic::div_mod::lemma_fundamental_div_mod(i, n);
    vstd::arithmetic::div_mod::lemma_mod_bound(i, n);
    if i % n == 0 {
        joined_at
    } else {
        let j = i - i % n + n;
        let q = i / n + 1;
        assert(j == n * q) by (nonlinear_arith)
            requires
                i == n * (i / n) + i % n,
                j == i - i % n + n,
                q == i / n + 1,
        ;
        vstd::arithmetic::div_mod::lemma_mod_multiples_basic(q, n);
        assert(n * q == q * n) by (nonlinear_arith);
        j as u64
    }
}

/// On a screen that shows two or four codes at a time, descriptors visit every
/// slot within so many descriptor intervals as there are slots.
pub proof fn law_descriptors_visit_every_slot(slots: u64, slot: u64) -> (frame_index: u64)
    requires
        slots == 2 || slots == 4,
        slot < slots,
    ensures
        frame_index < 17 * slots,
        frame_index as int % DEFAULT_DESCRIPTOR_INTERVAL as int == 0,
        frame_index as int % slots as int == slot,
{
    let n = DEFAULT_DESCRIPTOR_INTERVAL as int;
    let frame_index = (17 * slot) as u64;
    assert(slot * n == 17 * slot) by (nonlinear_arith)
        requires
            n == 17,
    ;
    vstd::arithmetic::div_mod::lemma_mod_multiples_basic(slot as int, n);
    assert(slots == 2 ==> frame_index as int % 2 == slot);
    assert(slots == 4 ==> frame_index as int % 4 == slot);
    frame_index
}

/// Every frame of a session is accepted on the wire and parses to itself.
pub proof fn law_session_frames_parse(s: SenderView, now: u64)
    requires
        s.stream_wf(),
    ensures
        s.next_frame(now) matches Some(frame) ==> FrameView::read_error(frame.wire()) is None
            && FrameView::read(frame.wire()) == frame,
{
    if s.next_frame(now) is Some {
        let frame = s.next_frame(now)->0;
        if s.descriptor_due() {
            descriptor::lemma_payload_len(s.meta(), s.file, s.segment);
        } else {
            lemma_ids_in_range(s);
            let id = s.next_id()->0;
            assert(s.symbol_bytes(id.0, id.1).len() == s.size());
        }
        crate::qr_protocol::frame::law_frame_round_trip(frame.header, frame.payload);
        assert(frame == FrameView::sealed(frame.header, frame.payload));
    }
}

/// A session's descriptor tells a receiver the object's metadata, the file's
/// metadata with the name as far as it is carried, and the segment.
pub proof fn law_descriptor_describes_session(s: SenderView, now: u64)
    requires
        s.stream_wf(),
    ensures
        descriptor::parsed(s.descriptor_frame(now).payload) == Some(
            descriptor::DescriptorView {
                meta: s.meta(),
                file: descriptor::carried_file(s.meta(), s.file, s.segment),
                segment: s.segment,
            },
        ),
{
    layout::lemma_block_count(s.object.len(), layout::mtu_for(s.size()));
    descriptor::law_descriptor_round_trip(s.meta(), s.file, s.segment);
}

/// When the clock was read for a frame: to start the session, to stamp the frame
/// and to count it.
pub type FrameTimes = (u64, u64, u64);

impl SenderView {
    /// The session after it was asked for a frame at each of the times.
    pub open spec fn after_run(self, times: Seq<FrameTimes>) -> SenderView
        decreases times.len(),
    {
        if times.len() == 0 {
            self
        } else {
            self.after_run(times.drop_last()).after_frame(times.last().0, times.last().2)
        }
    }

    /// The frames that come of asking at each of the times.
    pub open spec fn run_frames(self, times: Seq<FrameTimes>) -> Seq<FrameView>
        decreases times.len(),
    {
        if times.len() == 0 {
            Seq::empty()
        } else {
            let rest = self.run_frames(times.drop_last());
            match self.after_run(times.drop_last()).next_frame(times.last().1) {
                Some(frame) => rest.push(frame),
                None => rest,
            }
        }
    }

    /// The session has emitted nothing.
    pub open spec fn at_start(self) -> bool {
        self.frame_index == 0 && self.source_cursor == 0 && self.repair_cursor == 0
    }
}

/// The symbol ids of the data frames among `frames`, in their order.
pub open spec fn data_ids(frames: Seq<FrameView>) -> Seq<(u32, u32)>
    decreases frames.len(),
{
    if frames.len() == 0 {
        Seq::empty()
    } else {
        let rest = data_ids(frames.drop_last());
        let header = frames.last().header;
        if header.flags & FLAG_DESCRIPTOR == 0 {
            rest.push((header.sbn, header.esi))
        } else {
            rest
        }
    }
}

/// Frame `k` of the session `s`, counted from zero: it carries its number, it is
/// a descriptor exactly every `descriptor_interval` frames, and it tells the
/// session and the shape of the object.
pub open spec fn is_frame_of(frame: FrameView, s: SenderView, k: int) -> bool {
    let header = frame.header;
    &&& header.frame_index == k + 1
    &&& header.flags & FLAG_DESCRIPTOR != 0 <==> k % s.descriptor_interval as int == 0
    &&& header.session_id == s.session_id
    &&& header.total_blocks == s.meta().blocks.len()
    &&& header.total_symbols == meta::total_symbols(s.meta().blocks)
    &&& header.symbol_size == s.meta().symbol_size
    &&& frame.payload.len() == header.symbol_size
}

/// Asking for a frame keeps the session as it should be, and changes neither the
/// object nor what is said of it.
pub proof fn lemma_frame_keeps_session(s: SenderView, started_at: u64, sampled_at: u64)
    requires
        s.stream_wf(),
    ensures
        ({
            let after = s.after_frame(started_at, sampled_at);
            &&& after.stream_wf()
            &&& after == (SenderView {
                source_cursor: after.source_cursor,
                repair_cursor: after.repair_cursor,
                frame_index: after.frame_index,
                started: after.started,
                start_ms: after.start_ms,
                stats: after.stats,
                ..s
            })
        }),
{
    lemma_ids_in_range(s);
}

/// The frame that comes next is the one of its number.
proof fn lemma_next_frame(s: SenderView, now: u64)
    requires
        s.stream_wf(),
        s.frame_index < u64::MAX,
    ensures
        s.next_frame(now) matches Some(frame) ==> is_frame_of(frame, s, s.frame_index as int),
        s.next_frame(now) matches Some(frame) ==> (frame.header.flags & FLAG_DESCRIPTOR == 0
            <==> !s.descriptor_due()),
        s.next_frame(now) matches Some(frame) ==> (!s.descriptor_due() ==> s.next_id() == Some(
            (frame.header.sbn, frame.header.esi),
        )),
{
    assert(1u8 & 1u8 != 0 && 0u8 & 1u8 == 0) by (bit_vector);
    layout::lemma_block_count(s.object.len(), layout::mtu_for(s.size()));
    layout::lemma_meta_total_symbols(s.object.len(), s.size());
    vstd::arithmetic::div_mod::lemma_small_mod(0, s.descriptor_interval as nat);
    if s.descriptor_due() {
        descriptor::lemma_payload_len(s.meta(), s.file, s.segment);
    } else {
        lemma_ids_in_range(s);
        if s.next_id() is Some {
            let id = s.next_id()->0;
            assert(s.symbol_bytes(id.0, id.1).len() == s.size());
        }
    }
}

proof fn lemma_run(s: SenderView, times: Seq<FrameTimes>)
    requires
        s.stream_wf(),
        s.at_start(),
        times.len() <= u64::MAX,
    ensures
        ({
            let end = s.after_run(times);
            let frames = s.run_frames(times);
            let ids = data_ids(frames);
            &&& end.stream_wf()
            &&& end == (SenderView {
                source_cursor: end.source_cursor,
                repair_cursor: end.repair_cursor,
                frame_index: end.frame_index,
                started: end.started,
                start_ms: end.start_ms,
                stats: end.stats,
                ..s
            })
            &&& end.frame_index == frames.len() <= times.len()
            &&& ids.len() == end.source_cursor + end.repair_cursor
            &&& forall|k: int| 0 <= k < frames.len() ==> is_frame_of(#[trigger] frames[k], s, k)
            &&& forall|d: int|
                0 <= d < ids.len() ==> data_id(s.meta().blocks, d) == Some(#[trigger] ids[d])
        }),
    decreases times.len(),
{
    if times.len() > 0 {
        let head = times.drop_last();
        lemma_run(s, head);
        let before = s.after_run(head);
        let (started_at, now, sampled_at) = times.last();
        lemma_frame_keeps_session(before, started_at, sampled_at);
        lemma_next_frame(before, now);
        law_stream_position(before);
        let rest = s.run_frames(head);
        if before.next_frame(now) is Some {
            let frame = before.next_frame(now)->0;
            assert(rest.push(frame).drop_last() =~= rest);
            assert(is_frame_of(frame, s, rest.len() as int));
        }
    }
}

/// The frames of a session are numbered from one on. The first one is a
/// descriptor, and so is every `descriptor_interval`-th after it. Each tells the
/// session id, the blocks and the source symbols of the object, and carries one
/// symbol's worth of bytes.
pub proof fn law_frames_are_numbered(s: SenderView, times: Seq<FrameTimes>, k: int)
    requires
        s.stream_wf(),
        s.at_start(),
        times.len() <= u64::MAX,
        0 <= k < s.run_frames(times).len(),
    ensures
        is_frame_of(s.run_frames(times)[k], s, k),
        s.after_run(times).frame_index == s.run_frames(times).len(),
{
    lemma_run(s, times);
}

/// The data frames of a session carry the source symbols in the order of the
/// source plan, each once, and after that repair symbols only. No symbol is
/// carried twice.
pub proof fn law_data_frames_follow_plan(s: SenderView, times: Seq<FrameTimes>)
    requires
        s.stream_wf(),
        s.at_start(),
        times.len() <= u64::MAX,
    ensures
        ({
            let blocks = s.meta().blocks;
            let plan = source_plan(blocks);
            let ids = data_ids(s.run_frames(times));
            &&& plan.len() == meta::total_symbols(blocks)
            &&& forall|d: int|
                0 <= d < ids.len() && d < plan.len() ==> #[trigger] ids[d] == plan[d]
            &&& forall|d: int|
                plan.len() <= d < ids.len() ==> {
                    &&& (#[trigger] ids[d]).0 < blocks.len()
                    &&& blocks[ids[d].0 as int].num_source_symbols <= ids[d].1 < codec::ESI_LIMIT
                }
            &&& ids.no_duplicates()
        }),
{
    let blocks = s.meta().blocks;
    let plan = source_plan(blocks);
    let ids = data_ids(s.run_frames(times));
    lemma_run(s, times);
    lemma_plan_len(blocks);
    law_stream_position(s);
    layout::lemma_block_count(s.object.len(), layout::mtu_for(s.size()));
    let end = s.after_run(times);
    assert(ids.len() <= plan.len() + 0x1_0000_0000);
    assert forall|d: int| plan.len() <= d < ids.len() implies (#[trigger] ids[d]).0 < blocks.len()
        && blocks[ids[d].0 as int].num_source_symbols <= ids[d].1 < codec::ESI_LIMIT by {
        let cursor = (d - plan.len()) as u64;
        law_repair_round_robin(blocks, cursor);
        vstd::arithmetic::div_mod::lemma_mod_bound(cursor as int, blocks.len() as int);
    }
    assert forall|c: int, d: int| 0 <= c < ids.len() && 0 <= d < ids.len() && c != d implies ids[c]
        != ids[d] by {
        assert(data_id(blocks, c) == Some(ids[c]) && data_id(blocks, d) == Some(ids[d]));
        if c < d {
            law_no_symbol_twice(blocks, c, d);
        } else {
            law_no_symbol_twice(blocks, d, c);
        }
    }
}

} // verus!
