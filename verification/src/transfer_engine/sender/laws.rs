//! What a sending session promises.
use crate::qr_protocol::chunker;
use crate::qr_protocol::frame::SessionIdRaw;
use crate::qr_protocol::Frame;
use crate::raptorq_core::codec;
use crate::raptorq_core::layout;
use crate::raptorq_core::meta;
use crate::raptorq_core::SourceBlockMeta;
use crate::transfer_engine::descriptor;
use crate::transfer_engine::descriptor::FileMetaView;
use crate::transfer_engine::segment::SegmentView;
use crate::transfer_engine::sender;
use crate::transfer_engine::sender::{FrameTimes, SenderConfig, SenderSession, SenderView};
use crate::transfer_engine::Error;
use vstd::prelude::*;

verus! {

/// Bytes that the descriptor of a session takes besides the file name.
pub open spec fn bytes_beside_name(s: SenderView) -> int {
    descriptor::laws::bytes_beside_name(s.meta(), s.segment)
}

/// A session starts exactly where the redundancy is from 5 to 50 percent, there is
/// a payload, the symbol size is accepted, and a symbol has room for the
/// descriptor with at least no name. It starts with the whole payload, padded, and
/// with nothing emitted.
pub proof fn law_session_starts_exactly(
    r: Result<SenderSession, Error>,
    payload: Seq<u8>,
    session_id: SessionIdRaw,
    config: SenderConfig,
    file: FileMetaView,
    segment: Option<SegmentView>,
)
    requires
        sender::is_new_session(r, payload, session_id, config, file, segment),
    ensures
        ({
            let t = config.codec.symbol_size();
            let fresh = SenderView::fresh(payload, session_id, config, file, segment);
            &&& r is Ok <==> {
                &&& 5 <= config.redundancy_pct <= 50
                &&& payload.len() > 0
                &&& 64 <= t <= 65_528 && t % 8 == 0
                &&& bytes_beside_name(fresh) <= t
            }
            &&& r matches Ok(session) ==> {
                let s = session@;
                &&& s.wf()
                &&& s.object == chunker::padded(payload, t as nat)
                &&& s.session_id == session_id
                &&& s.config == config
                &&& s.file == file
                &&& s.segment == segment
                &&& s.source_cursor == 0
                &&& s.repair_cursor == 0
                &&& s.frame_index == 0
                &&& s.descriptor_interval == 17
                &&& !s.started
                &&& s.stats.bytes == 0
                &&& s.stats.frames == 0
            }
        }),
{
    let fresh = SenderView::fresh(payload, session_id, config, file, segment);
    if bytes_beside_name(fresh) <= config.codec.symbol_size() {
        vstd::utf8::encode_utf8_valid_utf8(file.filename);
        vstd::utf8::is_char_boundary_start_end_of_seq(vstd::utf8::encode_utf8(file.filename));
        descriptor::laws::law_descriptor_carries_longest_name(fresh.meta(), file, segment, 0);
    } else {
        descriptor::laws::law_large_descriptor_does_not_fit(fresh.meta(), file, segment);
    }
}

/// The source symbols come in rounds: symbol 0 of every block in the order of the
/// blocks, then symbol 1, and so on.
pub proof fn law_plan_goes_in_rounds(blocks: Seq<SourceBlockMeta>, c: int, d: int)
    requires
        sender::canonical(blocks),
        0 <= c < d < sender::source_plan(blocks).len(),
    ensures
        ({
            let (p, q) = (sender::source_plan(blocks)[c], sender::source_plan(blocks)[d]);
            p.1 < q.1 || (p.1 == q.1 && p.0 < q.0)
        }),
{
    lemma_rounds_ordered(blocks, sender::max_symbols(blocks) as int, c, d);
}

proof fn lemma_round_ordered(blocks: Seq<SourceBlockMeta>, esi: u32)
    requires
        sender::canonical(blocks),
    ensures
        forall|i: int|
            0 <= i < sender::plan_round(blocks, esi).len() ==> (#[trigger] sender::plan_round(
                blocks,
                esi,
            )[i]).1 == esi && sender::plan_round(blocks, esi)[i].0 < blocks.len(),
        forall|i: int, j: int|
            0 <= i < j < sender::plan_round(blocks, esi).len() ==> (#[trigger] sender::plan_round(
                blocks,
                esi,
            )[i]).0 < (#[trigger] sender::plan_round(blocks, esi)[j]).0,
    decreases blocks.len(),
{
    if blocks.len() > 0 {
        let rest = blocks.drop_last();
        assert(sender::canonical(rest)) by {
            assert forall|b: int| 0 <= b < rest.len() implies (#[trigger] rest[b]).sbn == b by {
                assert(blocks[b].sbn == b);
            }
        }
        lemma_round_ordered(rest, esi);
        assert(blocks[blocks.len() - 1].sbn == blocks.len() - 1);
        let head = sender::plan_round(rest, esi);
        let round = sender::plan_round(blocks, esi);
        assert forall|i: int| 0 <= i < round.len() implies (#[trigger] round[i]).1 == esi
            && round[i].0 < blocks.len() by {
            if i < head.len() {
                assert(round[i] == head[i]);
            }
        }
        assert forall|i: int, j: int| 0 <= i < j < round.len() implies (#[trigger] round[i]).0 < (
        #[trigger] round[j]).0 by {
            assert(round[i] == head[i]);
            if j < head.len() {
                assert(round[j] == head[j]);
            }
        }
    }
}

proof fn lemma_rounds_ordered(blocks: Seq<SourceBlockMeta>, n: int, c: int, d: int)
    requires
        sender::canonical(blocks),
        n <= u32::MAX,
        0 <= c < d < sender::plan_rounds(blocks, n).len(),
    ensures
        ({
            let (p, q) = (sender::plan_rounds(blocks, n)[c], sender::plan_rounds(blocks, n)[d]);
            &&& p.1 < q.1 || (p.1 == q.1 && p.0 < q.0)
            &&& q.1 < n
        }),
    decreases n,
{
    if n > 0 {
        let before = sender::plan_rounds(blocks, n - 1);
        let round = sender::plan_round(blocks, (n - 1) as u32);
        lemma_round_ordered(blocks, (n - 1) as u32);
        if d < before.len() {
            lemma_rounds_ordered(blocks, n - 1, c, d);
        } else if c < before.len() {
            lemma_rounds_below(blocks, n - 1, c);
            assert(sender::plan_rounds(blocks, n)[d] == round[d - before.len()]);
        } else {
            assert(sender::plan_rounds(blocks, n)[c] == round[c - before.len()]);
            assert(sender::plan_rounds(blocks, n)[d] == round[d - before.len()]);
        }
    }
}

proof fn lemma_rounds_below(blocks: Seq<SourceBlockMeta>, n: int, c: int)
    requires
        sender::canonical(blocks),
        n <= u32::MAX,
        0 <= c < sender::plan_rounds(blocks, n).len(),
    ensures
        sender::plan_rounds(blocks, n)[c].1 < n,
    decreases n,
{
    if n > 0 {
        let before = sender::plan_rounds(blocks, n - 1);
        let round = sender::plan_round(blocks, (n - 1) as u32);
        lemma_round_ordered(blocks, (n - 1) as u32);
        if c < before.len() {
            lemma_rounds_below(blocks, n - 1, c);
        } else {
            assert(sender::plan_rounds(blocks, n)[c] == round[c - before.len()]);
        }
    }
}

/// The block whose turn it is, and its next repair id, by how many repair symbols
/// have been sent.
pub open spec fn repair_turn(s: SenderView) -> (int, int) {
    let n = s.meta().blocks.len() as int;
    let b = s.repair_cursor as int % n;
    (b, s.meta().blocks[b].num_source_symbols + s.repair_cursor as int / n)
}

/// The next frame is a descriptor where its number is a multiple of the interval.
/// Otherwise it carries the next symbol of the plan, and once the plan is through,
/// the next repair symbol of the block whose turn it is. Only where that block has
/// no id below 2^24 left is there no frame.
pub proof fn law_next_frame(s: SenderView, now: u64)
    requires
        s.stream_wf(),
        s.frame_index < u64::MAX,
    ensures
        ({
            let blocks = s.meta().blocks;
            let due = s.frame_index as int % s.descriptor_interval as int == 0;
            let sourcing = s.source_cursor < meta::total_symbols(blocks);
            let (b, esi) = repair_turn(s);
            let next = s.next_frame(now);
            &&& next is None <==> !due && !sourcing && esi >= 0x100_0000
            &&& next matches Some(f) ==> {
                &&& f.header.session_id == s.session_id
                &&& f.header.total_blocks == blocks.len()
                &&& f.header.total_symbols == meta::total_symbols(blocks)
                &&& f.header.symbol_size == s.size()
                &&& f.header.frame_index == s.frame_index + 1
                &&& f.header.timestamp_ms == now
                &&& f.header.flags == if due {
                    1u8
                } else {
                    0
                }
                &&& due ==> f.header.sbn == 0 && f.header.esi == 0 && f.payload
                    == descriptor::descriptor_payload(s.meta(), s.file, s.segment)
                &&& !due && sourcing ==> (f.header.sbn, f.header.esi) == sender::source_plan(
                    blocks,
                )[s.source_cursor]
                &&& !due && !sourcing ==> f.header.sbn == b && f.header.esi == esi
                &&& !due ==> f.payload == codec::encoded_block(
                    s.object,
                    (s.size() + 4) as u16,
                    f.header.sbn as int,
                )[f.header.esi as int]
            }
        }),
{
    let blocks = s.meta().blocks;
    sender::law_stream_position(s);
    sender::law_plan_lists_each_source_symbol_once(blocks);
    layout::lemma_symbol_size(s.size());
    layout::lemma_block_count(s.object.len(), layout::mtu_for(s.size()));
    layout::lemma_meta_total_symbols(s.object.len(), s.size());
    sender::law_repair_round_robin(blocks, s.repair_cursor);
    assert(meta::total_symbols(blocks) <= 255 * 56_403);
    if s.frame_index == 0 {
        vstd::arithmetic::div_mod::lemma_small_mod(0, s.descriptor_interval as nat);
    }
}

/// A frame moves the session on by one: a descriptor uses up no symbol, a data
/// frame uses up exactly the symbol that it carries. Every frame is counted with a
/// symbol's worth of bytes. The clock starts with the first request.
pub proof fn law_frame_moves_session_on(s: SenderView, started_at: u64, sampled_at: u64)
    requires
        s.stream_wf(),
        s.frame_index < u64::MAX,
        s.can_count(),
    ensures
        ({
            let after = s.after_frame(started_at, sampled_at);
            let due = s.frame_index as int % s.descriptor_interval as int == 0;
            let sourcing = s.source_cursor < meta::total_symbols(s.meta().blocks);
            let sent = due || sourcing || repair_turn(s).1 < 0x100_0000;
            &&& after.config == s.config
            &&& after.session_id == s.session_id
            &&& after.object == s.object
            &&& after.file == s.file
            &&& after.segment == s.segment
            &&& after.descriptor_interval == s.descriptor_interval
            &&& after.started
            &&& after.start_ms == if s.started {
                s.start_ms
            } else {
                started_at
            }
            &&& after.source_cursor == s.source_cursor + if !due && sourcing {
                1int
            } else {
                0
            }
            &&& after.repair_cursor == s.repair_cursor + if !due && !sourcing && sent {
                1int
            } else {
                0
            }
            &&& after.frame_index == s.frame_index + if sent {
                1int
            } else {
                0
            }
            &&& after.stats == if sent {
                s.stats.counted(sampled_at, s.size() as u64)
            } else {
                s.stats
            }
        }),
{
    law_next_frame(s, 0);
    sender::lemma_ids_in_range(s);
    sender::law_plan_lists_each_source_symbol_once(s.meta().blocks);
}

/// Every frame carries one symbol's worth of bytes.
pub proof fn lemma_next_frame_len(s: SenderView, now: u64)
    requires
        s.stream_wf(),
    ensures
        s.next_frame(now) matches Some(f) ==> f.payload.len() == s.size(),
{
    if s.next_frame(now) is Some {
        if s.descriptor_due() {
            descriptor::lemma_payload_len(s.meta(), s.file, s.segment);
        } else {
            sender::lemma_ids_in_range(s);
            let id = s.next_id()->0;
            assert(s.symbol_bytes(id.0, id.1).len() == s.size());
        }
    }
}

/// There is at most one frame for each request.
pub proof fn lemma_at_most_one_each(s: SenderView, times: Seq<FrameTimes>)
    ensures
        s.run_frames(times).len() <= times.len(),
    decreases times.len(),
{
    if times.len() > 0 {
        lemma_at_most_one_each(s, times.drop_last());
    }
}

/// Statistics tell the time since the first request, or none before it.
pub proof fn law_statistics_tell_time(s: SenderView, now: u64)
    ensures
        ({
            let told = sender::stats_at(s, now);
            &&& told.bytes == s.stats.bytes
            &&& told.frames == s.stats.frames
            &&& told.window == s.stats.window
            &&& s.started && now >= s.start_ms ==> told.elapsed_ms == now - s.start_ms
            &&& s.started && now < s.start_ms ==> told.elapsed_ms == 0
            &&& !s.started ==> told.elapsed_ms == s.stats.elapsed_ms
        }),
{
}

/// No payload can be sent in symbols without bytes.
pub proof fn law_empty_symbols_carry_nothing(len: nat, config: SenderConfig)
    requires
        config.codec.symbol_size() == 0,
    ensures
        !sender::encodable_payload(len, config),
{
}

/// A payload can be sent where it fits in memory with a symbol to spare and in 255
/// blocks of 56403 symbols.
pub proof fn law_payload_can_be_sent(len: nat, config: SenderConfig)
    requires
        64 <= config.codec.symbol_size() <= 65_528,
        config.codec.symbol_size() % 8 == 0,
    ensures
        sender::encodable_payload(len, config) <==> len + config.codec.symbol_size() <= usize::MAX
            && len <= 255 * 56_403 * config.codec.symbol_size(),
{
    let t = config.codec.symbol_size() as nat;
    layout::lemma_ceil_div(len, t);
    let c = codec::ceil_div(len, t);
    if c <= 255 * 56_403 {
        assert(len <= 255 * 56_403 * t) by (nonlinear_arith)
            requires
                len <= c * t,
                c <= 255 * 56_403,
        ;
    } else {
        assert(len > 255 * 56_403 * t) by (nonlinear_arith)
            requires
                c * t < len + t,
                c >= 255 * 56_403 + 1,
        ;
    }
}

/// Asking for a frame gives the next one, and fails only where the symbol ids are
/// used up.
pub proof fn law_request_gives_next_frame(
    r: Result<Frame, Error>,
    before: SenderView,
    after: SenderView,
    started_at: u64,
    now: u64,
    sampled_at: u64,
)
    requires
        sender::is_next_frame(r, before, after, started_at, now, sampled_at),
    ensures
        after == before.after_frame(started_at, sampled_at),
        r is Ok <==> before.next_frame(now) is Some,
        r matches Ok(frame) ==> before.next_frame(now) == Some(frame@),
        r matches Err(e) ==> e == Error::SymbolIdSpaceExhausted,
{
}

/// There is room for so many more frames exactly where neither counter overflows,
/// and each frame takes up one frame's room.
pub proof fn law_room_for_frames(s: SenderView, n: int, started_at: u64, sampled_at: u64)
    requires
        n >= 0,
    ensures
        sender::room_for(s, n) <==> s.stats.bytes + n * s.size() <= u64::MAX && s.stats.frames + n
            <= u64::MAX,
        s.can_count() <==> s.stats.bytes + s.size() <= u64::MAX && s.stats.frames < u64::MAX,
        sender::room_for(s, n + 1) ==> s.can_count() && sender::room_for(
            s.after_frame(started_at, sampled_at),
            n,
        ),
{
    let t = s.size() as int;
    assert((n + 1) * t == n * t + t) by (nonlinear_arith);
    assert(0 <= n * t) by (nonlinear_arith)
        requires
            n >= 0,
            t >= 0,
    ;
}

/// Redundancy is from 5 to 50 percent.
pub proof fn law_redundancy(config: SenderConfig)
    ensures
        config.valid() <==> 5 <= config.redundancy_pct <= 50,
{
}

} // verus!
