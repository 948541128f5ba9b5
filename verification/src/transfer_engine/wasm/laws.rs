//! What the browser bindings promise.
use crate::qr_protocol::frame;
use crate::qr_protocol::frame::FrameView;
use crate::qr_protocol::qr_render;
use crate::raptorq_core::layout;
use crate::transfer_engine::delivery;
use crate::transfer_engine::descriptor;
use crate::transfer_engine::descriptor::FileMetaView;
use crate::transfer_engine::joining;
use crate::transfer_engine::receiver::model::ReceiverView;
use crate::transfer_engine::segment::SegmentView;
use crate::transfer_engine::sender;
use crate::transfer_engine::sender::{FrameTimes, SenderConfig, SenderSession, SenderView};
use crate::transfer_engine::wasm;
use crate::transfer_engine::wasm::{
    ReceiverSessionWasm, Run, SenderSessionWasm, SenderWasmView, Shown, Stop, Tick,
};
use crate::transfer_engine::Error;
use crate::wire;
use vstd::prelude::*;

verus! {

/// The times of a run of frames.
pub open spec fn times_of(ticks: Seq<Tick>) -> Seq<FrameTimes> {
    ticks.map_values(|t: Tick| (t.started_at, t.now, t.sampled_at))
}

/// A code as hosts read it: the side, little-endian, and a byte per module.
pub open spec fn code_of(f: FrameView) -> Seq<u8> {
    let modules = qr_render::rendered(f.wire());
    wire::le32((17 + 4 * qr_render::version_for(f.wire().len() as int)) as u32) + Seq::new(
        modules.len(),
        |i: int|
            if modules[i] {
                1u8
            } else {
                0u8
            },
    )
}

/// The codes of `frames`, one after the other.
pub open spec fn codes_of(frames: Seq<FrameView>) -> Seq<u8>
    decreases frames.len(),
{
    if frames.len() == 0 {
        Seq::empty()
    } else {
        codes_of(frames.drop_last()) + code_of(frames.last())
    }
}

/// Every frame of the session fits in a code.
pub open spec fn fits_in_code(s: SenderView) -> bool {
    s.size() + 64 <= 2953
}

proof fn lemma_shown(s: SenderView, now: u64)
    requires
        s.stream_wf(),
        fits_in_code(s),
        s.next_frame(now) is Some,
    ensures
        wasm::shown(s, now) == Shown::Code((s.next_frame(now)->0).wire()),
        wasm::code_block((s.next_frame(now)->0).wire()) == code_of(s.next_frame(now)->0),
{
    broadcast use wire::group_be_len;

    let f = s.next_frame(now)->0;
    sender::laws::lemma_next_frame_len(s, now);
    assert(f.wire().len() == 64 + s.size());
    assert(wasm::code_block(f.wire()) =~= code_of(f));
}

proof fn lemma_run_of_codes(s: SenderView, ticks: Seq<Tick>)
    requires
        s.stream_wf(),
        fits_in_code(s),
        s.run_frames(times_of(ticks)).len() == ticks.len(),
    ensures
        ({
            let run = Run::start(s).over(ticks, None);
            &&& run.produced == ticks.len()
            &&& run.stop is None
            &&& run.session == s.after_run(times_of(ticks))
            &&& run.codes == codes_of(s.run_frames(times_of(ticks)))
            &&& run.session.stream_wf()
            &&& run.session.config == s.config
        }),
    decreases ticks.len(),
{
    let times = times_of(ticks);
    if ticks.len() > 0 {
        let rest = ticks.drop_last();
        assert(times.drop_last() =~= times_of(rest));
        sender::laws::lemma_at_most_one_each(s, times_of(rest));
        lemma_run_of_codes(s, rest);
        let before = s.after_run(times_of(rest));
        let t = ticks.last();
        assert(times.last() == (t.started_at, t.now, t.sampled_at));
        assert(before.next_frame(t.now) is Some);
        lemma_shown(before, t.now);
        let frames = s.run_frames(times);
        assert(frames.drop_last() =~= s.run_frames(times_of(rest)));
        sender::lemma_frame_keeps_session(before, t.started_at, t.sampled_at);
    }
}

/// A run goes on while there are frames that fit in a code, and a code that fits
/// into the room there is. It ends for good with the first that does not, and keeps
/// what it has.
pub proof fn law_run_step(run: Run, tick: Tick, room: Option<usize>)
    requires
        run.session.stream_wf(),
    ensures
        ({
            let after = run.step(tick, room);
            let next = run.session.next_frame(tick.now);
            let code = code_of(next->0);
            let fits = room matches Some(n) ==> run.codes.len() + code.len() <= n;
            &&& run.stop is Some ==> after == run
            &&& run.stop is None ==> {
                &&& after.session == run.session.after_frame(tick.started_at, tick.sampled_at)
                &&& after.stop is None <==> next is Some && fits_in_code(run.session) && fits
                &&& after.stop is None ==> after.codes == run.codes + code && after.produced
                    == run.produced + 1
                &&& after.stop is Some ==> after.codes == run.codes && after.produced
                    == run.produced
                &&& next is Some && fits_in_code(run.session) && !fits ==> after.stop == Some(
                    Stop::Overflow(code.len()),
                )
                &&& next is None ==> after.stop == Some(
                    Stop::NoCode(Error::SymbolIdSpaceExhausted.text()),
                )
                &&& next is Some && !fits_in_code(run.session) ==> after.stop == Some(
                    Stop::NoCode(wasm::refused_code((run.session.size() + 64) as nat)),
                )
            }
        }),
{
    broadcast use wire::group_be_len;

    let next = run.session.next_frame(tick.now);
    if next is Some {
        sender::laws::lemma_next_frame_len(run.session, tick.now);
        assert((next->0).wire().len() == 64 + run.session.size());
        if fits_in_code(run.session) {
            lemma_shown(run.session, tick.now);
        }
    }
}

proof fn lemma_run_grows(run: Run, ticks: Seq<Tick>, n: int, room: Option<usize>)
    requires
        0 <= n <= ticks.len(),
    ensures
        run.over(ticks.take(n), room).codes.len() <= run.over(ticks, room).codes.len(),
    decreases ticks.len() - n,
{
    if n < ticks.len() {
        lemma_run_grows(run, ticks, n + 1, room);
        assert(ticks.take(n + 1).drop_last() =~= ticks.take(n));
        assert(ticks.take(n + 1).last() == ticks[n]);
    } else {
        assert(ticks.take(n) =~= ticks);
    }
}

/// A run that fits into the room there is goes like one without bounds.
pub proof fn law_room_changes_nothing(run: Run, ticks: Seq<Tick>, room: usize)
    requires
        run.over(ticks, None).codes.len() <= room,
    ensures
        run.over(ticks, Some(room)) == run.over(ticks, None),
    decreases ticks.len(),
{
    if ticks.len() > 0 {
        let rest = ticks.drop_last();
        lemma_run_grows(run, ticks, rest.len() as int, None);
        assert(ticks.take(rest.len() as int) =~= rest);
        law_room_changes_nothing(run, rest, room);
    }
}

/// A batch is at most eight codes: their number, and the codes of the session's
/// next frames, none left out.
pub proof fn law_batch_holds_next_frames(
    r: Result<Vec<u8>, String>,
    before: SenderView,
    after: SenderView,
    ticks: Seq<Tick>,
    count: u32,
)
    requires
        wasm::is_batch(r, before, after, ticks, count),
        before.stream_wf(),
        fits_in_code(before),
        before.run_frames(times_of(ticks)).len() == ticks.len(),
    ensures
        ticks.len() == if count < 8 {
            count as int
        } else {
            8
        },
        after == before.after_run(times_of(ticks)),
        r matches Ok(out) && out@ == wire::le32(ticks.len() as u32) + codes_of(
            before.run_frames(times_of(ticks)),
        ),
{
    lemma_run_of_codes(before, ticks);
}

proof fn lemma_overlaid(buf: Seq<u8>, bytes: Seq<u8>)
    requires
        bytes.len() <= buf.len(),
    ensures
        wire::overlaid(buf, 0, bytes) == bytes + buf.skip(bytes.len() as int),
{
    assert(wire::overlaid(buf, 0, bytes) =~= bytes + buf.skip(bytes.len() as int));
}

proof fn lemma_batch_written(
    r: Result<u32, String>,
    before: SenderView,
    after: SenderView,
    buf_before: Seq<u8>,
    buf_after: Seq<u8>,
    ticks: Seq<Tick>,
    count: u32,
    run: Run,
)
    requires
        wasm::is_batch_into(r, before, after, buf_before, buf_after, ticks, count),
        buf_before.len() >= 4 + run.codes.len(),
        run == Run::start(before).over(ticks, Some((buf_before.len() - 4) as usize)),
        run.stop is None,
    ensures
        ticks.len() == wasm::batch_size(count),
        after == run.session,
        r matches Ok(n) && n == 4 + run.codes.len(),
        buf_after == run.buffer() + buf_before.skip(4 + run.codes.len() as int),
{
    assert(run.buffer().len() == 4 + run.codes.len());
    lemma_overlaid(buf_before, run.buffer());
}

/// The same batch, written over the start of a buffer with room for it.
#[verifier::rlimit(40)]
pub proof fn law_batch_fills_buffer(
    r: Result<u32, String>,
    before: SenderView,
    after: SenderView,
    buf_before: Seq<u8>,
    buf_after: Seq<u8>,
    ticks: Seq<Tick>,
    count: u32,
)
    requires
        wasm::is_batch_into(r, before, after, buf_before, buf_after, ticks, count),
        before.stream_wf(),
        fits_in_code(before),
        before.run_frames(times_of(ticks)).len() == ticks.len(),
        4 + codes_of(before.run_frames(times_of(ticks))).len() <= buf_before.len() <= usize::MAX,
    ensures
        ({
            let batch = wire::le32(ticks.len() as u32) + codes_of(
                before.run_frames(times_of(ticks)),
            );
            &&& ticks.len() == if count < 8 {
                count as int
            } else {
                8
            }
            &&& after == before.after_run(times_of(ticks))
            &&& r matches Ok(n)
            &&& n == batch.len()
            &&& buf_after == batch + buf_before.skip(batch.len() as int)
        }),
{
    lemma_run_of_codes(before, ticks);
    let run = Run::start(before).over(ticks, None);
    law_room_changes_nothing(Run::start(before), ticks, (buf_before.len() - 4) as usize);
    lemma_batch_written(r, before, after, buf_before, buf_after, ticks, count, run);
}

/// A code that cannot be had ends what goes into the scratch buffer, and is told. The
/// codes before it are there, without a count, and what is past them stays as it
/// was.
#[verifier::rlimit(40)]
pub proof fn law_scratch_ends_with_missing_code(
    r: Result<u32, String>,
    before: SenderWasmView,
    after: SenderWasmView,
    ticks: Seq<Tick>,
    count: u32,
)
    requires
        wasm::is_scratch(r, before, after, ticks, count),
        4 + Run::start(before.session).over(ticks, None).codes.len() <= before.scratch.len(),
    ensures
        ({
            let run = Run::start(before.session).over(ticks, None);
            let end = 4 + run.codes.len() as int;
            &&& after.session == run.session
            &&& r is Err <==> run.stop is Some && run.stop->0 is NoCode
            &&& r matches Err(message) ==> run.stop == Some(Stop::NoCode(message@))
                && after.scratch.take(4) == before.scratch.take(4)
            &&& after.scratch.len() == before.scratch.len()
            &&& after.scratch.subrange(4, end) == run.codes
            &&& after.scratch.skip(end) == before.scratch.skip(end)
        }),
{
    let run = Run::start(before.session).over(ticks, None);
    let end = 4 + run.codes.len() as int;
    assert(wire::le32(run.produced as u32).len() == 4);
    if r is Err {
        assert(after.scratch.take(4) =~= before.scratch.take(4));
    }
    assert(after.scratch.subrange(4, end) =~= run.codes);
    assert(after.scratch.skip(end) =~= before.scratch.skip(end));
}

/// The scratch buffer gets one to four codes in the same way.
#[verifier::rlimit(40)]
pub proof fn law_scratch_holds_next_frames(
    r: Result<u32, String>,
    before: SenderWasmView,
    after: SenderWasmView,
    ticks: Seq<Tick>,
    count: u32,
)
    requires
        wasm::is_scratch(r, before, after, ticks, count),
        before.session.stream_wf(),
        fits_in_code(before.session),
        before.session.run_frames(times_of(ticks)).len() == ticks.len(),
        4 + codes_of(before.session.run_frames(times_of(ticks))).len() <= before.scratch.len(),
    ensures
        ({
            let batch = wire::le32(ticks.len() as u32) + codes_of(
                before.session.run_frames(times_of(ticks)),
            );
            &&& ticks.len() == if count < 1 {
                1
            } else if count > 4 {
                4
            } else {
                count as int
            }
            &&& after.session == before.session.after_run(times_of(ticks))
            &&& r matches Ok(n)
            &&& n == batch.len()
            &&& after.scratch == batch + before.scratch.skip(batch.len() as int)
        }),
{
    lemma_run_of_codes(before.session, ticks);
    let run = Run::start(before.session).over(ticks, None);
    assert(run.buffer().len() == 4 + run.codes.len());
    lemma_overlaid(before.scratch, run.buffer());
}

/// One code is that of the session's next frame, and there is none only where
/// there is no frame.
pub proof fn law_next_code_is_of_next_frame(
    r: Result<Vec<u8>, String>,
    before: SenderView,
    after: SenderView,
    side_before: Seq<u32>,
    side_after: Seq<u32>,
    tick: Tick,
)
    requires
        wasm::is_next_qr(r, before, after, side_before, side_after, tick),
        before.stream_wf(),
        fits_in_code(before),
        side_before.len() > 0,
    ensures
        after == before.after_frame(tick.started_at, tick.sampled_at),
        r is Ok <==> before.next_frame(tick.now) is Some,
        r matches Ok(modules) ==> code_of(before.next_frame(tick.now)->0) == wire::le32(
            side_after[0],
        ) + modules@,
{
    if before.next_frame(tick.now) is Some {
        lemma_shown(before, tick.now);
        if let Ok(modules) = r {
            assert(code_of(before.next_frame(tick.now)->0) =~= wire::le32(side_after[0])
                + modules@);
        }
    }
}

/// The bytes of the next frame are accepted as that frame.
pub proof fn law_frame_bytes_parse(
    r: Result<Vec<u8>, String>,
    before: SenderView,
    after: SenderView,
    tick: Tick,
)
    requires
        wasm::is_frame_bytes(r, before, after, tick),
        before.stream_wf(),
    ensures
        after == before.after_frame(tick.started_at, tick.sampled_at),
        r is Ok <==> before.next_frame(tick.now) is Some,
        r matches Ok(bytes) ==> FrameView::read_error(bytes@) is None && Some(
            FrameView::read(bytes@),
        ) == before.next_frame(tick.now),
{
    sender::law_session_frames_parse(before, tick.now);
}

/// A browser's session starts exactly where a session starts, with the file as the
/// arguments tell it and the scratch buffer that four codes of any size need.
pub proof fn law_browser_session_starts_exactly(
    r: Result<SenderSessionWasm, String>,
    inner: Result<SenderSession, Error>,
    payload: Seq<u8>,
    session_id: u128,
    config: SenderConfig,
    file: FileMetaView,
    segment: Option<SegmentView>,
)
    requires
        wasm::is_single(r, inner, payload, session_id, config, file, segment),
    ensures
        ({
            let t = config.codec.symbol_size();
            let fresh = SenderView::fresh(payload, session_id, config, file, segment);
            &&& r is Ok <==> {
                &&& 5 <= config.redundancy_pct <= 50
                &&& payload.len() > 0
                &&& 64 <= t <= 65_528 && t % 8 == 0
                &&& descriptor::laws::bytes_beside_name(fresh.meta(), segment) <= t
            }
            &&& r matches Ok(session) ==> session.wf() && session@.session == fresh
                && session@.scratch.len() == 4 * (4 + 177 * 177) + 4
            &&& r matches Err(message) ==> inner matches Err(e) && message@ == e.text()
        }),
{
    sender::laws::law_session_starts_exactly(inner, payload, session_id, config, file, segment);
}

/// A browser's segment is refused exactly where a digest has another length than 32
/// bytes, or the segment has no place in its stream.
pub proof fn law_browser_segment_is_refused_exactly(
    root_sha256: Seq<u8>,
    raw_sha256: Seq<u8>,
    segment: SegmentView,
    child: u128,
    file: FileMetaView,
)
    ensures
        wasm::segment_refusal(root_sha256, raw_sha256, segment, child, file) is None
            <==> root_sha256.len() == 32 && raw_sha256.len() == 32 && segment.valid(child, file),
{
    joining::law_segment_is_valid_exactly(segment, child, file);
}

/// A receiver can be made from the descriptor of every session that sends a payload,
/// and from no data frame. It knows what the descriptor tells.
pub proof fn law_receiver_starts_from_descriptor(
    r: Result<ReceiverSessionWasm, String>,
    bytes: Seq<u8>,
    s: SenderView,
    payload: Seq<u8>,
    now: u64,
)
    requires
        wasm::is_from_descriptor(r, bytes),
        s.wf(),
        delivery::sends(s, payload),
        bytes == s.descriptor_frame(now).wire(),
    ensures
        r is Ok,
        r matches Ok(session) ==> {
            &&& session.wf()
            &&& session@.session_id == s.session_id
            &&& session@.meta() == Some(s.meta())
            &&& session@.segment == s.segment
            &&& session@.file.original_size == s.file.original_size
            &&& session@.file.crc32 == s.file.crc32
            &&& session@.file.compression == s.file.compression
            &&& session@.file.compressed_size == payload.len()
        },
{
    let f = s.descriptor_frame(now);
    layout::lemma_block_count(s.object.len(), layout::mtu_for(s.size()));
    descriptor::lemma_payload_len(s.meta(), s.file, s.segment);
    frame::law_frame_round_trip(f.header, f.payload);
    assert(f == FrameView::sealed(f.header, f.payload));
    assert(1u8 & 1u8 != 0) by (bit_vector);
    let v = ReceiverView::pending(s.session_id);
    delivery::law_waiting_receiver_takes_descriptor(v, s, payload, now);
}

/// No receiver is made from bytes that are no frame, nor from a data frame.
pub proof fn law_receiver_needs_descriptor(r: Result<ReceiverSessionWasm, String>, bytes: Seq<u8>)
    requires
        wasm::is_from_descriptor(r, bytes),
        FrameView::read_error(bytes) is Some || FrameView::read(bytes).header.flags & 1 == 0,
    ensures
        r is Err,
{
}

/// One code, written over the start of a buffer with room for it.
pub proof fn law_next_code_fills_buffer(
    r: Result<u32, String>,
    before: SenderView,
    after: SenderView,
    modules_before: Seq<u8>,
    modules_after: Seq<u8>,
    side_before: Seq<u32>,
    side_after: Seq<u32>,
    tick: Tick,
)
    requires
        wasm::is_next_qr_into(
            r,
            before,
            after,
            modules_before,
            modules_after,
            side_before,
            side_after,
            tick,
        ),
        before.stream_wf(),
        fits_in_code(before),
        side_before.len() > 0,
        before.next_frame(tick.now) is Some,
        code_of(before.next_frame(tick.now)->0).len() <= 4 + modules_before.len(),
    ensures
        ({
            let code = code_of(before.next_frame(tick.now)->0);
            &&& after == before.after_frame(tick.started_at, tick.sampled_at)
            &&& r matches Ok(n)
            &&& n == code.len() - 4
            &&& code == wire::le32(side_after[0]) + modules_after.take(n as int)
            &&& modules_after.len() == modules_before.len()
            &&& modules_after.skip(n as int) == modules_before.skip(n as int)
        }),
{
    lemma_shown(before, tick.now);
    let data = (before.next_frame(tick.now)->0).wire();
    let modules = wasm::module_bytes(qr_render::rendered(data));
    let code = code_of(before.next_frame(tick.now)->0);
    assert(code.len() == 4 + modules.len());
    lemma_overlaid(modules_before, modules);
    assert(modules_after.take(modules.len() as int) =~= modules);
    assert(modules_after.skip(modules.len() as int) =~= modules_before.skip(modules.len() as int));
    assert(wire::le32(side_after[0]) + modules =~= code);
}

/// The descriptor tells the file as a browser hands it over, with the length of the
/// payload itself.
pub proof fn law_browser_tells_file(
    payload: Seq<u8>,
    filename: Seq<char>,
    original_size: u64,
    crc32: u32,
    compression: u8,
)
    requires
        payload.len() <= u64::MAX,
    ensures
        ({
            let file = wasm::file_of(payload, filename, original_size, crc32, compression);
            &&& file.filename == filename
            &&& file.original_size == original_size
            &&& file.crc32 == crc32
            &&& file.compression == compression
            &&& file.compressed_size == payload.len()
            &&& file.compressed_size_known
            &&& file.crc32_known
        }),
{
}

/// Where there is nowhere to put the side, nothing happens. Where there is no code
/// for the next frame, the session goes on and the side stays as it was.
pub proof fn law_missing_code_leaves_side(
    r: Result<Vec<u8>, String>,
    before: SenderView,
    after: SenderView,
    side_before: Seq<u32>,
    side_after: Seq<u32>,
    tick: Tick,
)
    requires
        wasm::is_next_qr(r, before, after, side_before, side_after, tick),
        before.stream_wf(),
        side_before.len() == 0 || before.next_frame(tick.now) is None || !fits_in_code(before),
    ensures
        r is Err,
        side_after == side_before,
        after == if side_before.len() == 0 {
            before
        } else {
            before.after_frame(tick.started_at, tick.sampled_at)
        },
{
    lemma_not_shown(before, tick.now);
}

proof fn lemma_not_shown(s: SenderView, now: u64)
    requires
        s.stream_wf(),
    ensures
        s.next_frame(now) is None || !fits_in_code(s) ==> !(wasm::shown(s, now) is Code),
{
    broadcast use wire::group_be_len;

    if s.next_frame(now) is Some {
        sender::laws::lemma_next_frame_len(s, now);
        assert((s.next_frame(now)->0).wire().len() == 64 + s.size());
    }
}

/// The same holds of a code that is written into a buffer, and also where the buffer
/// is too small for it.
pub proof fn law_missing_code_leaves_buffers(
    r: Result<u32, String>,
    before: SenderView,
    after: SenderView,
    modules_before: Seq<u8>,
    modules_after: Seq<u8>,
    side_before: Seq<u32>,
    side_after: Seq<u32>,
    tick: Tick,
)
    requires
        wasm::is_next_qr_into(
            r,
            before,
            after,
            modules_before,
            modules_after,
            side_before,
            side_after,
            tick,
        ),
        before.stream_wf(),
        side_before.len() == 0 || before.next_frame(tick.now) is None || !fits_in_code(before)
            || code_of(before.next_frame(tick.now)->0).len() > 4 + modules_before.len(),
    ensures
        r is Err,
        modules_after == modules_before,
        side_after == side_before,
        after == if side_before.len() == 0 {
            before
        } else {
            before.after_frame(tick.started_at, tick.sampled_at)
        },
{
    lemma_not_shown(before, tick.now);
    if before.next_frame(tick.now) is Some && fits_in_code(before) {
        lemma_shown(before, tick.now);
    }
}

/// A batch that does not fit is refused. The codes that did fit are in the buffer,
/// without a count, and what is past them stays as it was. A buffer that cannot
/// hold a count is left alone.
#[verifier::rlimit(40)]
pub proof fn law_large_batch_is_refused(
    r: Result<u32, String>,
    before: SenderView,
    after: SenderView,
    buf_before: Seq<u8>,
    buf_after: Seq<u8>,
    ticks: Seq<Tick>,
    count: u32,
)
    requires
        wasm::is_batch_into(r, before, after, buf_before, buf_after, ticks, count),
        buf_before.len() <= usize::MAX,
    ensures
        buf_before.len() < 4 ==> r is Err && after == before && buf_after == buf_before,
        buf_before.len() >= 4 ==> ({
            let run = Run::start(before).over(ticks, Some((buf_before.len() - 4) as usize));
            let end = 4 + run.codes.len() as int;
            &&& after == run.session
            &&& r is Err <==> run.stop is Some && run.stop->0 is Overflow
            &&& buf_after.len() == buf_before.len()
            &&& r is Err ==> buf_after.take(4) == buf_before.take(4)
            &&& r is Ok ==> buf_after.take(4) == wire::le32(run.produced as u32)
            &&& buf_after.subrange(4, end) == run.codes
            &&& buf_after.skip(end) == buf_before.skip(end)
        }),
{
    if buf_before.len() >= 4 {
        let room = (buf_before.len() - 4) as usize;
        let run = Run::start(before).over(ticks, Some(room));
        wasm::lemma_within_room(Run::start(before), ticks, room);
        let end = 4 + run.codes.len() as int;
        assert(wire::le32(run.produced as u32).len() == 4);
        if r is Err {
            assert(buf_after.take(4) =~= buf_before.take(4));
        } else {
            assert(buf_after.take(4) =~= wire::le32(run.produced as u32));
        }
        assert(buf_after.subrange(4, end) =~= run.codes);
        assert(buf_after.skip(end) =~= buf_before.skip(end));
    }
}

} // verus!
