//! What a transfer delivers, from the sender's arguments to the receiver's
//! results.
use crate::qr_protocol::chunker;
use crate::qr_protocol::compress;
use crate::qr_protocol::frame::FrameView;
use crate::raptorq_core::layout;
use crate::transfer_engine::channel;
use crate::transfer_engine::descriptor;
use crate::transfer_engine::descriptor::DescriptorView;
use crate::transfer_engine::host;
use crate::transfer_engine::receiver::laws;
use crate::transfer_engine::receiver::model;
use crate::transfer_engine::receiver::model::{Assembly, ReceiverView};
use crate::transfer_engine::replay_cache;
use crate::transfer_engine::sender::SenderView;
use vstd::prelude::*;

verus! {

/// The session sends `payload`, padded to at most 32 MiB, under a known tag and
/// with its true length. Where it is no segment, the original has from one byte
/// to 256 MiB.
pub open spec fn sends(s: SenderView, payload: Seq<u8>) -> bool {
    &&& s.object == chunker::padded(payload, s.size() as nat)
    &&& s.object.len() <= 33_554_432
    &&& s.file.compression == 0 || s.file.compression == 1 || s.file.compression == 2
    &&& s.file.compressed_size == payload.len()
    &&& s.segment is None ==> 1 <= s.file.original_size <= 268_435_456
}

/// What a descriptor says of a file is what the sender was told, and the name as
/// far as it fits.
pub proof fn law_descriptor_tells_file(s: SenderView)
    requires
        s.wf(),
    ensures
        ({
            let told = channel::told_file(s);
            &&& told.original_size == s.file.original_size
            &&& told.crc32 == s.file.crc32
            &&& told.compression == s.file.compression
            &&& told.compressed_size == s.file.compressed_size
            &&& told.compressed_size_known
            &&& told.crc32_known
            &&& told.filename.is_prefix_of(s.file.filename)
            &&& vstd::utf8::encode_utf8(s.file.filename).len() <= 255 && 50 + 16
                * s.meta().blocks.len() + (if s.segment is Some {
                104int
            } else {
                0
            }) + vstd::utf8::encode_utf8(s.file.filename).len() <= s.size() ==> told.filename
                == s.file.filename
        }),
{
    descriptor::law_name_is_prefix(s.meta(), s.file, s.segment);
}

/// A receiver can take on the descriptor of every session that sends a payload
/// within these bounds, however the compressed and the original size compare.
proof fn lemma_sends_receivable(s: SenderView, payload: Seq<u8>)
    requires
        s.wf(),
        sends(s, payload),
    ensures
        channel::receivable(s),
        payload.len() <= s.object.len(),
{
    law_descriptor_tells_file(s);
    layout::lemma_ceil_div(payload.len(), s.size() as nat);
    let info = DescriptorView {
        meta: s.meta(),
        file: channel::told_file(s),
        segment: s.segment,
    };
    laws::law_descriptor_is_taken_on_exactly(s.descriptor_frame(0).header, info);
}

/// Every receiver that waits for the descriptor of a session takes it on, and
/// from then on knows the object, the file and the segment.
pub proof fn law_waiting_receiver_takes_descriptor(
    v: ReceiverView,
    s: SenderView,
    payload: Seq<u8>,
    now: u64,
)
    requires
        s.wf(),
        sends(s, payload),
        v.wf(),
        v.session_id == s.session_id,
        v.decoder is None,
    ensures
        ({
            let f = s.descriptor_frame(now);
            let after = v.after_frame(f.header, f.payload);
            &&& after.descriptor_seen
            &&& after.meta() == Some(s.meta())
            &&& after.segment == s.segment
            &&& after.file.original_size == s.file.original_size
            &&& after.file.crc32 == s.file.crc32
            &&& after.file.compression == s.file.compression
            &&& after.file.compressed_size == payload.len()
            &&& after.file.compressed_size_known
            &&& after.file.crc32_known
            &&& after.file.filename.is_prefix_of(s.file.filename)
        }),
{
    let f = s.descriptor_frame(now);
    lemma_sends_receivable(s, payload);
    law_descriptor_tells_file(s);
    layout::lemma_block_count(s.object.len(), layout::mtu_for(s.size()));
    layout::lemma_meta_total_symbols(s.object.len(), s.size());
    channel::law_descriptor_is_accepted(f, s);
    assert(1u8 & 1u8 != 0) by (bit_vector);
    laws::law_descriptor_replays_held_symbols(
        v,
        f.header,
        f.payload,
        DescriptorView { meta: s.meta(), file: channel::told_file(s), segment: s.segment },
    );
}

/// What was recovered is handed out exactly as transmitted: with the padding cut
/// off where its size is known and there are so many bytes, whether it is a
/// segment or not, and not before the object is complete.
pub proof fn law_payload_is_handed_out(v: ReceiverView)
    ensures
        host::trimmed_object(v) is Some <==> v.complete(),
        v.complete() && v.file.compressed_size_known && v.file.compressed_size
            <= v.decoder->0.assembled().len() ==> host::trimmed_object(v) == Some(
            v.decoder->0.assembled().take(v.file.compressed_size as int),
        ),
        v.complete() && !(v.file.compressed_size_known && v.file.compressed_size
            <= v.decoder->0.assembled().len()) ==> host::trimmed_object(v) == Some(
            v.decoder->0.assembled(),
        ),
{
}

/// A complete receiver of a session, segmented or not, hands out the payload that
/// the sender was given.
pub proof fn law_receiver_hands_out_payload(v: ReceiverView, s: SenderView, payload: Seq<u8>)
    requires
        s.wf(),
        v.wf(),
        channel::faithful(v, s),
        v.complete(),
        v.descriptor_seen,
        s.object == chunker::padded(payload, s.size() as nat),
        s.file.compressed_size == payload.len(),
    ensures
        host::trimmed_object(v) == Some(payload),
{
    channel::law_receiver_recovers_payload(v, s, payload);
    channel::law_receiver_recovers_object(v, s);
    law_descriptor_tells_file(s);
    layout::lemma_ceil_div(payload.len(), s.size() as nat);
    assert(s.object.take(payload.len() as int) =~= payload);
}

/// A descriptor that was accepted stays accepted.
proof fn lemma_descriptor_stays(v: ReceiverView, f: FrameView)
    requires
        v.descriptor_seen,
        v.decoder is Some,
    ensures
        v.after_frame(f.header, f.payload).descriptor_seen,
        v.after_frame(f.header, f.payload).decoder is Some,
        v.complete() ==> v.after_frame(f.header, f.payload).complete(),
{
}

/// A receiver that got a descriptor among genuine frames knows the session.
proof fn lemma_descriptor_among(frames: Seq<FrameView>, s: SenderView, payload: Seq<u8>, d: int)
    requires
        s.wf(),
        sends(s, payload),
        forall|i: int| 0 <= i < frames.len() ==> channel::genuine(#[trigger] frames[i], s),
        0 <= d < frames.len(),
        frames[d].header.flags == 1,
    ensures
        ({
            let v = channel::after_frames(ReceiverView::pending(s.session_id), frames);
            channel::faithful(v, s) && v.descriptor_seen && v.decoder is Some
        }),
    decreases frames.len(),
{
    let rest = frames.drop_last();
    let start = ReceiverView::pending(s.session_id);
    lemma_sends_receivable(s, payload);
    channel::law_new_receiver_is_faithful(s);
    channel::law_lossy_channel_keeps_faith(start, frames, s);
    assert forall|i: int| 0 <= i < rest.len() implies channel::genuine(#[trigger] rest[i], s) by {
        assert(rest[i] == frames[i]);
    }
    channel::law_lossy_channel_keeps_faith(start, rest, s);
    let prior = channel::after_frames(start, rest);
    if d == frames.len() - 1 {
        assert(channel::genuine(frames[d], s));
        channel::law_descriptor_confirms(prior, frames[d], s);
    } else {
        assert(rest[d] == frames[d]);
        lemma_descriptor_among(rest, s, payload, d);
        lemma_descriptor_stays(prior, frames.last());
    }
}

/// A file crosses the channel. Whatever genuine frames of a session reach a new
/// receiver, with losses, repeats and in any order, a descriptor among them: once
/// the receiver is complete it hands out the payload. Where the payload is what
/// a compressor made of an original of the size told, and no segment, the
/// receiver assembles that original.
pub proof fn law_transfer_delivers(
    frames: Seq<FrameView>,
    s: SenderView,
    payload: Seq<u8>,
    original: Seq<u8>,
    d: int,
)
    requires
        s.wf(),
        sends(s, payload),
        forall|i: int| 0 <= i < frames.len() ==> channel::genuine(#[trigger] frames[i], s),
        0 <= d < frames.len(),
        frames[d].header.flags == 1,
        channel::after_frames(ReceiverView::pending(s.session_id), frames).wf(),
        channel::after_frames(ReceiverView::pending(s.session_id), frames).complete(),
    ensures
        ({
            let v = channel::after_frames(ReceiverView::pending(s.session_id), frames);
            &&& host::trimmed_object(v) == Some(payload)
            &&& s.segment is None && s.file.original_size == original.len() && compress::recovers(
                payload,
                s.file.compression,
                original,
            ) ==> v.assembly() == Assembly::Done(original)
        }),
{
    let v = channel::after_frames(ReceiverView::pending(s.session_id), frames);
    lemma_descriptor_among(frames, s, payload, d);
    lemma_sends_receivable(s, payload);
    law_receiver_hands_out_payload(v, s, payload);
    if s.segment is None && s.file.original_size == original.len() && compress::recovers(
        payload,
        s.file.compression,
        original,
    ) {
        channel::law_receiver_recovers_file(v, s, payload, original);
    }
}

/// The data frame's symbol is held, or received, or no longer needed.
pub open spec fn kept(v: ReceiverView, f: FrameView) -> bool {
    match v.decoder {
        None => exists|i: int|
            0 <= i < v.cache.len() && (#[trigger] v.cache[i]).0 == f.header.sbn && v.cache[i].1
                == f.header.esi,
        Some(_) => v.complete() || f.header.sbn < v.received.len()
            && v.received[f.header.sbn as int].contains(f.header.esi),
    }
}

/// A frame that comes in does not lose a symbol that was kept, and keeps its own.
proof fn lemma_frame_keeps(v: ReceiverView, f: FrameView, s: SenderView)
    requires
        s.wf(),
        channel::receivable(s),
        channel::faithful(v, s),
        channel::genuine(f, s),
        v.cache.len() * laws::charge(s.size()) < 33_554_432,
    ensures
        ({
            let after = v.after_frame(f.header, f.payload);
            &&& after.cache.len() <= v.cache.len() + 1
            &&& f.header.flags != 1 ==> kept(after, f)
            &&& forall|g: FrameView|
                channel::genuine(g, s) && g.header.flags != 1 && #[trigger] kept(v, g) ==> kept(
                    after,
                    g,
                )
        }),
{
    let after = v.after_frame(f.header, f.payload);
    let counted = ReceiverView {
        session_mismatch_streak: 0,
        frames_seen: (v.frames_seen + 1) as u64,
        ..v
    };
    assert(1u8 & 1u8 != 0 && 0u8 & 1u8 == 0) by (bit_vector);
    layout::lemma_symbol_size(s.size());
    if f.header.flags == 1 {
        channel::law_descriptor_is_accepted(f, s);
        if v.decoder is None {
            let m = s.meta();
            let started = counted.with_decoder(m);
            laws::lemma_fresh_reached(counted, m);
            laws::law_replay_loses_no_symbol(started, v.cache);
            assert forall|g: FrameView|
                channel::genuine(g, s) && g.header.flags != 1 && #[trigger] kept(
                    v,
                    g,
                ) implies kept(after, g) by {
                let i = choose|i: int|
                    0 <= i < v.cache.len() && (#[trigger] v.cache[i]).0 == g.header.sbn
                        && v.cache[i].1 == g.header.esi;
                assert(s.symbol_bytes(v.cache[i].0, v.cache[i].1).len() == s.size());
                assert(laws::usable(v.cache[i], started.received.len(), started.symbol_size));
                assert(laws::brought(
                    v.cache,
                    started.received.len(),
                    started.symbol_size,
                    g.header.sbn as int,
                    g.header.esi,
                ));
                assert(started.replayed(v.cache).received[g.header.sbn as int].contains(
                    g.header.esi,
                ));
            }
        }
    } else if v.decoder is None {
        let c = laws::charge(s.size());
        let n = v.cache.len() as int;
        let q = (33_554_432 + c - 1) / c;
        vstd::arithmetic::div_mod::lemma_fundamental_div_mod(33_554_432 + c - 1, c);
        assert(n < q) by (nonlinear_arith)
            requires
                c > 0,
                0 <= (33_554_432 + c - 1) - c * q < c,
                n >= 0,
                n * c < 33_554_432,
        ;
        assert(model::cache_max(s.size()) == q);
        if !replay_cache::holds(v.cache, f.header.sbn, f.header.esi) {
            assert(after.cache[n] == (f.header.sbn, f.header.esi, f.payload));
            assert forall|g: FrameView| #[trigger] kept(v, g) implies kept(after, g) by {
                let i = choose|i: int|
                    0 <= i < v.cache.len() && (#[trigger] v.cache[i]).0 == g.header.sbn
                        && v.cache[i].1 == g.header.esi;
                assert(after.cache[i] == v.cache[i]);
            }
        }
    } else {
        assert(s.symbol_bytes(f.header.sbn, f.header.esi).len() == s.size());
        if v.complete() {
            assert(after.complete());
        } else {
            assert(after.received[f.header.sbn as int].contains(f.header.esi));
            assert(kept(after, f));
            assert forall|g: FrameView| #[trigger] kept(v, g) implies kept(after, g) by {
                assert(after.received[g.header.sbn as int].contains(g.header.esi));
            }
        }
    }
    assert(after.cache.len() <= v.cache.len() + 1);
    assert(f.header.flags != 1 ==> kept(after, f));
}

proof fn lemma_frames_keep(frames: Seq<FrameView>, s: SenderView)
    requires
        s.wf(),
        channel::receivable(s),
        forall|i: int| 0 <= i < frames.len() ==> channel::genuine(#[trigger] frames[i], s),
        frames.len() * laws::charge(s.size()) <= 33_554_432,
    ensures
        ({
            let v = channel::after_frames(ReceiverView::pending(s.session_id), frames);
            &&& channel::faithful(v, s)
            &&& v.cache.len() <= frames.len()
            &&& forall|i: int|
                0 <= i < frames.len() && (#[trigger] frames[i]).header.flags != 1 ==> kept(
                    v,
                    frames[i],
                )
        }),
    decreases frames.len(),
{
    let start = ReceiverView::pending(s.session_id);
    channel::law_new_receiver_is_faithful(s);
    if frames.len() > 0 {
        let rest = frames.drop_last();
        let f = frames.last();
        let c = laws::charge(s.size());
        let n = rest.len() as int;
        assert((n + 1) * c == n * c + c) by (nonlinear_arith);
        assert forall|i: int| 0 <= i < rest.len() implies channel::genuine(
            #[trigger] rest[i],
            s,
        ) by {
            assert(rest[i] == frames[i]);
        }
        lemma_frames_keep(rest, s);
        let prior = channel::after_frames(start, rest);
        let k = prior.cache.len() as int;
        assert(k * c <= n * c) by (nonlinear_arith)
            requires
                0 <= k <= n,
                c > 0,
        ;
        assert(channel::genuine(frames[frames.len() - 1], s));
        lemma_frame_keeps(prior, f, s);
        channel::law_genuine_frame_keeps_faith(prior, f, s);
        let v = channel::after_frames(start, frames);
        assert forall|i: int|
            0 <= i < frames.len() && (#[trigger] frames[i]).header.flags != 1 implies kept(
            v,
            frames[i],
        ) by {
            if i < rest.len() {
                assert(rest[i] == frames[i]);
                assert(kept(prior, frames[i]));
            }
        }
    }
}

/// No symbol that reaches the receiver is lost, whenever it comes: before the
/// descriptor or after it, source or repair. Once there is a descriptor, every
/// symbol among the frames is received, unless the object is complete. As many
/// frames are covered as the receiver's budget holds.
pub proof fn law_no_symbol_is_lost(
    frames: Seq<FrameView>,
    s: SenderView,
    payload: Seq<u8>,
    d: int,
    i: int,
)
    requires
        s.wf(),
        sends(s, payload),
        forall|j: int| 0 <= j < frames.len() ==> channel::genuine(#[trigger] frames[j], s),
        frames.len() * laws::charge(s.size()) <= 33_554_432,
        0 <= d < frames.len(),
        frames[d].header.flags == 1,
        0 <= i < frames.len(),
        frames[i].header.flags == 0,
    ensures
        ({
            let v = channel::after_frames(ReceiverView::pending(s.session_id), frames);
            v.complete() || v.received[frames[i].header.sbn as int].contains(
                frames[i].header.esi,
            )
        }),
{
    lemma_sends_receivable(s, payload);
    lemma_descriptor_among(frames, s, payload, d);
    lemma_frames_keep(frames, s);
    let v = channel::after_frames(ReceiverView::pending(s.session_id), frames);
    assert(kept(v, frames[i]));
}

} // verus!
