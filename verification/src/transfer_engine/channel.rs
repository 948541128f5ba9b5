//! What a sender and a receiver promise together.
//!
//! The channel between them is a screen and a camera: frames are lost, repeated
//! and reordered, but a frame that passes its checksums is one that the sender
//! emitted. Whatever selection of such frames reaches the receiver, in whatever
//! order, a receiver that is complete has the sender's payload.
use crate::qr_protocol::chunker;
use crate::qr_protocol::compress;
use crate::qr_protocol::frame::{FrameView, FLAG_DESCRIPTOR};
use crate::raptorq_core::codec;
use crate::raptorq_core::decoder;
use crate::raptorq_core::decoder::DecoderView;
use crate::raptorq_core::layout;
use crate::raptorq_core::meta;
use crate::raptorq_core::MAX_OBJECT_BYTES;
use crate::transfer_engine::descriptor;
use crate::transfer_engine::descriptor::{DescriptorView, FileMetaView};
use crate::transfer_engine::receiver::model;
use crate::transfer_engine::receiver::model::{Assembly, ReceiverView};
use crate::transfer_engine::sender;
use crate::transfer_engine::sender::SenderView;
use vstd::prelude::*;

verus! {

/// A frame that session `s` emits at some point: its descriptor, or one of its
/// encoding symbols.
pub open spec fn genuine(f: FrameView, s: SenderView) -> bool {
    &&& f.header.session_id == s.session_id
    &&& f.header.symbol_size == s.size()
    &&& f.header.total_blocks == s.meta().blocks.len()
    &&& f.header.total_symbols == meta::total_symbols(s.meta().blocks)
    &&& if f.header.flags == FLAG_DESCRIPTOR {
        f.payload == descriptor::descriptor_payload(s.meta(), s.file, s.segment)
    } else {
        &&& f.header.flags == 0
        &&& f.header.sbn < s.meta().blocks.len()
        &&& f.header.esi < codec::ESI_LIMIT
        &&& f.payload == s.symbol_bytes(f.header.sbn, f.header.esi)
    }
}

/// The file metadata that a receiver learns from session `s`.
pub open spec fn told_file(s: SenderView) -> FileMetaView {
    descriptor::carried_file(s.meta(), s.file, s.segment)
}

/// A receiver of session `s` takes on its descriptor.
pub open spec fn receivable(s: SenderView) -> bool {
    &&& s.object.len() <= MAX_OBJECT_BYTES
    &&& model::file_acceptable(told_file(s), s.meta(), s.segment)
}

/// Every id that block `b` of the decoder received reached the codec, unless the
/// block is reconstructed.
pub open spec fn ids_fed(d: DecoderView, received: Set<u32>, b: int) -> bool {
    forall|esi: u32| #[trigger]
        received.contains(esi) ==> d.blocks[b].decoded is Some || codec::holds_symbol(
            d.blocks[b].symbols,
            esi,
        )
}

/// What the receiver holds of a decoder is from session `s`.
pub open spec fn decoder_faithful(v: ReceiverView, s: SenderView) -> bool {
    v.decoder matches Some(d) ==> {
        &&& d.meta == s.meta()
        &&& d.blocks.len() == d.meta.blocks.len()
        &&& d.from_object(s.object)
        &&& v.received.len() == d.blocks.len()
        &&& v.symbol_size == s.size()
        &&& forall|b: int| 0 <= b < v.received.len() ==> #[trigger] ids_fed(d, v.received[b], b)
    }
}

/// Every symbol in `cache` is from session `s`.
pub open spec fn cache_faithful(cache: Seq<(u32, u32, Seq<u8>)>, s: SenderView) -> bool {
    forall|i: int|
        0 <= i < cache.len() ==> {
            &&& (#[trigger] cache[i]).0 < s.meta().blocks.len()
            &&& cache[i].1 < codec::ESI_LIMIT
            &&& cache[i].2 == s.symbol_bytes(cache[i].0, cache[i].1)
        }
}

/// What receiver `v` knows and holds is from session `s`.
pub open spec fn faithful(v: ReceiverView, s: SenderView) -> bool {
    &&& v.session_id == s.session_id
    &&& decoder_faithful(v, s)
    &&& cache_faithful(v.cache, s)
    &&& v.descriptor_seen ==> v.decoder is Some && v.file == told_file(s) && v.segment == s.segment
}

/// The receiver after `frames` came in.
pub open spec fn after_frames(v: ReceiverView, frames: Seq<FrameView>) -> ReceiverView
    decreases frames.len(),
{
    if frames.len() == 0 {
        v
    } else {
        after_frames(v, frames.drop_last()).after_frame(
            frames.last().header,
            frames.last().payload,
        )
    }
}

/// `a` and `b` are the same session at two points of its stream.
pub open spec fn same_stream(a: SenderView, b: SenderView) -> bool {
    &&& a.config == b.config
    &&& a.session_id == b.session_id
    &&& a.object == b.object
    &&& a.file == b.file
    &&& a.segment == b.segment
}

/// Emitting a frame moves a session along its stream, and every frame that it
/// emits, at whatever point and time, is genuine.
pub proof fn law_emitted_frames_are_genuine(
    start: SenderView,
    s: SenderView,
    started_at: u64,
    now: u64,
    sampled_at: u64,
)
    requires
        s.wf(),
        same_stream(start, s),
    ensures
        same_stream(start, s.after_frame(started_at, sampled_at)),
        s.next_frame(now) matches Some(f) ==> genuine(f, start),
{
    layout::lemma_block_count(s.object.len(), layout::mtu_for(s.size()));
    layout::lemma_meta_total_symbols(s.object.len(), s.size());
    layout::lemma_symbol_size(s.size());
    if s.next_frame(now) is Some && !s.descriptor_due() {
        sender::lemma_ids_in_range(s);
    }
}

/// A new receiver is faithful to any session with its identity.
pub proof fn law_new_receiver_is_faithful(s: SenderView)
    ensures
        faithful(ReceiverView::pending(s.session_id), s),
        faithful(ReceiverView::confirmed(s.session_id, s.meta()), s),
{
    let d = DecoderView::fresh(s.meta());
    assert forall|i: int| 0 <= i < d.blocks.len() implies #[trigger] d.block_from(
        s.object,
        i,
    ) by {}
}

/// A genuine symbol that is taken leaves the receiver faithful.
proof fn lemma_took_faithful(v: ReceiverView, s: SenderView, sbn: u32, esi: u32)
    requires
        s.wf(),
        faithful(v, s),
        v.decoder is Some,
        sbn < v.received.len(),
        esi < codec::ESI_LIMIT,
    ensures
        faithful(v.took(sbn, esi, s.symbol_bytes(sbn, esi)), s),
{
    let data = s.symbol_bytes(sbn, esi);
    let d = v.decoder->0;
    let after = v.took(sbn, esi, data);
    let e = after.decoder->0;
    decoder::law_genuine_symbols_stay(d, s.object, sbn, esi);
    assert(data.len() == s.size());
    assert(e.from_object(s.object));
    assert forall|b: int| 0 <= b < after.received.len() implies #[trigger] ids_fed(
        e,
        after.received[b],
        b,
    ) by {
        assert(ids_fed(d, v.received[b], b));
        if b == sbn && d.blocks[b].decoded is None {
            let symbols = d.blocks[b].symbols;
            let more = e.blocks[b].symbols;
            assert(more == codec::with_symbol(symbols, esi, data));
            assert forall|id: u32| #[trigger] after.received[b].contains(id) implies e.blocks[b].decoded is Some
                || codec::holds_symbol(more, id) by {
                if id == esi && !codec::holds_symbol(symbols, esi) {
                    assert(more[symbols.len() as int].0 == esi);
                } else {
                    assert(codec::holds_symbol(symbols, id));
                    let i = choose|i: int|
                        0 <= i < symbols.len() && (#[trigger] symbols[i]).0 == id;
                    assert(more[i] == symbols[i]);
                }
            }
        }
    }
}

/// Replaying genuine symbols leaves the receiver faithful.
proof fn lemma_replayed_faithful(
    v: ReceiverView,
    s: SenderView,
    symbols: Seq<(u32, u32, Seq<u8>)>,
)
    requires
        s.wf(),
        faithful(v, s),
        v.decoder is Some,
        cache_faithful(symbols, s),
    ensures
        faithful(v.replayed(symbols), s),
        v.replayed(symbols).decoder is Some,
    decreases symbols.len(),
{
    if symbols.len() > 0 {
        let rest = symbols.drop_last();
        let last = symbols.last();
        assert(cache_faithful(rest, s)) by {
            assert forall|i: int| 0 <= i < rest.len() implies {
                &&& (#[trigger] rest[i]).0 < s.meta().blocks.len()
                &&& rest[i].1 < codec::ESI_LIMIT
                &&& rest[i].2 == s.symbol_bytes(rest[i].0, rest[i].1)
            } by {
                assert(rest[i] == symbols[i]);
            }
        }
        lemma_replayed_faithful(v, s, rest);
        assert(symbols[symbols.len() - 1] == last);
        let prior = v.replayed(rest);
        assert(s.symbol_bytes(last.0, last.1).len() == s.size());
        if !prior.received[last.0 as int].contains(last.1) {
            lemma_took_faithful(prior, s, last.0, last.1);
        }
    }
}

/// The descriptor of a receivable session is accepted and tells the session's
/// metadata.
pub proof fn law_descriptor_is_accepted(f: FrameView, s: SenderView)
    requires
        s.wf(),
        receivable(s),
        genuine(f, s),
        f.header.flags == FLAG_DESCRIPTOR,
    ensures
        ({
            let info = DescriptorView { meta: s.meta(), file: told_file(s), segment: s.segment };
            &&& descriptor::parsed(f.payload) == Some(info)
            &&& model::descriptor_acceptable(f.header, info)
        }),
{
    sender::law_descriptor_describes_session(s, 0);
}

/// The descriptor of a receivable session gives a faithful receiver the
/// metadata.
pub proof fn law_descriptor_confirms(v: ReceiverView, f: FrameView, s: SenderView)
    requires
        s.wf(),
        receivable(s),
        faithful(v, s),
        genuine(f, s),
        f.header.flags == FLAG_DESCRIPTOR,
    ensures
        ({
            let after = v.after_frame(f.header, f.payload);
            &&& faithful(after, s)
            &&& after.descriptor_seen
            &&& after.meta() == Some(s.meta())
        }),
{
    law_descriptor_is_accepted(f, s);
    assert(1u8 & 1u8 != 0) by (bit_vector);
    let counted = ReceiverView {
        session_mismatch_streak: 0,
        frames_seen: (v.frames_seen + 1) as u64,
        ..v
    };
    if v.decoder is None {
        let started = counted.with_decoder(s.meta());
        law_new_receiver_is_faithful(s);
        assert(faithful(ReceiverView::confirmed(s.session_id, s.meta()), s));
        assert(started.decoder == ReceiverView::confirmed(s.session_id, s.meta()).decoder);
        assert(started.received == ReceiverView::confirmed(s.session_id, s.meta()).received);
        assert(decoder_faithful(started, s));
        assert(faithful(started, s));
        lemma_replayed_faithful(started, s, v.cache);
        model::lemma_replayed_keeps(started, v.cache);
    }
}

/// A genuine frame leaves a faithful receiver faithful.
pub proof fn law_genuine_frame_keeps_faith(v: ReceiverView, f: FrameView, s: SenderView)
    requires
        s.wf(),
        receivable(s),
        faithful(v, s),
        genuine(f, s),
    ensures
        faithful(v.after_frame(f.header, f.payload), s),
{
    assert(1u8 & 1u8 != 0) by (bit_vector);
    assert(0u8 & 1u8 == 0) by (bit_vector);
    if f.header.flags == FLAG_DESCRIPTOR {
        law_descriptor_confirms(v, f, s);
    } else {
        let counted = ReceiverView {
            session_mismatch_streak: 0,
            frames_seen: (v.frames_seen + 1) as u64,
            ..v
        };
        assert(decoder_faithful(counted, s));
        assert(faithful(counted, s));
        if v.decoder is Some {
            assert(s.symbol_bytes(f.header.sbn, f.header.esi).len() == s.size());
            lemma_took_faithful(counted, s, f.header.sbn, f.header.esi);
        } else {
            let after = v.after_frame(f.header, f.payload);
            assert forall|i: int| 0 <= i < after.cache.len() implies {
                &&& (#[trigger] after.cache[i]).0 < s.meta().blocks.len()
                &&& after.cache[i].1 < codec::ESI_LIMIT
                &&& after.cache[i].2 == s.symbol_bytes(after.cache[i].0, after.cache[i].1)
            } by {
                if i < v.cache.len() {
                    assert(after.cache[i] == v.cache[i]);
                }
            }
        }
    }
}

/// Whatever genuine frames come in, with losses, repeats and in any order, a
/// faithful receiver stays faithful.
pub proof fn law_lossy_channel_keeps_faith(v: ReceiverView, frames: Seq<FrameView>, s: SenderView)
    requires
        s.wf(),
        receivable(s),
        faithful(v, s),
        forall|i: int| 0 <= i < frames.len() ==> genuine(#[trigger] frames[i], s),
    ensures
        faithful(after_frames(v, frames), s),
    decreases frames.len(),
{
    if frames.len() > 0 {
        let rest = frames.drop_last();
        assert forall|i: int| 0 <= i < rest.len() implies genuine(#[trigger] rest[i], s) by {
            assert(rest[i] == frames[i]);
        }
        law_lossy_channel_keeps_faith(v, rest, s);
        assert(genuine(frames[frames.len() - 1], s));
        law_genuine_frame_keeps_faith(after_frames(v, rest), frames.last(), s);
    }
}

/// A faithful receiver that has every source symbol of the object is complete.
pub proof fn law_source_symbols_complete(v: ReceiverView, s: SenderView)
    requires
        v.wf(),
        faithful(v, s),
        v.decoder is Some,
        forall|b: int, esi: u32|
            0 <= b < v.received.len() && esi < s.meta().blocks[b].num_source_symbols
                ==> #[trigger] v.received[b].contains(esi),
    ensures
        v.complete(),
{
    let d = v.decoder->0;
    assert forall|b: int| 0 <= b < d.blocks.len() implies (#[trigger] d.blocks[b]).decoded is Some by {
        assert(d.block_sound(b));
        assert(ids_fed(d, v.received[b], b));
        decoder::lemma_valid_decodable(d.meta, b);
        if d.blocks[b].decoded is None {
            let k = codec::decoder_k(d.meta.oti, d.meta.blocks[b].block_length);
            assert forall|esi: u32| esi < k implies #[trigger] codec::holds_symbol(
                d.blocks[b].symbols,
                esi,
            ) by {
                assert(v.received[b].contains(esi));
            }
        }
    }
}

/// A faithful receiver that is complete has the object that the sender encoded.
pub proof fn law_receiver_recovers_object(v: ReceiverView, s: SenderView)
    requires
        s.wf(),
        v.wf(),
        faithful(v, s),
        v.complete(),
    ensures
        v.decoder->0.assembled() == s.object,
{
    decoder::law_decoder_recovers_object(v.decoder->0, s.object);
}

/// A faithful receiver that is complete and has the descriptor recovers the
/// payload that the sender was given, without the padding, where the sender was
/// told its true size.
pub proof fn law_receiver_recovers_payload(v: ReceiverView, s: SenderView, payload: Seq<u8>)
    requires
        s.wf(),
        v.wf(),
        faithful(v, s),
        v.complete(),
        v.descriptor_seen,
        s.object == chunker::padded(payload, s.size() as nat),
        s.file.compressed_size == payload.len(),
    ensures
        v.trimmed() == payload,
{
    law_receiver_recovers_object(v, s);
    layout::lemma_ceil_div(payload.len(), s.size() as nat);
    assert(v.trimmed() =~= payload);
}

/// A faithful receiver that is complete and has the descriptor assembles the
/// original file, where the sender was given what a compressor made of it,
/// together with the true sizes.
pub proof fn law_receiver_recovers_file(
    v: ReceiverView,
    s: SenderView,
    payload: Seq<u8>,
    original: Seq<u8>,
)
    requires
        s.wf(),
        receivable(s),
        v.wf(),
        faithful(v, s),
        v.complete(),
        v.descriptor_seen,
        s.object == chunker::padded(payload, s.size() as nat),
        s.segment is None,
        s.file.compressed_size == payload.len(),
        s.file.original_size == original.len(),
        compress::recovers(payload, s.file.compression, original),
    ensures
        v.assembly() == Assembly::Done(original),
{
    law_receiver_recovers_object(v, s);
    law_receiver_recovers_payload(v, s, payload);
    compress::law_limit_is_exact(payload, s.file.compression, original, v.output_cap());
}

} // verus!
