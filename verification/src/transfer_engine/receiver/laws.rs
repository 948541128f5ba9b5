//! What receiver sessions promise, in terms of the frames that come in.
use crate::qr_protocol::compress;
use crate::qr_protocol::FrameHeader;
use crate::raptorq_core::codec;
use crate::raptorq_core::decoder;
use crate::raptorq_core::decoder::DecoderView;
use crate::raptorq_core::meta;
use crate::raptorq_core::meta::MetaView;
use crate::raptorq_core::ObjectMeta;
use crate::transfer_engine::descriptor;
use crate::transfer_engine::descriptor::{DescriptorView, FileMetaView};
use crate::transfer_engine::receiver;
use crate::transfer_engine::receiver::model;
use crate::transfer_engine::receiver::model::{Assembly, ReceiverView};
use crate::transfer_engine::replay_cache;
use crate::transfer_engine::resume;
use crate::transfer_engine::resume::ResumeView;
use crate::transfer_engine::{Error, ReceiverSession};
use vstd::prelude::*;

verus! {

/// A symbol, source or repair, of an object with so many blocks and this symbol
/// size.
pub open spec fn usable(s: (u32, u32, Seq<u8>), blocks: nat, size: u32) -> bool {
    s.0 < blocks && s.1 < 0x100_0000 && s.2.len() == size
}

/// How many of `symbols` are of no use to such an object.
pub open spec fn useless_count(
    symbols: Seq<(u32, u32, Seq<u8>)>,
    blocks: nat,
    size: u32,
) -> nat
    decreases symbols.len(),
{
    if symbols.len() == 0 {
        0
    } else {
        useless_count(symbols.drop_last(), blocks, size) + if usable(symbols.last(), blocks, size) {
            0nat
        } else {
            1
        }
    }
}

/// Symbol `esi` of block `b` is among the usable ones of `symbols`.
pub open spec fn brought(
    symbols: Seq<(u32, u32, Seq<u8>)>,
    blocks: nat,
    size: u32,
    b: int,
    esi: u32,
) -> bool {
    exists|i: int|
        0 <= i < symbols.len() && usable(#[trigger] symbols[i], blocks, size) && symbols[i].0 == b
            && symbols[i].1 == esi
}

/// The codec got symbol `esi` of block `b`, or had reconstructed the block
/// without it.
pub open spec fn reached_codec(d: DecoderView, b: int, esi: u32) -> bool {
    d.blocks[b].decoded is Some || exists|j: int|
        0 <= j < d.blocks[b].symbols.len() && (#[trigger] d.blocks[b].symbols[j]).0 == esi
}

/// Every id that was received reached the codec, and the codec was heard out.
pub open spec fn all_reached(v: ReceiverView) -> bool {
    v.decoder matches Some(d) ==> {
        &&& d.settled()
        &&& d.blocks.len() == v.received.len()
        &&& d.meta.symbol_size == v.symbol_size
        &&& forall|b: int, esi: u32|
            0 <= b < v.received.len() && #[trigger] v.received[b].contains(esi) ==> reached_codec(
                d,
                b,
                esi,
            )
    }
}

proof fn lemma_brought_step(
    symbols: Seq<(u32, u32, Seq<u8>)>,
    blocks: nat,
    size: u32,
    b: int,
    esi: u32,
)
    requires
        symbols.len() > 0,
    ensures
        brought(symbols, blocks, size, b, esi) <==> brought(
            symbols.drop_last(),
            blocks,
            size,
            b,
            esi,
        ) || usable(symbols.last(), blocks, size) && symbols.last().0 == b && symbols.last().1
            == esi,
{
    let rest = symbols.drop_last();
    let n = symbols.len() - 1;
    if brought(symbols, blocks, size, b, esi) {
        let i = choose|i: int|
            0 <= i < symbols.len() && usable(#[trigger] symbols[i], blocks, size) && symbols[i].0
                == b && symbols[i].1 == esi;
        if i < n {
            assert(rest[i] == symbols[i]);
        }
    }
    if brought(rest, blocks, size, b, esi) {
        let i = choose|i: int|
            0 <= i < rest.len() && usable(#[trigger] rest[i], blocks, size) && rest[i].0 == b
                && rest[i].1 == esi;
        assert(symbols[i] == rest[i]);
    }
    assert(symbols[n] == symbols.last());
}

/// A symbol that is taken reaches the codec, and so did those before it.
proof fn lemma_took_reaches(v: ReceiverView, sbn: u32, esi: u32, data: Seq<u8>)
    requires
        v.decoder is Some,
        all_reached(v),
        sbn < v.received.len(),
        esi < 0x100_0000,
        data.len() == v.symbol_size,
    ensures
        all_reached(v.took(sbn, esi, data)),
        v.took(sbn, esi, data).decoder is Some,
        v.took(sbn, esi, data).received.len() == v.received.len(),
{
    let d = v.decoder->0;
    let after = v.took(sbn, esi, data);
    let e = after.decoder->0;
    decoder::law_decoder_stays_settled(d, sbn, esi, data);
    let s = sbn as int;
    if d.blocks[s].decoded is None {
        decoder::law_symbol_reaches_codec(d, sbn, esi, data);
    } else {
        decoder::law_useless_symbol_is_ignored(d, sbn, esi, data);
    }
    assert forall|b: int, id: u32|
        0 <= b < after.received.len() && #[trigger] after.received[b].contains(id) implies reached_codec(
        e,
        b,
        id,
    ) by {
        if b == s && d.blocks[s].decoded is None {
            let held = d.blocks[s].symbols;
            let more = e.blocks[s].symbols;
            if id == esi {
                if !(exists|j: int| 0 <= j < held.len() && (#[trigger] held[j]).0 == esi) {
                    assert(more[held.len() as int].0 == esi);
                }
            } else {
                assert(v.received[b].contains(id));
                let j = choose|j: int| 0 <= j < held.len() && (#[trigger] held[j]).0 == id;
                assert(more[j] == held[j]);
            }
        } else if b != s {
            assert(v.received[b].contains(id));
            assert(e.blocks[b] == d.blocks[b]);
        }
    }
}

/// Replaying stored symbols loses none that is of use: afterwards exactly the
/// ids received before and those of the usable symbols are received, each
/// reached the codec, and every block is reconstructed as far as the codec can.
/// Each symbol that is of no use counts as discarded, and nothing else changes.
pub proof fn law_replay_loses_no_symbol(v: ReceiverView, symbols: Seq<(u32, u32, Seq<u8>)>)
    requires
        v.decoder is Some,
        all_reached(v),
    ensures
        ({
            let after = v.replayed(symbols);
            let n = v.received.len();
            &&& after.decoder is Some
            &&& after.decoder->0.meta == v.decoder->0.meta
            &&& all_reached(after)
            &&& after.received.len() == n
            &&& forall|b: int, esi: u32|
                0 <= b < n ==> (#[trigger] after.received[b].contains(esi)
                    <==> v.received[b].contains(esi) || brought(
                    symbols,
                    n,
                    v.symbol_size,
                    b,
                    esi,
                ))
            &&& v.frames_corrupt + symbols.len() <= u64::MAX ==> after.frames_corrupt
                == v.frames_corrupt + useless_count(symbols, n, v.symbol_size)
            &&& useless_count(symbols, n, v.symbol_size) <= symbols.len()
            &&& after == ReceiverView {
                decoder: after.decoder,
                received: after.received,
                frames_corrupt: after.frames_corrupt,
                ..v
            }
        }),
    decreases symbols.len(),
{
    if symbols.len() > 0 {
        let rest = symbols.drop_last();
        let s = symbols.last();
        let n = v.received.len();
        law_replay_loses_no_symbol(v, rest);
        let prior = v.replayed(rest);
        let after = v.replayed(symbols);
        if usable(s, n, v.symbol_size) && !prior.received[s.0 as int].contains(s.1) {
            lemma_took_reaches(prior, s.0, s.1, s.2);
            assert(after == prior.took(s.0, s.1, s.2));
        }
        assert forall|b: int, esi: u32| 0 <= b < n implies (#[trigger] after.received[b].contains(
            esi,
        ) <==> v.received[b].contains(esi) || brought(symbols, n, v.symbol_size, b, esi)) by {
            lemma_brought_step(symbols, n, v.symbol_size, b, esi);
            assert(prior.received[b].contains(esi) <==> v.received[b].contains(esi) || brought(
                rest,
                n,
                v.symbol_size,
                b,
                esi,
            ));
        }
    } else {
        assert forall|b: int, esi: u32| 0 <= b < v.received.len() implies !#[trigger] brought(
            symbols,
            v.received.len(),
            v.symbol_size,
            b,
            esi,
        ) by {}
    }
}

/// Symbols with distinct ids, all usable, count one each.
proof fn lemma_distinct_symbols_count(v: ReceiverView, symbols: Seq<(u32, u32, Seq<u8>)>)
    requires
        v.decoder is Some,
        all_reached(v),
        replay_cache::distinct(symbols),
        forall|i: int|
            0 <= i < symbols.len() ==> usable(
                #[trigger] symbols[i],
                v.received.len(),
                v.symbol_size,
            ),
        forall|b: int|
            0 <= b < v.received.len() ==> (#[trigger] v.received[b]) == Set::<u32>::empty(),
    ensures
        resume::total_ids(v.replayed(symbols).received) == symbols.len(),
    decreases symbols.len(),
{
    if symbols.len() == 0 {
        model::lemma_total_ids_empty(v.received);
    } else {
        let rest = symbols.drop_last();
        let s = symbols.last();
        let n = v.received.len();
        assert forall|i: int, j: int| 0 <= i < j < rest.len() implies !((#[trigger] rest[i]).0 == (
        #[trigger] rest[j]).0 && rest[i].1 == rest[j].1) by {
            assert(rest[i] == symbols[i] && rest[j] == symbols[j]);
        }
        assert forall|i: int| 0 <= i < rest.len() implies usable(
            #[trigger] rest[i],
            n,
            v.symbol_size,
        ) by {
            assert(rest[i] == symbols[i]);
        }
        lemma_distinct_symbols_count(v, rest);
        law_replay_loses_no_symbol(v, rest);
        let prior = v.replayed(rest);
        assert(usable(symbols[symbols.len() - 1], n, v.symbol_size));
        let b = s.0 as int;
        assert(!prior.received[b].contains(s.1)) by {
            if brought(rest, n, v.symbol_size, b, s.1) {
                let i = choose|i: int|
                    0 <= i < rest.len() && usable(#[trigger] rest[i], n, v.symbol_size)
                        && rest[i].0 == b && rest[i].1 == s.1;
                assert(symbols[i] == rest[i] && symbols[symbols.len() - 1] == s);
            }
            assert(v.received[b] == Set::<u32>::empty());
        }
        model::lemma_total_ids_insert(prior.received, b, s.1);
    }
}

/// A session with a fresh decoder has nothing that could be missing.
pub proof fn lemma_fresh_reached(v: ReceiverView, m: MetaView)
    ensures
        all_reached(v.with_decoder(m)),
        v.with_decoder(m).decoder is Some,
{
    let w = v.with_decoder(m);
    decoder::law_decoder_stays_settled(
        DecoderView { meta: m, blocks: Seq::empty() },
        0,
        0,
        Seq::empty(),
    );
    assert forall|b: int, esi: u32| 0 <= b < w.received.len() implies !#[trigger] w.received[b].contains(
        esi,
    ) by {}
}

/// The descriptor that a waiting receiver accepts replays what it held: every
/// usable symbol, source or repair, is received and reached the codec. Where all
/// of them are usable, none is lost from the count.
pub proof fn law_descriptor_replays_held_symbols(
    v: ReceiverView,
    header: FrameHeader,
    payload: Seq<u8>,
    info: DescriptorView,
)
    requires
        v.wf(),
        v.decoder is None,
        header.session_id == v.session_id,
        header.flags & 1 != 0,
        descriptor::parsed(payload) == Some(info),
        model::descriptor_acceptable(header, info),
    ensures
        ({
            let after = v.after_frame(header, payload);
            let n = info.meta.blocks.len();
            let size = info.meta.symbol_size;
            &&& after.descriptor_seen
            &&& after.meta() == Some(info.meta)
            &&& after.file == info.file
            &&& after.segment == info.segment
            &&& after.symbol_size == size
            &&& after.cache.len() == 0
            &&& all_reached(after)
            &&& after.received.len() == n
            &&& forall|b: int, esi: u32|
                0 <= b < n ==> (#[trigger] after.received[b].contains(esi) <==> brought(
                    v.cache,
                    n,
                    size,
                    b,
                    esi,
                ))
            &&& (forall|i: int|
                0 <= i < v.cache.len() ==> usable(#[trigger] v.cache[i], n, size))
                ==> after.received_symbols() == v.cache.len()
            &&& v.frames_seen < u64::MAX ==> after.frames_corrupt == v.frames_corrupt
                + useless_count(v.cache, n, size)
        }),
{
    let counted = ReceiverView {
        session_mismatch_streak: 0,
        frames_seen: (v.frames_seen + 1) as u64,
        ..v
    };
    let started = counted.with_decoder(info.meta);
    lemma_fresh_reached(counted, info.meta);
    law_replay_loses_no_symbol(started, v.cache);
    assert forall|b: int| 0 <= b < started.received.len() implies (#[trigger] started.received[b])
        == Set::<u32>::empty() by {}
    if forall|i: int|
        0 <= i < v.cache.len() ==> usable(
            #[trigger] v.cache[i],
            info.meta.blocks.len(),
            info.meta.symbol_size,
        ) {
        lemma_distinct_symbols_count(started, v.cache);
    }
    let after = v.after_frame(header, payload);
    assert forall|b: int, esi: u32| 0 <= b < info.meta.blocks.len() implies (
    #[trigger] after.received[b].contains(esi) <==> brought(
        v.cache,
        info.meta.blocks.len(),
        info.meta.symbol_size,
        b,
        esi,
    )) by {
        assert(started.received[b] == Set::<u32>::empty());
        assert(started.replayed(v.cache).received[b].contains(esi) <==> after.received[b].contains(
            esi,
        ));
    }
}

/// A session restored from a state has received exactly the symbols that the
/// state stores, whatever ids it lists besides, and each of them reached the
/// codec.
pub proof fn law_restore_replays_stored_symbols(state: ResumeView)
    requires
        state.valid(),
    ensures
        ({
            let v = ReceiverView::restored(state);
            let n = state.meta.blocks.len();
            &&& v.session_id == state.session_id
            &&& v.meta() == Some(state.meta)
            &&& !v.descriptor_seen
            &&& v.received.len() == n
            &&& v.frames_corrupt == 0
            &&& v.frames_seen == 0
            &&& all_reached(v)
            &&& forall|b: int, esi: u32|
                0 <= b < n ==> (#[trigger] v.received[b].contains(esi) <==> exists|i: int|
                    0 <= i < state.symbols.len() && (#[trigger] state.symbols[i]).0 == b
                        && state.symbols[i].1 == esi)
            &&& replay_cache::distinct(state.symbols) ==> v.received_symbols()
                == state.symbols.len()
        }),
{
    let n = state.meta.blocks.len();
    let size = state.meta.symbol_size;
    let start = ReceiverView::confirmed(state.session_id, state.meta);
    let v = ReceiverView::restored(state);
    lemma_fresh_reached(ReceiverView::pending(state.session_id), state.meta);
    law_replay_loses_no_symbol(start, state.symbols);
    assert forall|i: int| 0 <= i < state.symbols.len() implies usable(
        #[trigger] state.symbols[i],
        n,
        size,
    ) by {
        assert(state.symbol_ok(i));
    }
    lemma_all_usable(state.symbols, n, size);
    assert forall|b: int| 0 <= b < start.received.len() implies (#[trigger] start.received[b])
        == Set::<u32>::empty() by {}
    if replay_cache::distinct(state.symbols) {
        lemma_distinct_symbols_count(start, state.symbols);
    }
    assert forall|b: int, esi: u32| 0 <= b < n implies (#[trigger] v.received[b].contains(esi)
        <==> exists|i: int|
        0 <= i < state.symbols.len() && (#[trigger] state.symbols[i]).0 == b
            && state.symbols[i].1 == esi) by {
        assert(start.received[b] == Set::<u32>::empty());
    }
}

proof fn lemma_all_usable(symbols: Seq<(u32, u32, Seq<u8>)>, blocks: nat, size: u32)
    requires
        forall|i: int| 0 <= i < symbols.len() ==> usable(#[trigger] symbols[i], blocks, size),
    ensures
        useless_count(symbols, blocks, size) == 0,
    decreases symbols.len(),
{
    if symbols.len() > 0 {
        let rest = symbols.drop_last();
        assert forall|i: int| 0 <= i < rest.len() implies usable(
            #[trigger] rest[i],
            blocks,
            size,
        ) by {
            assert(rest[i] == symbols[i]);
        }
        lemma_all_usable(rest, blocks, size);
        assert(usable(symbols[symbols.len() - 1], blocks, size));
    }
}

/// Whatever comes in, every id received reaches the codec, and the codec is
/// heard out.
pub proof fn law_frames_reach_codec(v: ReceiverView, header: FrameHeader, payload: Seq<u8>)
    requires
        v.wf(),
        all_reached(v),
    ensures
        all_reached(v.after_frame(header, payload)),
{
    let counted = ReceiverView {
        session_mismatch_streak: 0,
        frames_seen: (v.frames_seen + 1) as u64,
        ..v
    };
    if header.session_id == v.session_id {
        if header.flags & 1 != 0 {
            if let Some(info) = descriptor::parsed(payload) {
                if v.decoder is None && model::descriptor_acceptable(header, info) {
                    law_descriptor_replays_held_symbols(v, header, payload, info);
                }
            }
        } else if v.decoder is Some {
            assert(all_reached(counted));
            if header.sbn < v.received.len() && header.esi < 0x100_0000 && payload.len()
                == v.symbol_size {
                lemma_took_reaches(counted, header.sbn, header.esi, payload);
            }
        }
    }
}

/// A data frame with a new symbol, source or repair, is never in vain: the
/// symbol is received and handed to the codec, and its block is reconstructed as
/// soon as the codec can.
pub proof fn law_new_symbol_is_used(v: ReceiverView, header: FrameHeader, payload: Seq<u8>)
    requires
        v.wf(),
        v.decoder is Some,
        !v.complete(),
        header.session_id == v.session_id,
        header.flags & 1 == 0,
        header.sbn < v.received.len(),
        header.esi < 0x100_0000,
        payload.len() == v.symbol_size,
        !v.received[header.sbn as int].contains(header.esi),
    ensures
        ({
            let after = v.after_frame(header, payload);
            let b = header.sbn as int;
            let d = v.decoder->0;
            let e = after.decoder->0;
            &&& after.decoder is Some
            &&& e.meta == d.meta
            &&& e.blocks.len() == d.blocks.len()
            &&& after.received == v.received.update(b, v.received[b].insert(header.esi))
            &&& after.received_symbols() == v.received_symbols() + 1
            &&& forall|i: int| 0 <= i < d.blocks.len() && i != b ==> #[trigger] e.blocks[i] == d.blocks[i]
            &&& d.blocks[b].decoded is Some ==> e.blocks[b] == d.blocks[b]
            &&& d.blocks[b].decoded is None ==> {
                &&& reached_codec(e, b, header.esi)
                &&& forall|j: int|
                    0 <= j < d.blocks[b].symbols.len() ==> #[trigger] e.blocks[b].symbols[j]
                        == d.blocks[b].symbols[j]
                &&& e.blocks[b].decoded == codec::block_decode(
                    header.sbn as u8,
                    d.meta.oti,
                    d.meta.blocks[b].block_length,
                    e.blocks[b].symbols,
                )
            }
        }),
{
    let d = v.decoder->0;
    let b = header.sbn as int;
    model::lemma_total_ids_insert(v.received, b, header.esi);
    if d.blocks[b].decoded is None {
        decoder::law_symbol_reaches_codec(d, header.sbn, header.esi, payload);
        let held = d.blocks[b].symbols;
        let more = d.fed(header.sbn, header.esi, payload).blocks[b].symbols;
        if !(exists|j: int| 0 <= j < held.len() && (#[trigger] held[j]).0 == header.esi) {
            assert(more[held.len() as int].0 == header.esi);
        }
    } else {
        decoder::law_useless_symbol_is_ignored(d, header.sbn, header.esi, payload);
    }
}

/// A data frame of the session that cannot carry a symbol of the object counts
/// as discarded, and changes nothing else.
pub proof fn law_impossible_symbol_is_discarded(
    v: ReceiverView,
    header: FrameHeader,
    payload: Seq<u8>,
)
    requires
        v.wf(),
        v.decoder is Some,
        v.frames_seen < u64::MAX,
        header.session_id == v.session_id,
        header.flags & 1 == 0,
        header.sbn >= v.total_blocks() || header.esi >= 0x100_0000 || payload.len()
            != v.symbol_size,
    ensures
        v.after_frame(header, payload) == (ReceiverView {
            session_mismatch_streak: 0,
            frames_seen: (v.frames_seen + 1) as u64,
            frames_corrupt: (v.frames_corrupt + 1) as u64,
            ..v
        }),
{
}

/// A descriptor frame of the session that is no descriptor, or one that is not
/// acceptable, counts as discarded, and changes nothing else.
pub proof fn law_useless_descriptor_is_discarded(
    v: ReceiverView,
    header: FrameHeader,
    payload: Seq<u8>,
)
    requires
        v.wf(),
        v.frames_seen < u64::MAX,
        header.session_id == v.session_id,
        header.flags & 1 != 0,
        descriptor::parsed(payload) matches Some(info) ==> !model::descriptor_acceptable(
            header,
            info,
        ) || v.decoder is Some && v.meta() != Some(info.meta),
    ensures
        v.after_frame(header, payload) == (ReceiverView {
            session_mismatch_streak: 0,
            frames_seen: (v.frames_seen + 1) as u64,
            frames_corrupt: (v.frames_corrupt + 1) as u64,
            ..v
        }),
{
}

/// Bytes that one symbol held before the descriptor is charged.
pub open spec fn charge(symbol_size: u32) -> int {
    if symbol_size < 64 {
        64
    } else {
        symbol_size as int
    }
}

/// A symbol that comes before the descriptor is held, source or repair, as long
/// as those held before it leave some of the 32 MiB budget, or are fewer than
/// 12,000 where no size is given. One that is held already is a duplicate, and
/// beyond the budget a symbol is discarded. None of this loses what was held.
pub proof fn law_early_symbol_is_held(v: ReceiverView, header: FrameHeader, payload: Seq<u8>)
    requires
        v.wf(),
        v.decoder is None,
        v.frames_seen < u64::MAX,
        header.session_id == v.session_id,
        header.flags & 1 == 0,
    ensures
        ({
            let after = v.after_frame(header, payload);
            let known = exists|i: int|
                0 <= i < v.cache.len() && (#[trigger] v.cache[i]).0 == header.sbn && v.cache[i].1
                    == header.esi;
            let room = if header.symbol_size == 0 {
                v.cache.len() < 12_000
            } else {
                v.cache.len() * charge(header.symbol_size) < 33_554_432
            };
            let counted = ReceiverView {
                session_mismatch_streak: 0,
                frames_seen: (v.frames_seen + 1) as u64,
                symbol_size: header.symbol_size,
                ..v
            };
            after == if known {
                ReceiverView { frames_duplicate: (v.frames_duplicate + 1) as u64, ..counted }
            } else if room {
                ReceiverView {
                    cache: v.cache.push((header.sbn, header.esi, payload)),
                    ..counted
                }
            } else {
                ReceiverView { frames_corrupt: (v.frames_corrupt + 1) as u64, ..counted }
            }
        }),
{
    let c = charge(header.symbol_size);
    let n = v.cache.len() as int;
    if header.symbol_size != 0 {
        let q = (33_554_432 + c - 1) / c;
        vstd::arithmetic::div_mod::lemma_fundamental_div_mod(33_554_432 + c - 1, c);
        vstd::arithmetic::div_mod::lemma_div_pos_is_pos(33_554_432 + c - 1, c);
        assert(n < q <==> n * c < 33_554_432) by (nonlinear_arith)
            requires
                c > 0,
                0 <= (33_554_432 + c - 1) - c * q < c,
                n >= 0,
        ;
        assert(model::cache_max(header.symbol_size) == q);
    }
}

/// The tag names no compression, Zstandard or XZ.
pub open spec fn is_tag(compression: u8) -> bool {
    compression == 0 || compression == 1 || compression == 2
}

/// A descriptor is taken on exactly where its metadata is valid, the frame
/// around it says the same of the object, the tag is known, the compressed size
/// is not beyond the object, and either it is a segment's with its own place, or
/// the original has at most 256 MiB, and some bytes where it is compressed.
pub proof fn law_descriptor_is_taken_on_exactly(header: FrameHeader, info: DescriptorView)
    ensures
        model::descriptor_acceptable(header, info) <==> {
            &&& info.meta.valid()
            &&& header.symbol_size == info.meta.symbol_size
            &&& header.total_blocks == info.meta.blocks.len()
            &&& header.total_symbols == meta::total_symbols(info.meta.blocks)
            &&& is_tag(info.file.compression)
            &&& info.file.compressed_size_known ==> info.file.compressed_size
                <= info.meta.transfer_length
            &&& match info.segment {
                Some(s) => s.valid(header.session_id, info.file),
                None => info.file.original_size <= 268_435_456 && (info.file.compression != 0
                    ==> info.file.original_size >= 1),
            }
        },
{
}

/// What comes of assembling, in terms of what was recovered: nothing before the
/// object is complete, a failure where the descriptor claims more than there is,
/// and otherwise the payload as far as its size is known. An uncompressed
/// payload is the file, and no file comes out with a size other than the one the
/// descriptor gives.
pub proof fn law_assembly_outcome(v: ReceiverView)
    requires
        v.wf(),
    ensures
        ({
            let raw = v.decoder->0.assembled();
            let known = v.file.compressed_size_known;
            let size = v.file.compressed_size;
            let payload = if known {
                raw.take(size as int)
            } else {
                raw
            };
            &&& !v.complete() <==> v.assembly() is Incomplete
            &&& v.complete() && known && size > raw.len() ==> v.assembly() is Failed
            &&& v.complete() && !(known && size > raw.len()) && v.file.compression == 0
                && raw.len() <= usize::MAX ==> v.assembly() == Assembly::Done(payload)
            &&& v.complete() && v.file.compression != 0 && v.file.original_size > 268_435_456
                ==> v.assembly() is Failed
            &&& v.file.compression != 0 && v.file.original_size > 0 ==> (
            v.assembly() matches Assembly::Done(out) ==> out.len() == v.file.original_size)
            &&& v.after_assembly() == ReceiverView {
                last_assemble_error: v.after_assembly().last_assemble_error,
                ..v
            }
            &&& v.after_assembly().last_assemble_error is Some <==> v.assembly() is Failed
            &&& v.assembly() matches Assembly::Failed(reason)
                ==> v.after_assembly().last_assemble_error == Some(reason)
        }),
{
}

/// A session that knows nothing of the file gives out the object as it is.
pub proof fn law_object_without_descriptor(v: ReceiverView)
    requires
        v.wf(),
        v.complete(),
        v.file == FileMetaView::unknown(),
    ensures
        v.assembly() == Assembly::Done(v.decoder->0.assembled()),
{
}

/// The progress that is told is that of the session, field by field.
pub proof fn law_progress_is_told(v: ReceiverView)
    requires
        v.wf(),
    ensures
        ({
            let p = v.progress();
            &&& p.received_symbols == v.received_symbols()
            &&& p.decoded_symbols == v.decoded_symbols() <= v.total_symbols()
            &&& p.decoded_blocks == v.decoded_blocks() <= v.total_blocks()
            &&& p.total_symbols == v.total_symbols()
            &&& p.total_blocks == v.total_blocks()
            &&& p.frames_seen == v.frames_seen
            &&& p.frames_duplicate == v.frames_duplicate
            &&& p.frames_corrupt == v.frames_corrupt
            &&& p.session_mismatch_streak == v.session_mismatch_streak
            &&& p.symbol_size == v.symbol_size
            &&& p.meta_confirmed <==> v.decoder is Some
            &&& v.decoder matches Some(d) ==> v.total_symbols() == meta::total_symbols(
                d.meta.blocks,
            ) && v.total_blocks() == d.meta.blocks.len()
            &&& v.decoder is None ==> v.received_symbols() == v.cache.len()
                && v.decoded_symbols() == 0 && v.total_symbols() == 0 && v.total_blocks() == 0
            &&& v.complete() ==> v.decoded_symbols() == v.total_symbols() && v.decoded_blocks()
                == v.total_blocks()
        }),
{
    match v.decoder {
        Some(d) => {
            let n = d.blocks.len() as int;
            model::lemma_total_ids_bound(v.received);
            model::lemma_recovered_bound(d, v.received, n);
            assert(d.meta.blocks.take(n) =~= d.meta.blocks);
            lemma_decoded_count_bound(d.blocks);
            if v.complete() {
                lemma_complete_counts(d, v.received, n);
                assert(d.blocks.take(n) =~= d.blocks);
            }
        },
        None => {},
    }
}

proof fn lemma_decoded_count_bound(blocks: Seq<decoder::BlockView>)
    ensures
        decoder::decoded_count(blocks) <= blocks.len(),
    decreases blocks.len(),
{
    if blocks.len() > 0 {
        lemma_decoded_count_bound(blocks.drop_last());
    }
}

proof fn lemma_complete_counts(d: DecoderView, received: Seq<Set<u32>>, n: int)
    requires
        d.complete(),
        d.blocks.len() == d.meta.blocks.len(),
        0 <= n <= d.blocks.len(),
    ensures
        model::recovered_symbols(d, received, n) == meta::total_symbols(d.meta.blocks.take(n)),
        decoder::decoded_count(d.blocks.take(n)) == n,
    decreases n,
{
    if n > 0 {
        lemma_complete_counts(d, received, n - 1);
        assert(d.meta.blocks.take(n).drop_last() =~= d.meta.blocks.take(n - 1));
        assert(d.blocks.take(n).drop_last() =~= d.blocks.take(n - 1));
        assert(d.blocks[n - 1].decoded is Some);
    } else {
        assert(d.meta.blocks.take(0).len() == 0);
        assert(d.blocks.take(0).len() == 0);
    }
}

/// What changing one block does to the symbols recovered and the blocks
/// reconstructed of the first `n`.
proof fn lemma_one_block_changes(
    d: DecoderView,
    r: Seq<Set<u32>>,
    e: DecoderView,
    q: Seq<Set<u32>>,
    b: int,
    n: int,
)
    requires
        d.meta == e.meta,
        d.blocks.len() == e.blocks.len(),
        r.len() == q.len() == d.blocks.len(),
        0 <= b < d.blocks.len(),
        0 <= n <= d.blocks.len(),
        forall|i: int|
            0 <= i < d.blocks.len() && i != b ==> #[trigger] e.blocks[i] == d.blocks[i],
        forall|i: int| 0 <= i < r.len() && i != b ==> #[trigger] q[i] == r[i],
    ensures
        model::recovered_symbols(e, q, n) - model::recovered_symbols(d, r, n) == if b < n {
            block_recovered(e, q, b) - block_recovered(d, r, b)
        } else {
            0
        },
        decoder::decoded_count(e.blocks.take(n)) - decoder::decoded_count(d.blocks.take(n)) == if b
            < n {
            (if e.blocks[b].decoded is Some {
                1int
            } else {
                0
            }) - (if d.blocks[b].decoded is Some {
                1int
            } else {
                0
            })
        } else {
            0
        },
    decreases n,
{
    if n > 0 {
        lemma_one_block_changes(d, r, e, q, b, n - 1);
        assert(d.blocks.take(n).drop_last() =~= d.blocks.take(n - 1));
        assert(e.blocks.take(n).drop_last() =~= e.blocks.take(n - 1));
        if n - 1 != b {
            assert(e.blocks[n - 1] == d.blocks[n - 1] && q[n - 1] == r[n - 1]);
        }
    } else {
        assert(d.blocks.take(0) =~= e.blocks.take(0));
    }
}

/// Source symbols that block `b` is recovered to.
pub open spec fn block_recovered(d: DecoderView, received: Seq<Set<u32>>, b: int) -> int {
    let k = d.meta.blocks[b].num_source_symbols;
    if d.blocks[b].decoded is Some {
        k as int
    } else {
        received[b].filter(|esi: u32| esi < k).len() as int
    }
}

/// A new symbol moves the progress by what it brings: a source symbol by one, a
/// repair symbol by nothing, and a symbol that lets the codec reconstruct the
/// block by all that was missing of it.
pub proof fn law_new_symbol_moves_progress(v: ReceiverView, header: FrameHeader, payload: Seq<u8>)
    requires
        v.wf(),
        v.decoder is Some,
        !v.complete(),
        header.session_id == v.session_id,
        header.flags & 1 == 0,
        header.sbn < v.received.len(),
        header.esi < 0x100_0000,
        payload.len() == v.symbol_size,
        !v.received[header.sbn as int].contains(header.esi),
    ensures
        ({
            let after = v.after_frame(header, payload);
            let b = header.sbn as int;
            let d = v.decoder->0;
            let e = after.decoder->0;
            let k = d.meta.blocks[b].num_source_symbols;
            &&& d.blocks[b].decoded is Some ==> after.decoded_symbols() == v.decoded_symbols()
                && after.decoded_blocks() == v.decoded_blocks()
            &&& d.blocks[b].decoded is None && e.blocks[b].decoded is None
                ==> after.decoded_symbols() == v.decoded_symbols() + (if header.esi < k {
                1int
            } else {
                0
            }) && after.decoded_blocks() == v.decoded_blocks()
            &&& d.blocks[b].decoded is None && e.blocks[b].decoded is Some
                ==> after.decoded_symbols() == v.decoded_symbols() + k - block_recovered(
                d,
                v.received,
                b,
            ) && after.decoded_blocks() == v.decoded_blocks() + 1
        }),
{
    law_new_symbol_is_used(v, header, payload);
    let after = v.after_frame(header, payload);
    let b = header.sbn as int;
    let d = v.decoder->0;
    let e = after.decoder->0;
    let n = d.blocks.len() as int;
    let k = d.meta.blocks[b].num_source_symbols;
    lemma_one_block_changes(d, v.received, e, after.received, b, n);
    assert(d.blocks.take(n) =~= d.blocks && e.blocks.take(n) =~= e.blocks);
    model::lemma_source_ids_insert(v.received[b], k, header.esi);
    assert(model::source_ids(v.received[b], k) =~= v.received[b].filter(|esi: u32| esi < k));
    assert(model::source_ids(after.received[b], k) =~= after.received[b].filter(
        |esi: u32| esi < k,
    ));
}

/// Every frame of the session counts as seen, once, and ends a streak of other
/// sessions' frames.
pub proof fn law_every_frame_is_counted(v: ReceiverView, header: FrameHeader, payload: Seq<u8>)
    requires
        v.wf(),
        v.frames_seen < u64::MAX,
        header.session_id == v.session_id,
    ensures
        ({
            let after = v.after_frame(header, payload);
            &&& after.session_id == v.session_id
            &&& after.frames_seen == v.frames_seen + 1
            &&& after.session_mismatch_streak == 0
            &&& after.last_assemble_error == v.last_assemble_error
        }),
{
    if header.flags & 1 != 0 {
        if let Some(info) = descriptor::parsed(payload) {
            let counted = ReceiverView {
                session_mismatch_streak: 0,
                frames_seen: (v.frames_seen + 1) as u64,
                ..v
            };
            model::lemma_replayed_keeps(counted.with_decoder(info.meta), v.cache);
        }
    }
}

/// A symbol of the object that was received before, or that comes after the object
/// is complete, counts as a duplicate and changes nothing else.
pub proof fn law_known_symbol_is_duplicate(v: ReceiverView, header: FrameHeader, payload: Seq<u8>)
    requires
        v.wf(),
        v.decoder is Some,
        v.frames_seen < u64::MAX,
        header.session_id == v.session_id,
        header.flags & 1 == 0,
        header.sbn < v.total_blocks(),
        header.esi < 0x100_0000,
        payload.len() == v.symbol_size,
        v.complete() || v.received[header.sbn as int].contains(header.esi),
    ensures
        v.after_frame(header, payload) == (ReceiverView {
            session_mismatch_streak: 0,
            frames_seen: (v.frames_seen + 1) as u64,
            frames_duplicate: (v.frames_duplicate + 1) as u64,
            ..v
        }),
{
}

/// A session that knows the object but not the file learns of the file from the
/// first descriptor of that object. What it has received stays.
pub proof fn law_descriptor_names_file(
    v: ReceiverView,
    header: FrameHeader,
    payload: Seq<u8>,
    info: DescriptorView,
)
    requires
        v.wf(),
        v.decoder is Some,
        !v.descriptor_seen,
        header.session_id == v.session_id,
        header.flags & 1 != 0,
        descriptor::parsed(payload) == Some(info),
        model::descriptor_acceptable(header, info),
        v.meta() == Some(info.meta),
    ensures
        v.after_frame(header, payload) == (ReceiverView {
            session_mismatch_streak: 0,
            frames_seen: (v.frames_seen + 1) as u64,
            descriptor_seen: true,
            file: info.file,
            segment: info.segment,
            ..v
        }),
{
}

/// A compressed payload gives the file exactly where the decoder gives it, within
/// the size that the descriptor tells or, where it tells none, within 256 MiB, and
/// it has that size.
pub proof fn law_compressed_assembly(v: ReceiverView, out: Seq<u8>)
    requires
        v.wf(),
        v.complete(),
        v.file.compression == 1 || v.file.compression == 2,
        v.file.original_size <= 268_435_456,
        v.file.compressed_size_known ==> v.file.compressed_size <= v.decoder->0.assembled().len()
            <= usize::MAX,
    ensures
        ({
            let raw = v.decoder->0.assembled();
            let payload = if v.file.compressed_size_known {
                raw.take(v.file.compressed_size as int)
            } else {
                raw
            };
            let told = v.file.original_size;
            let cap = if told > 0 {
                told as usize
            } else {
                268_435_456usize
            };
            v.assembly() == Assembly::Done(out) <==> compress::limited(
                payload,
                v.file.compression,
                cap,
            ) == Ok::<Seq<u8>, Seq<char>>(out) && (told > 0 ==> out.len() == told)
        }),
{
}

/// A session starts with nothing received and nothing counted. It knows the object
/// where it was given metadata, and nothing of the file.
pub proof fn law_new_session_is_empty(session_id: u128, m: MetaView)
    ensures
        ({
            let p = ReceiverView::pending(session_id);
            let c = ReceiverView::confirmed(session_id, m);
            &&& p.session_id == session_id && c.session_id == session_id
            &&& p.decoder is None
            &&& c.meta() == Some(m)
            &&& c.received.len() == m.blocks.len()
            &&& forall|b: int|
                0 <= b < c.received.len() ==> (#[trigger] c.received[b]) == Set::<u32>::empty()
            &&& c.symbol_size == m.symbol_size
            &&& !p.descriptor_seen && !c.descriptor_seen
            &&& p.segment is None && c.segment is None
            &&& p.cache.len() == 0 && c.cache.len() == 0
            &&& p.frames_seen == 0 && c.frames_seen == 0
            &&& p.frames_duplicate == 0 && c.frames_duplicate == 0
            &&& p.frames_corrupt == 0 && c.frames_corrupt == 0
            &&& p.session_mismatch_streak == 0 && c.session_mismatch_streak == 0
            &&& p.last_assemble_error is None && c.last_assemble_error is None
        }),
{
}

/// A guessed layout splits the symbols evenly over the blocks, the larger blocks
/// first, and loses none.
pub proof fn law_guess_splits_evenly(total_blocks: u32, total_symbols: u32, symbol_size: u32)
    requires
        total_blocks < 256,
        0 < total_symbols,
        0 < symbol_size,
    ensures
        ({
            let m = receiver::guessed_meta(total_blocks, total_symbols, symbol_size);
            let n = if total_blocks == 0 {
                1
            } else {
                total_blocks as int
            };
            &&& m.blocks.len() == n
            &&& m.symbol_size == symbol_size
            &&& m.transfer_length == total_symbols * symbol_size
            &&& meta::total_symbols(m.blocks) == total_symbols
            &&& forall|i: int|
                0 <= i < n ==> (#[trigger] m.blocks[i]).sbn == i && m.blocks[i].block_length
                    == m.blocks[i].num_source_symbols * symbol_size
            &&& forall|i: int, j: int|
                0 <= i <= j < n ==> (#[trigger] m.blocks[j]).num_source_symbols <= (
                #[trigger] m.blocks[i]).num_source_symbols <= m.blocks[j].num_source_symbols + 1
        }),
{
    let m = receiver::guessed_meta(total_blocks, total_symbols, symbol_size);
    let n = m.blocks.len() as int;
    let k = total_symbols as int;
    let (q, r) = (k / n, k % n);
    vstd::arithmetic::div_mod::lemma_fundamental_div_mod(k, n);
    assert(0 <= q && q + r <= k) by (nonlinear_arith)
        requires
            k == n * q + r,
            n >= 1,
            0 <= r < n,
            k >= 0,
    ;
    assert(0 <= total_symbols * symbol_size <= u32::MAX * u32::MAX) by (nonlinear_arith)
        requires
            0 <= total_symbols <= u32::MAX,
            0 <= symbol_size <= u32::MAX,
    ;
    lemma_guessed_total(total_blocks, total_symbols, symbol_size, n);
    assert(m.blocks.take(n) =~= m.blocks);
    assert forall|i: int| 0 <= i < n implies (#[trigger] m.blocks[i]).sbn == i
        && m.blocks[i].block_length == m.blocks[i].num_source_symbols * symbol_size by {
        let c = m.blocks[i].num_source_symbols;
        assert(0 <= c * symbol_size <= u32::MAX * u32::MAX) by (nonlinear_arith)
            requires
                0 <= c <= u32::MAX,
                0 <= symbol_size <= u32::MAX,
        ;
    }
}

proof fn lemma_guessed_total(total_blocks: u32, total_symbols: u32, symbol_size: u32, i: int)
    requires
        total_blocks < 256,
        0 < total_symbols,
        0 <= i <= receiver::guessed_blocks(total_blocks),
    ensures
        ({
            let n = receiver::guessed_blocks(total_blocks);
            let k = total_symbols as int;
            meta::total_symbols(
                receiver::guessed_meta(total_blocks, total_symbols, symbol_size).blocks.take(i),
            ) == i * (k / n) + if i < k % n {
                i
            } else {
                k % n
            }
        }),
    decreases i,
{
    let blocks = receiver::guessed_meta(total_blocks, total_symbols, symbol_size).blocks;
    let n = receiver::guessed_blocks(total_blocks);
    let k = total_symbols as int;
    let (q, r) = (k / n, k % n);
    vstd::arithmetic::div_mod::lemma_fundamental_div_mod(k, n);
    if i > 0 {
        lemma_guessed_total(total_blocks, total_symbols, symbol_size, i - 1);
        assert(blocks.take(i).drop_last() =~= blocks.take(i - 1));
        assert(0 <= q && q + r <= k) by (nonlinear_arith)
            requires
                k == n * q + r,
                n >= 1,
                0 <= r < n,
                k >= 0,
        ;
        assert(i * q == (i - 1) * q + q) by (nonlinear_arith);
    } else {
        assert(blocks.take(0).len() == 0);
        assert(i * q == 0) by (nonlinear_arith)
            requires
                i == 0,
        ;
    }
}

/// What is told of assembling is what came of it.
pub proof fn law_assembly_is_told(r: Result<Option<Vec<u8>>, Error>, a: Assembly)
    requires
        receiver::tells_assembly(r, a),
    ensures
        a is Incomplete <==> r is Ok && r->Ok_0 is None,
        a is Failed <==> r is Err,
        r matches Ok(Some(out)) ==> a == Assembly::Done(out@),
        r matches Err(e) ==> e matches Error::Compress(reason) && a == Assembly::Failed(reason@),
{
}

/// A session is made for metadata exactly where it is valid.
pub proof fn law_session_needs_valid_metadata(
    r: Result<ReceiverSession, Error>,
    session_id: u128,
    m: ObjectMeta,
)
    requires
        receiver::is_confirmed_session(r, session_id, m),
    ensures
        r is Ok <==> m@.valid(),
        r matches Ok(session) ==> session.wf() && session@.session_id == session_id
            && session@.meta() == Some(m@) && session@.received_symbols() == 0,
{
    if let Ok(session) = r {
        model::lemma_total_ids_empty(session@.received);
    }
}

/// Without metadata there is nothing to save.
pub proof fn law_nothing_saved_without_metadata(v: ReceiverView)
    ensures
        v.saved() is Some <==> v.decoder is Some,
        v.saved() matches Some(state) ==> state.session_id == v.session_id && Some(state.meta)
            == v.meta(),
{
}

/// Source symbols that the first `n` blocks have: all of a block that is
/// reconstructed, and otherwise those received.
pub open spec fn recovered_so_far(d: DecoderView, received: Seq<Set<u32>>, n: int) -> int
    decreases n,
{
    if n <= 0 {
        0
    } else {
        recovered_so_far(d, received, n - 1) + block_recovered(d, received, n - 1)
    }
}

proof fn lemma_recovered_so_far(d: DecoderView, received: Seq<Set<u32>>, n: int)
    requires
        0 <= n,
    ensures
        model::recovered_symbols(d, received, n) == recovered_so_far(d, received, n),
    decreases n,
{
    if n > 0 {
        lemma_recovered_so_far(d, received, n - 1);
        let k = d.meta.blocks[n - 1].num_source_symbols;
        assert(model::source_ids(received[n - 1], k) =~= received[n - 1].filter(|esi: u32| esi < k));
    }
}

/// The source symbols that count as decoded are those of the blocks that are
/// reconstructed, and those that were received of the others.
pub proof fn law_decoded_symbols_add_up(v: ReceiverView)
    requires
        v.wf(),
    ensures
        v.decoder matches Some(d) ==> v.decoded_symbols() == recovered_so_far(
            d,
            v.received,
            d.blocks.len() as int,
        ),
        v.decoder is None ==> v.decoded_symbols() == 0,
{
    if let Some(d) = v.decoder {
        lemma_recovered_so_far(d, v.received, d.blocks.len() as int);
    }
}

} // verus!
