//! What object metadata and the block layout promise.
use crate::raptorq_core::codec;
use crate::raptorq_core::config;
use crate::raptorq_core::decoder;
use crate::raptorq_core::decoder::{BlockView, DecoderView};
use crate::raptorq_core::encoder;
use crate::raptorq_core::layout;
use crate::raptorq_core::meta;
use crate::raptorq_core::meta::MetaView;
use crate::raptorq_core::{SourceBlockMeta, Symbol, SymbolId};
use vstd::prelude::*;

verus! {

/// Symbols have 64 to 65528 bytes, in steps of eight, and every such size is
/// accepted.
pub proof fn law_symbol_sizes(t: u32)
    ensures
        config::valid_symbol_size(t) <==> 64 <= t <= 65_528 && t % 8 == 0,
{
}

/// The totals of a block table are sums over its blocks.
pub proof fn law_totals_add_up(blocks: Seq<SourceBlockMeta>, b: SourceBlockMeta)
    ensures
        meta::total_symbols(Seq::<SourceBlockMeta>::empty()) == 0,
        meta::total_bytes(Seq::<SourceBlockMeta>::empty()) == 0,
        meta::total_symbols(blocks.push(b)) == meta::total_symbols(blocks) + b.num_source_symbols,
        meta::total_bytes(blocks.push(b)) == meta::total_bytes(blocks) + b.block_length,
{
    assert(blocks.push(b).drop_last() =~= blocks);
}

/// Block `i` is numbered as it stands and is made of 1 to 56403 whole symbols.
pub open spec fn sane_block(m: MetaView, i: int) -> bool {
    let b = m.blocks[i];
    b.sbn == i && 1 <= b.num_source_symbols <= 56_403 && b.block_length == b.num_source_symbols
        * m.symbol_size
}

/// Metadata is valid exactly where its symbol size is accepted, its transmission
/// information says the same as the rest, its blocks are sane, and object and
/// blocks stay within 32 MiB, padding aside.
pub proof fn law_metadata_is_valid_exactly(m: MetaView)
    ensures
        m.valid() <==> {
            &&& 64 <= m.symbol_size <= 65_528 && m.symbol_size % 8 == 0
            &&& m.info().symbol_size == m.symbol_size
            &&& m.info().transfer_length == m.transfer_length
            &&& m.info().source_blocks == m.blocks.len()
            &&& m.info().sub_blocks > 0
            &&& m.info().symbol_alignment > 0
            &&& m.info().symbol_size % (m.info().symbol_alignment as u16) == 0
            &&& m.info().sub_blocks <= m.info().symbol_size / (m.info().symbol_alignment as u16)
            &&& m.oti[5] == 0
            &&& 1 <= m.transfer_length <= 33_554_432
            &&& 1 <= m.blocks.len() <= 255
            &&& forall|i: int| 0 <= i < m.blocks.len() ==> #[trigger] sane_block(m, i)
            &&& meta::total_symbols(m.blocks) <= 524_288
            &&& m.transfer_length <= meta::total_symbols(m.blocks) * m.symbol_size <= 33_554_432
                + m.symbol_size * m.blocks.len()
        },
        m.rejection() is None ==> m.valid(),
        m.valid() ==> m.rejection() is None,
{
    meta::lemma_block_rejection(m, 0);
    if m.valid() {
        assert forall|i: int| 0 <= i < m.blocks.len() implies #[trigger] sane_block(m, i) by {
            assert(m.valid_block(i));
        }
    }
    if forall|i: int| 0 <= i < m.blocks.len() ==> #[trigger] sane_block(m, i) {
        assert forall|i: int| 0 <= i < m.blocks.len() implies #[trigger] m.valid_block(i) by {
            assert(sane_block(m, i));
        }
        assert forall|i: int| 0 <= i < m.blocks.len() implies (
        #[trigger] m.blocks[i]).num_source_symbols <= 56_403 && m.blocks[i].block_length
            == m.blocks[i].num_source_symbols * m.symbol_size by {
            assert(sane_block(m, i));
        }
        meta::lemma_totals_bound(m.blocks, m.symbol_size);
    }
}

/// An object is cut into as many symbols as it takes, and these into as few
/// blocks as they fit in: blocks of nearly the same size, the larger ones first.
pub proof fn law_layout_covers_object(len: nat, t: u32)
    requires
        64 <= t <= 65_528,
        t % 8 == 0,
        1 <= len <= 33_554_432,
    ensures
        ({
            let m = layout::object_meta(len, t);
            let n = m.blocks.len() as int;
            let total = meta::total_symbols(m.blocks) as int;
            &&& m.transfer_length == len
            &&& m.symbol_size == t
            &&& m.oti == codec::encoding_oti(len, (t + 4) as u16)
            &&& (total - 1) * t < len <= total * t
            &&& (n - 1) * 56_403 < total <= n * 56_403
            &&& n <= 255
            &&& forall|i: int| 0 <= i < n ==> #[trigger] sane_block(m, i)
            &&& forall|i: int, j: int|
                0 <= i <= j < n ==> (#[trigger] m.blocks[j]).num_source_symbols <= (
                #[trigger] m.blocks[i]).num_source_symbols <= m.blocks[j].num_source_symbols + 1
        }),
{
    let m = layout::object_meta(len, t);
    let mtu = layout::mtu_for(t);
    layout::lemma_symbol_size(t);
    layout::lemma_ceil_div(len, t as nat);
    let kt = codec::object_symbols(len, mtu) as int;
    assert(kt <= 524_288) by (nonlinear_arith)
        requires
            kt * t < len + t,
            t >= 64,
            len <= 33_554_432,
    ;
    layout::lemma_block_count(len, mtu);
    layout::lemma_ceil_div(kt as nat, 56_403);
    layout::lemma_meta_total_symbols(len, t);
    assert((kt - 1) * t == kt * t - t) by (nonlinear_arith);
    assert forall|i: int| 0 <= i < m.blocks.len() implies #[trigger] sane_block(m, i) by {
        layout::lemma_block_symbols(len, mtu, i);
        let b = codec::block_symbols(len, mtu, i) as int;
        assert(b * t <= 56403 * 65528) by (nonlinear_arith)
            requires
                0 <= b <= 56403,
                t <= 65528,
        ;
    }
    assert forall|i: int, j: int| 0 <= i <= j < m.blocks.len() implies (
    #[trigger] m.blocks[j]).num_source_symbols <= (#[trigger] m.blocks[i]).num_source_symbols
        <= m.blocks[j].num_source_symbols + 1 by {
        layout::lemma_block_symbols(len, mtu, i);
        layout::lemma_block_symbols(len, mtu, j);
    }
}

/// The metadata of every object of up to 32 MiB is valid, whatever the codec
/// chooses that fits its packets.
pub proof fn law_sent_metadata_is_valid(len: nat, t: u32)
    requires
        64 <= t <= 65_528,
        t % 8 == 0,
        1 <= len <= 33_554_432,
        ({
            let oti = codec::Oti::read(codec::encoding_oti(len, (t + 4) as u16));
            &&& oti.symbol_size == t
            &&& oti.transfer_length == len
            &&& oti.source_blocks == layout::object_meta(len, t).blocks.len()
            &&& oti.symbol_alignment == 8
            &&& 1 <= oti.sub_blocks <= t / 64
            &&& codec::encoding_oti(len, (t + 4) as u16)[5] == 0
        }),
    ensures
        layout::object_meta(len, t).valid(),
{
    layout::lemma_object_meta_valid(len, t);
}

/// The object is the bytes of the blocks, one after the other, without the padding.
pub proof fn law_object_is_joined_blocks(d: DecoderView, blocks: Seq<BlockView>, b: BlockView)
    ensures
        decoder::joined(Seq::<BlockView>::empty()) == Seq::<u8>::empty(),
        b.decoded matches Some(bytes) ==> decoder::joined(blocks.push(b)) == decoder::joined(blocks)
            + bytes,
        d.assembled() == decoder::joined(d.blocks).take(d.meta.transfer_length as int),
{
    assert(blocks.push(b).drop_last() =~= blocks);
}

/// A decoder is complete exactly where as many blocks are reconstructed as there
/// are, and each that is reconstructed counts once.
pub proof fn law_complete_when_all_blocks_are(d: DecoderView, blocks: Seq<BlockView>, b: BlockView)
    ensures
        decoder::decoded_count(Seq::<BlockView>::empty()) == 0,
        decoder::decoded_count(blocks.push(b)) == decoder::decoded_count(blocks)
            + if b.decoded is Some {
            1nat
        } else {
            0
        },
        d.complete() <==> decoder::decoded_count(d.blocks) == d.blocks.len(),
        d.complete() <==> forall|i: int|
            0 <= i < d.blocks.len() ==> (#[trigger] d.blocks[i]).decoded is Some,
{
    assert(blocks.push(b).drop_last() =~= blocks);
    lemma_decoded_count(d.blocks);
}

proof fn lemma_decoded_count(blocks: Seq<BlockView>)
    ensures
        decoder::decoded_count(blocks) <= blocks.len(),
        decoder::decoded_count(blocks) == blocks.len() <==> forall|i: int|
            0 <= i < blocks.len() ==> (#[trigger] blocks[i]).decoded is Some,
    decreases blocks.len(),
{
    if blocks.len() > 0 {
        let rest = blocks.drop_last();
        lemma_decoded_count(rest);
        assert forall|i: int| 0 <= i < rest.len() implies rest[i] == #[trigger] blocks[i] by {}
        if decoder::decoded_count(blocks) == blocks.len() {
            assert forall|i: int| 0 <= i < blocks.len() implies (#[trigger] blocks[i]).decoded
                is Some by {
                if i < rest.len() {
                    assert(rest[i].decoded is Some);
                }
            }
        }
    }
}

/// A new decoder holds nothing.
pub proof fn law_new_decoder_is_empty(m: MetaView)
    ensures
        ({
            let d = DecoderView::fresh(m);
            &&& d.meta == m
            &&& d.blocks.len() == m.blocks.len()
            &&& forall|i: int|
                0 <= i < d.blocks.len() ==> (#[trigger] d.blocks[i]).symbols.len() == 0
                    && d.blocks[i].decoded is None
        }),
{
}

/// The decoder after `symbols` were fed to it, in order.
pub open spec fn fed_all(d: DecoderView, symbols: Seq<Symbol>) -> DecoderView
    decreases symbols.len(),
{
    if symbols.len() == 0 {
        d
    } else {
        let s = symbols.last();
        fed_all(d, symbols.drop_last()).fed(s.id.sbn, s.id.esi, s.data@)
    }
}

/// What an encoder gives out, source or repair symbols, is numbered in order and
/// made for a decoder of the same object: whatever run of it a decoder gets, it
/// holds symbols of that object only, so that what it reconstructs is the object.
pub proof fn law_encoder_serves_decoder(
    d: DecoderView,
    symbols: Seq<Symbol>,
    object: Seq<u8>,
    sbn: u32,
    first: int,
    count: int,
)
    requires
        encoder::symbol_run(
            symbols,
            object,
            layout::mtu_for(d.meta.symbol_size),
            sbn,
            first,
            count,
        ),
        d.from_object(object),
        0 <= first,
        first + count <= 0x100_0000,
    ensures
        symbols.len() == count,
        forall|i: int|
            0 <= i < count ==> (#[trigger] symbols[i]).id.sbn == sbn && symbols[i].id.esi == first
                + i,
        fed_all(d, symbols).from_object(object),
        fed_all(d, symbols).meta == d.meta,
    decreases count,
{
    if count > 0 {
        let rest = symbols.drop_last();
        let s = symbols.last();
        assert(encoder::symbol_run(
            rest,
            object,
            layout::mtu_for(d.meta.symbol_size),
            sbn,
            first,
            count - 1,
        )) by {
            assert forall|i: int| #![trigger rest[i]] 0 <= i < count - 1 implies rest[i].id == (
            SymbolId { sbn, esi: (first + i) as u32 }) && rest[i].data@ == codec::encoded_block(
                object,
                layout::mtu_for(d.meta.symbol_size),
                sbn as int,
            )[first + i] by {
                assert(rest[i] == symbols[i]);
            }
        }
        law_encoder_serves_decoder(d, rest, object, sbn, first, count - 1);
        let before = fed_all(d, rest);
        assert(s == symbols[count - 1]);
        decoder::law_genuine_symbols_stay(before, object, s.id.sbn, s.id.esi);
    }
}

/// The limits of the codec and of a receiver.
pub proof fn law_limits()
    ensures
        config::DEFAULT_SYMBOL_SIZE == 1024,
        codec::ESI_LIMIT == 0x100_0000,
        codec::MAX_BLOCK_SYMBOLS == 56_403,
        meta::MAX_OBJECT_BYTES == 33_554_432,
        meta::MAX_ORIGINAL_BYTES == 268_435_456,
        meta::MAX_TOTAL_SOURCE_SYMBOLS == 524_288,
{
}

} // verus!
