//! Reconstructing an object from symbols.
use crate::raptorq_core::codec;
use crate::raptorq_core::layout;
use crate::raptorq_core::meta;
use crate::raptorq_core::meta::MetaView;
use crate::raptorq_core::{Error, ObjectMeta, Symbol};
use crate::wire;
use std::collections::HashSet;
use vstd::prelude::*;

verus! {

broadcast use vstd::std_specs::hash::group_hash_axioms;

/// Reconstruction state of one source block.
struct BlockState {
    decoder: raptorq::SourceBlockDecoder,
    decoded: Option<Vec<u8>>,
    /// Ids of the symbols that the decoder holds.
    held: HashSet<u32>,
}

/// RaptorQ decoder for a single object.
///
/// It takes symbols in any order. A block is reconstructed as soon as it holds
/// enough independent symbols, and ignores further ones.
pub struct Decoder {
    meta: ObjectMeta,
    blocks: Vec<BlockState>,
}

/// What is known of one block: the symbols held, in the order of their arrival,
/// and its bytes once they are reconstructed.
#[verifier::ext_equal]
pub struct BlockView {
    pub symbols: Seq<(u32, Seq<u8>)>,
    pub decoded: Option<Seq<u8>>,
}

/// What a [`Decoder`] stands for.
#[verifier::ext_equal]
pub struct DecoderView {
    pub meta: MetaView,
    pub blocks: Seq<BlockView>,
}

/// The ids of `symbols`.
pub open spec fn symbol_ids(symbols: Seq<(u32, Seq<u8>)>) -> Seq<u32> {
    symbols.map_values(|s: (u32, Seq<u8>)| s.0)
}

/// The blocks' bytes, one after the other.
pub open spec fn joined(blocks: Seq<BlockView>) -> Seq<u8>
    decreases blocks.len(),
{
    if blocks.len() == 0 {
        Seq::empty()
    } else {
        joined(blocks.drop_last()) + blocks.last().decoded->0
    }
}

/// How many of `blocks` are reconstructed.
pub open spec fn decoded_count(blocks: Seq<BlockView>) -> nat
    decreases blocks.len(),
{
    if blocks.len() == 0 {
        0
    } else {
        decoded_count(blocks.drop_last()) + if blocks.last().decoded is Some {
            1nat
        } else {
            0
        }
    }
}

impl DecoderView {
    /// A decoder for `meta` that holds nothing.
    pub open spec fn fresh(meta: MetaView) -> DecoderView {
        DecoderView {
            meta,
            blocks: Seq::new(
                meta.blocks.len(),
                |i: int| BlockView { symbols: Seq::empty(), decoded: None },
            ),
        }
    }

    /// The decoder takes in a symbol with these coordinates: the block exists,
    /// the id fits in 24 bits, the size is right, and the block is not yet
    /// reconstructed.
    pub open spec fn takes(self, sbn: u32, esi: u32, data: Seq<u8>) -> bool {
        &&& sbn < self.blocks.len()
        &&& esi < codec::ESI_LIMIT
        &&& data.len() == self.meta.symbol_size
        &&& self.blocks[sbn as int].decoded is None
    }

    /// The decoder after a symbol was fed to it.
    pub open spec fn fed(self, sbn: u32, esi: u32, data: Seq<u8>) -> DecoderView {
        if self.takes(sbn, esi, data) {
            let symbols = codec::with_symbol(self.blocks[sbn as int].symbols, esi, data);
            let decoded = codec::block_decode(
                sbn as u8,
                self.meta.oti,
                self.meta.blocks[sbn as int].block_length,
                symbols,
            );
            DecoderView {
                blocks: self.blocks.update(sbn as int, BlockView { symbols, decoded }),
                ..self
            }
        } else {
            self
        }
    }

    /// Every block is reconstructed.
    pub open spec fn complete(self) -> bool {
        forall|i: int| 0 <= i < self.blocks.len() ==> (#[trigger] self.blocks[i]).decoded is Some
    }

    /// The object, once every block is reconstructed.
    pub open spec fn assembled(self) -> Seq<u8> {
        joined(self.blocks).take(self.meta.transfer_length as int)
    }

    /// Block `i` is reconstructed exactly as far as the codec can from the
    /// symbols that it holds.
    pub open spec fn block_settled(self, i: int) -> bool {
        let b = self.blocks[i];
        b.decoded == if b.symbols.len() == 0 {
            None
        } else {
            codec::block_decode(
                i as u8,
                self.meta.oti,
                self.meta.blocks[i].block_length,
                b.symbols,
            )
        }
    }

    /// Every block is reconstructed exactly as far as the codec can.
    pub open spec fn settled(self) -> bool {
        forall|i: int| 0 <= i < self.blocks.len() ==> #[trigger] self.block_settled(i)
    }

    /// Block `i` holds symbols with distinct ids and the right size, and what
    /// is reconstructed of it is what the codec gives for them.
    pub open spec fn block_sound(self, i: int) -> bool {
        let b = self.blocks[i];
        &&& self.block_settled(i)
        &&& symbol_ids(b.symbols).no_duplicates()
        &&& forall|j: int|
            0 <= j < b.symbols.len() ==> (#[trigger] b.symbols[j]).0 < codec::ESI_LIMIT
                && b.symbols[j].1.len() == self.meta.symbol_size
        &&& codec::reconstructs(
            i as u8,
            self.meta.oti,
            self.meta.blocks[i].block_length,
            b.symbols,
            b.decoded,
        )
    }

    /// The decoder is for valid metadata and every block is sound.
    pub open spec fn sound(self) -> bool {
        &&& self.meta.valid()
        &&& self.blocks.len() == self.meta.blocks.len()
        &&& forall|i: int| 0 <= i < self.blocks.len() ==> #[trigger] self.block_sound(i)
    }

    /// Every symbol held by block `i` is an encoding symbol of that block of
    /// `object`.
    pub open spec fn block_from(self, object: Seq<u8>, i: int) -> bool {
        let symbols = self.blocks[i].symbols;
        forall|j: int|
            0 <= j < symbols.len() ==> (#[trigger] symbols[j]).1 == codec::encoded_block(
                object,
                layout::mtu_for(self.meta.symbol_size),
                i,
            )[symbols[j].0 as int]
    }

    /// The decoder was made for `object`, and holds encoding symbols of it only.
    pub open spec fn from_object(self, object: Seq<u8>) -> bool {
        &&& self.meta == layout::object_meta(object.len(), self.meta.symbol_size)
        &&& forall|i: int| 0 <= i < self.blocks.len() ==> #[trigger] self.block_from(object, i)
    }
}

/// Valid metadata is what the block decoder is written for.
pub proof fn lemma_valid_decodable(m: MetaView, i: int)
    requires
        m.valid(),
        0 <= i < m.blocks.len(),
    ensures
        codec::decodable(m.oti, m.blocks[i].block_length),
        codec::decoder_k(m.oti, m.blocks[i].block_length) == m.blocks[i].num_source_symbols,
        m.info().symbol_size == m.symbol_size,
        codec::decoder_k(m.oti, m.blocks[i].block_length) * m.info().symbol_size
            == m.blocks[i].block_length,
{
    assert(m.valid_block(i));
    let k = m.blocks[i].num_source_symbols as int;
    let t = m.symbol_size as int;
    let len = m.blocks[i].block_length as nat;
    layout::lemma_ceil_div(len, t as nat);
    let c = codec::ceil_div(len, t as nat) as int;
    assert(c == k) by (nonlinear_arith)
        requires
            k * t <= c * t < k * t + t,
            t > 0,
    ;
}

/// A block holds at most 2^24 symbols.
pub proof fn lemma_symbol_count(symbols: Seq<(u32, Seq<u8>)>)
    requires
        symbol_ids(symbols).no_duplicates(),
        forall|j: int| 0 <= j < symbols.len() ==> (#[trigger] symbols[j]).0 < codec::ESI_LIMIT,
    ensures
        symbols.len() <= codec::ESI_LIMIT,
        symbol_ids(symbols).to_set().len() == symbols.len(),
{
    let ids = symbol_ids(symbols);
    ids.unique_seq_to_set();
    let ints = ids.map_values(|id: u32| id as int);
    assert(ints.no_duplicates()) by {
        assert forall|i: int, j: int|
            0 <= i < ints.len() && 0 <= j < ints.len() && i != j implies ints[i] != ints[j] by {
            assert(ids[i] != ids[j]);
        }
    }
    ints.unique_seq_to_set();
    let range = vstd::set_lib::set_int_range(0, codec::ESI_LIMIT as int);
    vstd::set_lib::lemma_int_range(0, codec::ESI_LIMIT as int);
    assert(ints.to_set().subset_of(range)) by {
        assert forall|x: int| ints.to_set().contains(x) implies range.contains(x) by {
            let i = choose|i: int| 0 <= i < ints.len() && ints[i] == x;
            assert(symbols[i].0 < codec::ESI_LIMIT);
        }
    }
    vstd::set_lib::lemma_len_subset(ints.to_set(), range);
}

/// What taking in one more symbol does to the ids held.
proof fn lemma_ids_with_symbol(symbols: Seq<(u32, Seq<u8>)>, esi: u32, data: Seq<u8>)
    ensures
        symbol_ids(codec::with_symbol(symbols, esi, data)).to_set() == symbol_ids(
            symbols,
        ).to_set().insert(esi),
        symbol_ids(symbols).no_duplicates() ==> symbol_ids(
            codec::with_symbol(symbols, esi, data),
        ).no_duplicates(),
{
    let ids = symbol_ids(symbols);
    let after = symbol_ids(codec::with_symbol(symbols, esi, data));
    if codec::holds_symbol(symbols, esi) {
        let i = choose|i: int| 0 <= i < symbols.len() && (#[trigger] symbols[i]).0 == esi;
        assert(ids[i] == esi);
        assert(ids.to_set().contains(esi));
        assert(after.to_set() =~= ids.to_set().insert(esi));
    } else {
        assert(after =~= ids.push(esi));
        assert forall|x: u32| #[trigger] after.to_set().contains(x) <==> ids.to_set().insert(
            esi,
        ).contains(x) by {
            if after.to_set().contains(x) {
                let i = choose|i: int| 0 <= i < after.len() && after[i] == x;
                if i < ids.len() {
                    assert(ids[i] == x);
                }
            }
            if ids.to_set().contains(x) {
                let i = choose|i: int| 0 <= i < ids.len() && ids[i] == x;
                assert(after[i] == x);
            }
            assert(after[ids.len() as int] == esi);
        }
        assert(after.to_set() =~= ids.to_set().insert(esi));
        assert forall|i: int| 0 <= i < ids.len() implies ids[i] != esi by {
            assert(symbols[i].0 == ids[i]);
        }
    }
}

/// A sound decoder stays sound when the codec's answer for the new symbols is
/// what the codec gives.
proof fn lemma_fed_sound(d: DecoderView, sbn: u32, esi: u32, data: Seq<u8>)
    requires
        d.sound(),
        d.takes(sbn, esi, data),
        codec::reconstructs(
            sbn as u8,
            d.meta.oti,
            d.meta.blocks[sbn as int].block_length,
            d.fed(sbn, esi, data).blocks[sbn as int].symbols,
            d.fed(sbn, esi, data).blocks[sbn as int].decoded,
        ),
    ensures
        d.fed(sbn, esi, data).sound(),
{
    let after = d.fed(sbn, esi, data);
    assert forall|i: int| 0 <= i < after.blocks.len() implies #[trigger] after.block_sound(i) by {
        assert(d.block_sound(i));
        if i == sbn {
            lemma_ids_with_symbol(d.blocks[i].symbols, esi, data);
        }
    }
}

impl View for Decoder {
    type V = DecoderView;

    closed spec fn view(&self) -> DecoderView {
        DecoderView {
            meta: self.meta@,
            blocks: self.blocks@.map_values(
                |b: BlockState| BlockView {
                    symbols: codec::decoder_symbols(b.decoder),
                    decoded: codec::option_view(b.decoded),
                },
            ),
        }
    }
}

impl Decoder {
    /// Each block's state belongs to its block.
    pub closed spec fn inner_wf(self) -> bool {
        forall|i: int|
            0 <= i < self.blocks@.len() ==> {
                &&& codec::decoder_origin((#[trigger] self.blocks@[i]).decoder) == (
                    i as u8,
                    self@.meta.oti,
                    self@.meta.blocks[i].block_length,
                )
                &&& self.blocks@[i].held@ == symbol_ids(self@.blocks[i].symbols).to_set()
            }
    }

    /// The decoder is in a state that symbols can bring about.
    pub open spec fn wf(self) -> bool {
        self.inner_wf() && self@.sound()
    }

    /// A decoder for `meta`, which must be valid.
    pub fn new(meta: ObjectMeta) -> (r: Result<Self, Error>)
        ensures
            match r {
                Ok(decoder) => {
                    &&& meta@.valid()
                    &&& decoder.wf()
                    &&& decoder@ == DecoderView::fresh(meta@)
                },
                Err(e) => {
                    &&& !meta@.valid()
                    &&& e matches Error::InvalidObjectMeta(reason) && meta@.rejection() == Some(
                        reason@,
                    )
                },
            },
    {
        match meta.validate() {
            Ok(_) => {},
            Err(reason) => {
                return Err(Error::InvalidObjectMeta(reason));
            },
        }
        let mut blocks: Vec<BlockState> = Vec::new();
        let mut i: usize = 0;
        while i < meta.blocks.len()
            invariant
                meta@.valid(),
                i <= meta.blocks@.len(),
                blocks@.len() == i,
                forall|j: int|
                    0 <= j < i ==> {
                        &&& codec::decoder_origin((#[trigger] blocks@[j]).decoder) == (
                            j as u8,
                            meta@.oti,
                            meta@.blocks[j].block_length,
                        )
                        &&& codec::decoder_symbols(blocks@[j].decoder) == Seq::<
                            (u32, Seq<u8>),
                        >::empty()
                        &&& blocks@[j].decoded is None
                        &&& blocks@[j].held@ == Set::<u32>::empty()
                    },
            decreases meta.blocks@.len() - i,
        {
            proof {
                lemma_valid_decodable(meta@, i as int);
                assert(meta@.valid_block(i as int));
            }
            let b = meta.blocks[i];
            let decoder = codec::new_block_decoder(b.sbn as u8, &meta.oti_bytes, b.block_length);
            blocks.push(BlockState { decoder, decoded: None, held: HashSet::new() });
            i = i + 1;
        }
        let decoder = Decoder { meta, blocks };
        proof {
            assert(decoder@ =~= DecoderView::fresh(meta@));
            assert forall|j: int| 0 <= j < decoder@.blocks.len() implies #[trigger]
                decoder@.block_sound(j) by {
                lemma_valid_decodable(meta@, j);
                assert(meta@.valid_block(j));
                let k = codec::decoder_k(meta@.oti, meta@.blocks[j].block_length);
                assert(!codec::holds_symbol(Seq::<(u32, Seq<u8>)>::empty(), 0));
                assert(0 < k);
            }
            assert forall|j: int| 0 <= j < decoder.blocks@.len() implies (
            #[trigger] decoder.blocks@[j]).held@ == symbol_ids(
                decoder@.blocks[j].symbols,
            ).to_set() by {
                assert(symbol_ids(decoder@.blocks[j].symbols).to_set() =~= Set::<u32>::empty());
            }
        }
        Ok(decoder)
    }

    /// The metadata that the decoder was made for.
    pub fn meta(&self) -> (meta: &ObjectMeta)
        ensures
            meta@ == self@.meta,
    {
        &self.meta
    }

    /// Number of distinct symbols that block `sbn` has taken in, or `None` if
    /// there is no such block.
    pub fn block_progress(&self, sbn: u32) -> (n: Option<u32>)
        requires
            self.wf(),
        ensures
            n == if sbn < self@.blocks.len() {
                Some(self@.blocks[sbn as int].symbols.len() as u32)
            } else {
                None::<u32>
            },
            sbn < self@.blocks.len() ==> self@.blocks[sbn as int].symbols.len() <= codec::ESI_LIMIT,
    {
        if (sbn as usize) < self.blocks.len() {
            proof {
                assert(self@.block_sound(sbn as int));
                lemma_symbol_count(self@.blocks[sbn as int].symbols);
            }
            Some(self.blocks[sbn as usize].held.len() as u32)
        } else {
            None
        }
    }

    /// Whether block `sbn` is reconstructed.
    pub fn is_block_decoded(&self, sbn: u32) -> (decoded: bool)
        ensures
            decoded == (sbn < self@.blocks.len() && self@.blocks[sbn as int].decoded is Some),
    {
        (sbn as usize) < self.blocks.len() && self.blocks[sbn as usize].decoded.is_some()
    }

    /// Feed a symbol: source or repair, in any order, duplicates allowed. A
    /// symbol with an impossible id or size is ignored, and so is one for a
    /// block that is already reconstructed.
    ///
    /// Returns whether this symbol completed the object.
    pub fn add_symbol(&mut self, symbol: &Symbol) -> (r: Result<bool, Error>)
        requires
            old(self).wf(),
        ensures
            final(self).wf(),
            final(self)@ == old(self)@.fed(symbol.id.sbn, symbol.id.esi, symbol.data@),
            match r {
                Ok(completed) => {
                    &&& symbol.id.sbn < old(self)@.blocks.len()
                    &&& completed == (!old(self)@.complete() && final(self)@.complete())
                },
                Err(e) => {
                    &&& symbol.id.sbn >= old(self)@.blocks.len()
                    &&& e == (Error::BlockOutOfRange {
                        sbn: symbol.id.sbn,
                        total: old(self)@.blocks.len() as u32,
                    })
                },
            },
    {
        let sbn: usize = symbol.id.sbn as usize;
        if sbn >= self.blocks.len() {
            return Err(
                Error::BlockOutOfRange { sbn: symbol.id.sbn, total: self.blocks.len() as u32 },
            );
        }
        if symbol.id.esi >= codec::ESI_LIMIT || symbol.data.len()
            != self.meta.symbol_size as usize {
            return Ok(false);
        }
        if self.blocks[sbn].decoded.is_some() {
            return Ok(false);
        }
        let ghost before = self@;
        let esi: u32 = symbol.id.esi;
        proof {
            assert(self@.block_sound(sbn as int));
            lemma_valid_decodable(self@.meta, sbn as int);
            assert(self.blocks@[sbn as int].held@ == symbol_ids(
                before.blocks[sbn as int].symbols,
            ).to_set());
        }
        let data = wire::copy_of(&symbol.data);
        let block = &mut self.blocks[sbn];
        block.held.insert(esi);
        let result = codec::decode_symbol(&mut block.decoder, symbol.id.sbn as u8, esi, data);
        block.decoded = result;
        proof {
            lemma_fed_sound(before, sbn as u32, esi, symbol.data@);
            let after = before.fed(symbol.id.sbn, esi, symbol.data@);
            assert(self@.blocks =~= after.blocks);
            lemma_ids_with_symbol(before.blocks[sbn as int].symbols, esi, symbol.data@);
            assert(before.blocks[sbn as int].decoded is None);
        }
        Ok(self.is_complete())
    }

    /// Whether every source block is reconstructed.
    pub fn is_complete(&self) -> (complete: bool)
        ensures
            complete == self@.complete(),
    {
        let mut i: usize = 0;
        while i < self.blocks.len()
            invariant
                i <= self.blocks@.len(),
                forall|j: int| 0 <= j < i ==> (#[trigger] self@.blocks[j]).decoded is Some,
            decreases self.blocks@.len() - i,
        {
            if self.blocks[i].decoded.is_none() {
                assert(self@.blocks[i as int].decoded is None);
                return false;
            }
            i = i + 1;
        }
        true
    }

    /// Number of source blocks that are reconstructed.
    pub fn decoded_block_count(&self) -> (n: usize)
        ensures
            n == decoded_count(self@.blocks),
    {
        let mut n: usize = 0;
        let mut i: usize = 0;
        while i < self.blocks.len()
            invariant
                n <= i <= self.blocks@.len(),
                n == decoded_count(self@.blocks.take(i as int)),
            decreases self.blocks@.len() - i,
        {
            assert(self@.blocks.take(i + 1).drop_last() =~= self@.blocks.take(i as int));
            assert(self@.blocks.take(i + 1).last() == self@.blocks[i as int]);
            if self.blocks[i].decoded.is_some() {
                n = n + 1;
            }
            i = i + 1;
        }
        assert(self@.blocks.take(i as int) =~= self@.blocks);
        n
    }

    /// The object, once it is complete.
    pub fn assemble(&self) -> (object: Option<Vec<u8>>)
        requires
            self.wf(),
        ensures
            codec::option_view(object) == if self@.complete() {
                Some(self@.assembled())
            } else {
                None::<Seq<u8>>
            },
            object matches Some(bytes) ==> bytes@.len() == self@.meta.transfer_length,
    {
        if !self.is_complete() {
            return None;
        }
        let mut out: Vec<u8> = Vec::new();
        let mut i: usize = 0;
        while i < self.blocks.len()
            invariant
                self.wf(),
                self@.complete(),
                i <= self.blocks@.len(),
                out@ == joined(self@.blocks.take(i as int)),
                out@.len() == meta::total_bytes(self@.meta.blocks.take(i as int)),
            decreases self.blocks@.len() - i,
        {
            proof {
                assert(self@.blocks.take(i + 1).drop_last() =~= self@.blocks.take(i as int));
                assert(self@.meta.blocks.take(i + 1).drop_last() =~= self@.meta.blocks.take(
                    i as int,
                ));
                assert(self@.block_sound(i as int));
                assert(self@.blocks[i as int].decoded is Some);
                lemma_valid_decodable(self@.meta, i as int);
            }
            match &self.blocks[i].decoded {
                Some(bytes) => {
                    wire::push_bytes(&mut out, bytes);
                },
                None => {
                    assert(false);
                },
            }
            i = i + 1;
        }
        assert(self@.blocks.take(i as int) =~= self@.blocks);
        assert(self@.meta.blocks.take(i as int) =~= self@.meta.blocks);
        out.truncate(self.meta.transfer_length as usize);
        Some(out)
    }
}

/// A symbol of a block that is not reconstructed yet is handed to the codec,
/// source or repair, whatever its id below 2^24. The block holds it, unless it
/// holds one with that id already, and is reconstructed as soon as the codec can
/// from the symbols it then holds. No other block changes.
pub proof fn law_symbol_reaches_codec(d: DecoderView, sbn: u32, esi: u32, data: Seq<u8>)
    requires
        sbn < d.blocks.len(),
        esi < 0x100_0000,
        data.len() == d.meta.symbol_size,
        d.blocks[sbn as int].decoded is None,
    ensures
        ({
            let after = d.fed(sbn, esi, data);
            let held = d.blocks[sbn as int].symbols;
            let b = after.blocks[sbn as int];
            &&& after.meta == d.meta
            &&& after.blocks.len() == d.blocks.len()
            &&& forall|i: int|
                0 <= i < d.blocks.len() && i != sbn ==> #[trigger] after.blocks[i] == d.blocks[i]
            &&& b.symbols == if exists|j: int|
                0 <= j < held.len() && (#[trigger] held[j]).0 == esi {
                held
            } else {
                held.push((esi, data))
            }
            &&& b.decoded == codec::block_decode(
                sbn as u8,
                d.meta.oti,
                d.meta.blocks[sbn as int].block_length,
                b.symbols,
            )
        }),
{
}

/// A symbol of no block, with an id that does not fit in 24 bits, of the wrong
/// size or of a block that is reconstructed changes nothing.
pub proof fn law_useless_symbol_is_ignored(d: DecoderView, sbn: u32, esi: u32, data: Seq<u8>)
    requires
        sbn >= d.blocks.len() || esi >= 0x100_0000 || data.len() != d.meta.symbol_size
            || d.blocks[sbn as int].decoded is Some,
    ensures
        d.fed(sbn, esi, data) == d,
{
}

/// A decoder never waits for more than the codec does: whatever it is fed, every
/// block is reconstructed exactly as far as the codec can from the symbols held.
pub proof fn law_decoder_stays_settled(d: DecoderView, sbn: u32, esi: u32, data: Seq<u8>)
    requires
        d.settled(),
    ensures
        d.fed(sbn, esi, data).settled(),
        DecoderView::fresh(d.meta).settled(),
{
    let after = d.fed(sbn, esi, data);
    assert forall|i: int| 0 <= i < after.blocks.len() implies #[trigger] after.block_settled(i) by {
        assert(d.block_settled(i));
        if i == sbn && d.takes(sbn, esi, data) {
            let held = d.blocks[i].symbols;
            if codec::holds_symbol(held, esi) {
                let j = choose|j: int| 0 <= j < held.len() && (#[trigger] held[j]).0 == esi;
                assert(held.len() > 0);
            }
        }
    }
}

/// A decoder whose blocks the codec can all reconstruct from the symbols they
/// hold is complete.
pub proof fn law_decodable_blocks_complete(d: DecoderView)
    requires
        d.settled(),
        forall|i: int|
            0 <= i < d.blocks.len() ==> (#[trigger] d.blocks[i]).symbols.len() > 0
                && codec::block_decode(
                i as u8,
                d.meta.oti,
                d.meta.blocks[i].block_length,
                d.blocks[i].symbols,
            ) is Some,
    ensures
        d.complete(),
{
    assert forall|i: int| 0 <= i < d.blocks.len() implies (#[trigger] d.blocks[i]).decoded is Some by {
        assert(d.block_settled(i));
    }
}

/// Feeding a decoder genuine symbols of an object leaves it with genuine
/// symbols only.
pub proof fn law_genuine_symbols_stay(d: DecoderView, object: Seq<u8>, sbn: u32, esi: u32)
    requires
        d.from_object(object),
    ensures
        d.fed(
            sbn,
            esi,
            codec::encoded_block(
                object,
                layout::mtu_for(d.meta.symbol_size),
                sbn as int,
            )[esi as int],
        ).from_object(object),
{
    let data = codec::encoded_block(
        object,
        layout::mtu_for(d.meta.symbol_size),
        sbn as int,
    )[esi as int];
    let after = d.fed(sbn, esi, data);
    assert forall|i: int| 0 <= i < after.blocks.len() implies #[trigger] after.block_from(
        object,
        i,
    ) by {
        assert(d.block_from(object, i));
    }
}

/// The source symbols of every block suffice: a decoder that holds them is
/// complete.
pub proof fn law_source_symbols_suffice(d: DecoderView)
    requires
        d.sound(),
        forall|i: int, esi: u32|
            0 <= i < d.blocks.len() && esi < d.meta.blocks[i].num_source_symbols
                ==> #[trigger] codec::holds_symbol(d.blocks[i].symbols, esi),
    ensures
        d.complete(),
{
    assert forall|i: int| 0 <= i < d.blocks.len() implies (#[trigger] d.blocks[i]).decoded is Some by {
        assert(d.block_sound(i));
        lemma_valid_decodable(d.meta, i);
    }
}

/// The first `n` blocks are the first bytes of the padded object.
proof fn lemma_joined_blocks(d: DecoderView, object: Seq<u8>, n: int)
    requires
        d.sound(),
        d.from_object(object),
        d.complete(),
        codec::encodable(object.len(), layout::mtu_for(d.meta.symbol_size)),
        0 <= n <= d.blocks.len(),
    ensures
        ({
            let mtu = layout::mtu_for(d.meta.symbol_size);
            let t = d.meta.symbol_size as int;
            let padded = codec::zero_padded(
                object,
                (codec::object_symbols(object.len(), mtu) * t) as nat,
            );
            &&& 0 <= codec::symbols_before(object.len(), mtu, n) * t <= padded.len()
            &&& joined(d.blocks.take(n)) == padded.subrange(
                0,
                codec::symbols_before(object.len(), mtu, n) * t,
            )
        }),
    decreases n,
{
    let t = d.meta.symbol_size as int;
    let mtu = layout::mtu_for(d.meta.symbol_size);
    let kt = codec::object_symbols(object.len(), mtu) as int;
    let padded = codec::zero_padded(object, (kt * t) as nat);
    layout::lemma_symbol_size(d.meta.symbol_size);
    layout::lemma_block_count(object.len(), mtu);
    layout::lemma_symbols_before(object.len(), mtu, 0);
    assert(padded.len() == kt * t);
    let after = codec::symbols_before(object.len(), mtu, n) as int;
    assert(after <= kt) by {
        if n < d.blocks.len() {
            layout::lemma_symbols_before(object.len(), mtu, n);
        }
    }
    assert(0 <= after * t <= kt * t) by (nonlinear_arith)
        requires
            0 <= after <= kt,
            t > 0,
    ;
    if n == 0 {
        assert(after * t == 0) by (nonlinear_arith)
            requires
                after == 0,
        ;
        assert(d.blocks.take(0).len() == 0);
        assert(padded.subrange(0, 0) =~= Seq::<u8>::empty());
    } else {
        lemma_joined_blocks(d, object, n - 1);
        layout::lemma_symbols_before(object.len(), mtu, n - 1);
        layout::lemma_block_symbols(object.len(), mtu, n - 1);
        assert(d.blocks.take(n).drop_last() =~= d.blocks.take(n - 1));
        assert(d.block_sound(n - 1));
        assert(d.block_from(object, n - 1));
        assert(d.meta.valid_block(n - 1));
        assert(d.meta.blocks[n - 1] == layout::object_block(
            object.len(),
            d.meta.symbol_size,
            n - 1,
        ));
        let before = codec::symbols_before(object.len(), mtu, n - 1) as int;
        let k = codec::block_symbols(object.len(), mtu, n - 1) as int;
        assert(d.blocks[n - 1].decoded is Some);
        assert(k * t <= 56403 * 65528) by (nonlinear_arith)
            requires
                0 <= k <= 56403,
                0 < t <= 65528,
        ;
        assert(codec::drawn_from(
            (n - 1) as u8,
            d.meta.oti,
            d.meta.blocks[n - 1].block_length,
            d.blocks[n - 1].symbols,
            object,
            mtu,
        ));
        let block = d.blocks[n - 1].decoded->0;
        assert(block == codec::block_bytes(object, mtu, n - 1));
        assert(0 <= before * t <= after * t) by (nonlinear_arith)
            requires
                0 <= before <= after,
                t > 0,
        ;
        assert(padded.subrange(0, before * t) + padded.subrange(before * t, after * t)
            =~= padded.subrange(0, after * t));
    }
}

/// A complete decoder that was fed symbols of an object, in whatever order and
/// selection, assembles that object.
pub proof fn law_decoder_recovers_object(d: DecoderView, object: Seq<u8>)
    requires
        d.sound(),
        d.from_object(object),
        d.complete(),
        codec::encodable(object.len(), layout::mtu_for(d.meta.symbol_size)),
        object.len() <= u64::MAX,
    ensures
        d.assembled() == object,
{
    let mtu = layout::mtu_for(d.meta.symbol_size);
    let t = d.meta.symbol_size as int;
    let n = d.blocks.len() as int;
    lemma_joined_blocks(d, object, n);
    layout::lemma_symbol_size(d.meta.symbol_size);
    layout::lemma_block_count(object.len(), mtu);
    layout::lemma_symbols_before(object.len(), mtu, 0);
    assert(d.blocks.take(n) =~= d.blocks);
    assert(d.assembled() =~= object);
}

} // verus!
