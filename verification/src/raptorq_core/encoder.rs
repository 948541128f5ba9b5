//! Encoding an object into symbols.
use crate::raptorq_core::codec;
use crate::raptorq_core::config;
use crate::raptorq_core::layout;
use crate::raptorq_core::meta;
use crate::raptorq_core::meta::MetaView;
use crate::raptorq_core::{Config, Error, ObjectMeta, Symbol, SymbolId};
use crate::wire;
use vstd::prelude::*;

verus! {

/// The encoder of one block with its source symbols, which are generated once.
struct CachedBlock {
    encoder: raptorq::SourceBlockEncoder,
    source_packets: Vec<Vec<u8>>,
}

/// RaptorQ encoder for a single object.
///
/// Source symbols are looked up; repair symbols are generated on demand from
/// the fountain.
pub struct Encoder {
    config: Config,
    meta: ObjectMeta,
    blocks: Vec<CachedBlock>,
    object: Ghost<Seq<u8>>,
}

/// `symbols` are the `count` encoding symbols of block `sbn` of `object` whose
/// ids start at `first`.
pub open spec fn symbol_run(
    symbols: Seq<Symbol>,
    object: Seq<u8>,
    mtu: u16,
    sbn: u32,
    first: int,
    count: int,
) -> bool {
    &&& symbols.len() == count
    &&& forall|i: int|
        #![trigger symbols[i]]
        0 <= i < count ==> symbols[i].id == (SymbolId { sbn, esi: (first + i) as u32 })
            && symbols[i].data@ == codec::encoded_block(object, mtu, sbn as int)[first + i]
}

impl Encoder {
    /// The object that is encoded.
    pub closed spec fn object(self) -> Seq<u8> {
        self.object@
    }

    /// The configuration, in contracts.
    pub closed spec fn spec_config(self) -> Config {
        self.config
    }

    /// Bytes per symbol.
    pub open spec fn size(self) -> u32 {
        self.spec_config().symbol_size()
    }

    /// Packet size of the codec.
    pub open spec fn mtu(self) -> u16 {
        layout::mtu_for(self.size())
    }

    /// The metadata of the object.
    pub open spec fn meta_view(self) -> MetaView {
        layout::object_meta(self.object().len(), self.size())
    }

    /// Source symbols of block `sbn`.
    pub open spec fn k(self, sbn: int) -> nat {
        codec::block_symbols(self.object().len(), self.mtu(), sbn)
    }

    /// Number of source blocks.
    pub open spec fn block_count(self) -> nat {
        codec::object_blocks(self.object().len(), self.mtu())
    }

    /// The encoding symbol `esi` of block `sbn`.
    pub open spec fn symbol_bytes(self, sbn: int, esi: int) -> Seq<u8> {
        codec::encoded_block(self.object(), self.mtu(), sbn)[esi]
    }

    closed spec fn block_wf(self, sbn: int) -> bool {
        let block = self.blocks@[sbn];
        &&& codec::encoder_k(block.encoder) == self.k(sbn)
        &&& codec::encoder_symbols(block.encoder) == codec::encoded_block(
            self.object(),
            self.mtu(),
            sbn,
        )
        &&& block.source_packets@.len() == self.k(sbn)
        &&& forall|esi: int|
            #![trigger block.source_packets@[esi]]
            0 <= esi < self.k(sbn) ==> block.source_packets@[esi]@ == self.symbol_bytes(sbn, esi)
    }

    /// The cached blocks and metadata are those of the object.
    pub closed spec fn inner_wf(self) -> bool {
        &&& self.meta@ == self.meta_view()
        &&& self.blocks@.len() == self.block_count()
        &&& forall|sbn: int| 0 <= sbn < self.blocks@.len() ==> #[trigger] self.block_wf(sbn)
    }

    /// The encoder holds the encoding of its object. The metadata of an object
    /// within the receiver's budget is valid.
    pub open spec fn wf(self) -> bool {
        &&& self.inner_wf()
        &&& config::valid_symbol_size(self.size())
        &&& codec::encodable(self.object().len(), self.mtu())
        &&& self.object().len() <= usize::MAX
        &&& self.object().len() <= meta::MAX_OBJECT_BYTES ==> self.meta_view().valid()
        &&& forall|sbn: int, esi: int|
            #![trigger self.symbol_bytes(sbn, esi)]
            0 <= sbn < self.block_count() && 0 <= esi < codec::ESI_LIMIT ==> self.symbol_bytes(
                sbn,
                esi,
            ).len() == self.size()
    }

    /// Encode `data`. An object must not be empty, and the codec takes at most
    /// 255 blocks of 56403 symbols.
    pub fn new(data: &[u8], config: Config) -> (r: Result<Self, Error>)
        requires
            config::valid_symbol_size(config.symbol_size()) ==> codec::object_symbols(
                data@.len(),
                layout::mtu_for(config.symbol_size()),
            ) <= 255 * codec::MAX_BLOCK_SYMBOLS,
        ensures
            match r {
                Ok(encoder) => {
                    &&& data@.len() > 0
                    &&& config::valid_symbol_size(config.symbol_size())
                    &&& encoder.wf()
                    &&& encoder.object() == data@
                    &&& encoder.size() == config.symbol_size()
                },
                Err(e) => if data@.len() == 0 {
                    e == Error::EmptyData
                } else {
                    !config::valid_symbol_size(config.symbol_size()) && e
                        == Error::InvalidSymbolSize
                },
            },
    {
        if data.len() == 0 {
            return Err(Error::EmptyData);
        }
        let config = match Config::new(config.symbol_size()) {
            Ok(config) => config,
            Err(e) => {
                return Err(e);
            },
        };
        proof {
            layout::lemma_symbol_size(config.symbol_size());
        }
        let mtu: u16 = match config.mtu() {
            Ok(mtu) => mtu,
            Err(e) => {
                return Err(e);
            },
        };
        let ghost len = data@.len();
        proof {
            layout::lemma_block_count(len, mtu);
        }
        let oti = codec::default_oti(data.len() as u64, mtu);
        let encoders = codec::encode_object(data, mtu);
        let mut blocks: Vec<CachedBlock> = Vec::new();
        let mut counts: Vec<u32> = Vec::new();
        let ghost all = encoders@;
        for encoder in it: encoders
            invariant
                it.seq() == all,
                blocks@.len() == it.index(),
                counts@.len() == it.index(),
                codec::encodable(len, mtu),
                all.len() == codec::object_blocks(len, mtu),
                forall|sbn: int|
                    #![trigger all[sbn]]
                    0 <= sbn < all.len() ==> codec::encoder_k(all[sbn]) == codec::block_symbols(
                        len,
                        mtu,
                        sbn,
                    ),
                forall|sbn: int|
                    #![trigger blocks@[sbn]]
                    0 <= sbn < blocks@.len() ==> {
                        &&& blocks@[sbn].encoder == all[sbn]
                        &&& blocks@[sbn].source_packets@.len() == codec::encoder_k(all[sbn])
                        &&& forall|esi: int|
                            #![trigger blocks@[sbn].source_packets@[esi]]
                            0 <= esi < blocks@[sbn].source_packets@.len()
                                ==> blocks@[sbn].source_packets@[esi]@ == codec::encoder_symbols(
                                all[sbn],
                            )[esi]
                    },
                forall|sbn: int|
                    #![trigger counts@[sbn]]
                    0 <= sbn < counts@.len() ==> counts@[sbn] == codec::block_symbols(
                        len,
                        mtu,
                        sbn,
                    ),
        {
            let source_packets = codec::source_packets(&encoder);
            proof {
                layout::lemma_block_symbols(len, mtu, it.index() as int);
            }
            counts.push(source_packets.len() as u32);
            blocks.push(CachedBlock { encoder, source_packets });
        }
        let meta = ObjectMeta::from_encoder(data.len() as u64, config, oti, &counts);
        let encoder = Encoder { config, meta, blocks, object: Ghost(data@) };
        proof {
            assert(encoder.meta@ =~= encoder.meta_view());
            assert forall|sbn: int| 0 <= sbn < encoder.blocks@.len() implies #[trigger]
                encoder.block_wf(sbn) by {
                assert(encoder.blocks@[sbn].encoder == all[sbn]);
            }
            assert forall|sbn: int, esi: int|
                #![trigger encoder.symbol_bytes(sbn, esi)]
                0 <= sbn < encoder.block_count() && 0 <= esi
                    < codec::ESI_LIMIT implies encoder.symbol_bytes(sbn, esi).len()
                == encoder.size() by {
                assert(codec::encoder_symbols(all[sbn])[esi].len() == codec::symbol_size(mtu));
            }
            if len <= meta::MAX_OBJECT_BYTES {
                let info = codec::Oti::read(oti@);
                let t = codec::symbol_size(mtu);
                assert(info.symbol_alignment as u16 == 8);
                assert(t / 64 <= t / 8);
                assert(encoder.meta_view().valid_info());
                layout::lemma_object_meta_valid(len, config.symbol_size());
            }
        }
        Ok(encoder)
    }

    /// Metadata that describes the object to a decoder.
    pub fn meta(&self) -> (meta: &ObjectMeta)
        requires
            self.wf(),
        ensures
            meta@ == self.meta_view(),
    {
        &self.meta
    }

    pub fn config(&self) -> (config: Config)
        ensures
            config == self.spec_config(),
    {
        self.config
    }

    /// Number of source blocks.
    pub fn num_blocks(&self) -> (n: usize)
        requires
            self.wf(),
        ensures
            n == self.block_count(),
    {
        self.blocks.len()
    }

    /// Look up the source symbol `esi` of block `sbn`.
    pub fn source_symbol(&self, sbn: u32, esi: u32) -> (r: Result<Symbol, Error>)
        requires
            self.wf(),
        ensures
            match r {
                Ok(symbol) => {
                    &&& sbn < self.block_count()
                    &&& esi < self.k(sbn as int)
                    &&& symbol.id == (SymbolId { sbn, esi })
                    &&& symbol.data@ == self.symbol_bytes(sbn as int, esi as int)
                },
                Err(e) => if sbn >= self.block_count() {
                    e == (Error::BlockOutOfRange { sbn, total: self.block_count() as u32 })
                } else {
                    esi >= self.k(sbn as int) && e == (Error::UnknownSymbol { sbn, esi })
                },
            },
    {
        let block = match self.block(sbn) {
            Ok(block) => block,
            Err(e) => {
                return Err(e);
            },
        };
        proof {
            assert(self.block_wf(sbn as int));
            layout::lemma_block_symbols(self.object().len(), self.mtu(), sbn as int);
        }
        let k: u32 = self.meta.blocks[sbn as usize].num_source_symbols;
        if esi >= k {
            return Err(Error::UnknownSymbol { sbn, esi });
        }
        Ok(Symbol::new(sbn, esi, wire::copy_of(&block.source_packets[esi as usize])))
    }

    /// Generate `count` repair symbols of block `sbn`, from the `start`-th on.
    /// The id of each must fit in 24 bits.
    pub fn repair_symbols(&self, sbn: u32, start: u32, count: u32) -> (r: Result<
        Vec<Symbol>,
        Error,
    >)
        requires
            self.wf(),
        ensures
            ({
                let last_esi = self.k(sbn as int) + start + count - 1;
                match r {
                    Ok(symbols) => {
                        &&& sbn < self.block_count()
                        &&& count > 0 ==> last_esi < codec::ESI_LIMIT
                        &&& symbol_run(
                            symbols@,
                            self.object(),
                            self.mtu(),
                            sbn,
                            self.k(sbn as int) + start,
                            count as int,
                        )
                    },
                    Err(e) => if sbn >= self.block_count() {
                        e == (Error::BlockOutOfRange { sbn, total: self.block_count() as u32 })
                    } else {
                        &&& count > 0
                        &&& last_esi >= codec::ESI_LIMIT
                        &&& e == (Error::UnknownSymbol {
                            sbn,
                            esi: if last_esi <= u32::MAX {
                                last_esi as u32
                            } else {
                                u32::MAX
                            },
                        })
                    },
                }
            }),
    {
        let block = match self.block(sbn) {
            Ok(block) => block,
            Err(e) => {
                return Err(e);
            },
        };
        proof {
            assert(self.block_wf(sbn as int));
            layout::lemma_block_symbols(self.object().len(), self.mtu(), sbn as int);
        }
        let k: u32 = self.meta.blocks[sbn as usize].num_source_symbols;
        if count == 0 {
            return Ok(Vec::new());
        }
        let last_esi: u64 = k as u64 + start as u64 + (count - 1) as u64;
        if last_esi > u32::MAX as u64 {
            return Err(Error::UnknownSymbol { sbn, esi: u32::MAX });
        }
        if last_esi >= codec::ESI_LIMIT as u64 {
            return Err(Error::UnknownSymbol { sbn, esi: last_esi as u32 });
        }
        let packets = codec::repair_packets(&block.encoder, start, count);
        let ghost all = packets@;
        let mut symbols: Vec<Symbol> = Vec::new();
        let ghost first = k + start;
        for packet in it: packets
            invariant
                it.seq() == all,
                all.len() == count,
                first == k + start,
                k + start + count <= codec::ESI_LIMIT,
                forall|i: int|
                    #![trigger all[i]]
                    0 <= i < count ==> all[i]@ == codec::encoded_block(
                        self.object(),
                        self.mtu(),
                        sbn as int,
                    )[first + i],
                symbol_run(symbols@, self.object(), self.mtu(), sbn, first, it.index() as int),
        {
            let esi: u32 = k + start + symbols.len() as u32;
            symbols.push(Symbol::new(sbn, esi, packet));
        }
        Ok(symbols)
    }

    /// All source symbols of block `sbn`, in the order of their ids.
    pub fn source_symbols(&self, sbn: u32) -> (r: Result<Vec<Symbol>, Error>)
        requires
            self.wf(),
        ensures
            match r {
                Ok(symbols) => {
                    &&& sbn < self.block_count()
                    &&& symbol_run(
                        symbols@,
                        self.object(),
                        self.mtu(),
                        sbn,
                        0,
                        self.k(sbn as int) as int,
                    )
                },
                Err(e) => sbn >= self.block_count() && e == (Error::BlockOutOfRange {
                    sbn,
                    total: self.block_count() as u32,
                }),
            },
    {
        let block = match self.block(sbn) {
            Ok(block) => block,
            Err(e) => {
                return Err(e);
            },
        };
        proof {
            assert(self.block_wf(sbn as int));
            layout::lemma_block_symbols(self.object().len(), self.mtu(), sbn as int);
        }
        let mut symbols: Vec<Symbol> = Vec::new();
        let mut i: usize = 0;
        while i < block.source_packets.len()
            invariant
                i <= block.source_packets@.len() <= codec::MAX_BLOCK_SYMBOLS,
                forall|esi: int|
                    #![trigger block.source_packets@[esi]]
                    0 <= esi < block.source_packets@.len() ==> block.source_packets@[esi]@
                        == self.symbol_bytes(sbn as int, esi),
                symbol_run(symbols@, self.object(), self.mtu(), sbn, 0, i as int),
            decreases block.source_packets@.len() - i,
        {
            symbols.push(Symbol::new(sbn, i as u32, wire::copy_of(&block.source_packets[i])));
            i = i + 1;
        }
        Ok(symbols)
    }

    fn block(&self, sbn: u32) -> (r: Result<&CachedBlock, Error>)
        requires
            self.wf(),
        ensures
            match r {
                Ok(block) => sbn < self.block_count() && *block == self.blocks@[sbn as int],
                Err(e) => sbn >= self.block_count() && e == (Error::BlockOutOfRange {
                    sbn,
                    total: self.block_count() as u32,
                }),
            },
    {
        proof {
            layout::lemma_block_count(self.object().len(), self.mtu());
        }
        if (sbn as usize) < self.blocks.len() {
            Ok(&self.blocks[sbn as usize])
        } else {
            Err(Error::BlockOutOfRange { sbn, total: self.blocks.len() as u32 })
        }
    }
}

} // verus!
