//! Object metadata, and what a decoder may be built from.
use crate::raptorq_core::codec;
use crate::raptorq_core::config;
use crate::raptorq_core::Config;
use crate::wire;
use vstd::prelude::*;

verus! {

/// Ceiling on source symbols per block (RFC 6330, K'_max).
pub const MAX_SOURCE_SYMBOLS_PER_BLOCK: u32 = 56403;

/// Ceiling on the number of source blocks.
pub const MAX_SOURCE_BLOCKS: usize = 256;

/// Ceiling on the bytes of one RaptorQ object.
pub const MAX_OBJECT_BYTES: u64 = 32 * 1024 * 1024;

/// Receiver budget for the original size after decompression. It is separate
/// from [`MAX_OBJECT_BYTES`], so that a highly compressible object can be
/// recovered.
pub const MAX_ORIGINAL_BYTES: u64 = 256 * 1024 * 1024;

/// Ceiling on the source symbols of one object.
pub const MAX_TOTAL_SOURCE_SYMBOLS: u64 = 524_288;

/// One source block of an object. `block_length` is always
/// `num_source_symbols * symbol_size`, since the object is padded to whole
/// symbols.
#[derive(Debug, Clone, Copy, PartialEq, Eq, Structural)]
pub struct SourceBlockMeta {
    /// Source block number, from zero.
    pub sbn: u32,
    /// Source symbols of this block.
    pub num_source_symbols: u32,
    /// Bytes of this block.
    pub block_length: u64,
}

/// Object metadata carried alongside the symbol stream.
#[derive(Debug, PartialEq, Eq)]
pub struct ObjectMeta {
    /// Byte length of the object.
    pub transfer_length: u64,
    pub symbol_size: u32,
    /// Object transmission information on the wire, from which a decoder is
    /// built.
    pub oti_bytes: [u8; 12],
    pub blocks: Vec<SourceBlockMeta>,
}

/// What an [`ObjectMeta`] stands for.
#[verifier::ext_equal]
pub struct MetaView {
    pub transfer_length: u64,
    pub symbol_size: u32,
    pub oti: Seq<u8>,
    pub blocks: Seq<SourceBlockMeta>,
}

impl View for ObjectMeta {
    type V = MetaView;

    open spec fn view(&self) -> MetaView {
        MetaView {
            transfer_length: self.transfer_length,
            symbol_size: self.symbol_size,
            oti: self.oti_bytes@,
            blocks: self.blocks@,
        }
    }
}

/// Source symbols of all of `blocks`.
pub open spec fn total_symbols(blocks: Seq<SourceBlockMeta>) -> nat
    decreases blocks.len(),
{
    if blocks.len() == 0 {
        0
    } else {
        total_symbols(blocks.drop_last()) + blocks.last().num_source_symbols as nat
    }
}

/// Bytes of all of `blocks`.
pub open spec fn total_bytes(blocks: Seq<SourceBlockMeta>) -> nat
    decreases blocks.len(),
{
    if blocks.len() == 0 {
        0
    } else {
        total_bytes(blocks.drop_last()) + blocks.last().block_length as nat
    }
}

impl MetaView {
    /// The fields of the transmission information.
    pub open spec fn info(self) -> codec::Oti {
        codec::Oti::read(self.oti)
    }

    /// The transmission information is one that a decoder can be built from,
    /// and agrees with the rest of the metadata.
    pub open spec fn valid_info(self) -> bool {
        let oti = self.info();
        &&& oti.symbol_size == self.symbol_size
        &&& oti.transfer_length == self.transfer_length
        &&& oti.sub_blocks > 0
        &&& oti.symbol_alignment > 0
        &&& oti.symbol_size % oti.symbol_alignment as u16 == 0
        &&& oti.sub_blocks <= oti.symbol_size / oti.symbol_alignment as u16
        &&& oti.source_blocks == self.blocks.len()
        &&& self.oti[5] == 0
    }

    /// Block `i` has its number, an admissible symbol count and whole symbols.
    pub open spec fn valid_block(self, i: int) -> bool {
        let b = self.blocks[i];
        &&& b.sbn == i
        &&& 1 <= b.num_source_symbols <= MAX_SOURCE_SYMBOLS_PER_BLOCK
        &&& b.block_length == b.num_source_symbols * self.symbol_size
    }

    /// Metadata that a decoder may be built from: what a sender can produce,
    /// within the receiver's budgets.
    pub open spec fn valid(self) -> bool {
        &&& config::valid_symbol_size(self.symbol_size)
        &&& self.valid_info()
        &&& 1 <= self.transfer_length <= MAX_OBJECT_BYTES
        &&& 1 <= self.blocks.len() <= u8::MAX
        &&& forall|i: int| 0 <= i < self.blocks.len() ==> #[trigger] self.valid_block(i)
        &&& total_symbols(self.blocks) <= MAX_TOTAL_SOURCE_SYMBOLS
        &&& total_bytes(self.blocks) <= MAX_OBJECT_BYTES + self.symbol_size * self.blocks.len()
        &&& self.transfer_length <= total_bytes(self.blocks)
    }

    /// Why the block table is rejected from block `i` on, if it is.
    pub open spec fn block_rejection(self, i: int) -> Option<Seq<char>>
        decreases self.blocks.len() - i,
    {
        if i < 0 || i >= self.blocks.len() {
            None
        } else {
            let b = self.blocks[i];
            if b.sbn != i {
                Some("block sbn must equal its canonical index"@)
            } else if b.num_source_symbols == 0 || b.num_source_symbols
                > MAX_SOURCE_SYMBOLS_PER_BLOCK {
                Some("block K out of range"@)
            } else if b.block_length != b.num_source_symbols * self.symbol_size {
                Some("block_length inconsistent with K*symbol_size"@)
            } else {
                self.block_rejection(i + 1)
            }
        }
    }

    /// Why the metadata is rejected, if it is: the first of the checks, in
    /// their order, that fails.
    pub open spec fn rejection(self) -> Option<Seq<char>> {
        let oti = self.info();
        if !config::valid_symbol_size(self.symbol_size) {
            Some("symbol_size out of range"@)
        } else if oti.symbol_size == 0 || oti.symbol_size != self.symbol_size {
            Some("OTI symbol_size invalid or mismatched"@)
        } else if oti.transfer_length != self.transfer_length {
            Some("OTI transfer_length mismatched"@)
        } else if oti.sub_blocks == 0 || oti.symbol_alignment == 0 {
            Some("OTI sub-block/alignment must be non-zero"@)
        } else if oti.symbol_size % oti.symbol_alignment as u16 != 0 {
            Some("OTI symbol_size is not alignment-divisible"@)
        } else if oti.sub_blocks > oti.symbol_size / oti.symbol_alignment as u16 {
            Some("OTI sub-block count exceeds aligned symbol units"@)
        } else if self.oti[5] != 0 {
            Some("OTI reserved byte must be zero"@)
        } else if self.transfer_length == 0 || self.transfer_length > MAX_OBJECT_BYTES {
            Some("transfer_length exceeds local receiver budget"@)
        } else if self.blocks.len() == 0 || self.blocks.len() > u8::MAX {
            Some("source block count out of range"@)
        } else if oti.source_blocks != self.blocks.len() {
            Some("OTI source block count mismatched"@)
        } else if self.block_rejection(0) is Some {
            self.block_rejection(0)
        } else if total_symbols(self.blocks) > MAX_TOTAL_SOURCE_SYMBOLS {
            Some("total source symbol count exceeds local receiver budget"@)
        } else if total_bytes(self.blocks) > MAX_OBJECT_BYTES + self.symbol_size
            * self.blocks.len() {
            Some("decoder bytes exceed local receiver budget"@)
        } else if self.transfer_length > total_bytes(self.blocks) {
            Some("transfer_length exceeds total block bytes"@)
        } else {
            None
        }
    }
}

impl Clone for ObjectMeta {
    fn clone(&self) -> (meta: Self)
        ensures
            meta@ == self@,
    {
        let mut blocks: Vec<SourceBlockMeta> = Vec::new();
        blocks.extend_from_slice(&self.blocks);
        assert(blocks@ =~= self.blocks@);
        ObjectMeta {
            transfer_length: self.transfer_length,
            symbol_size: self.symbol_size,
            oti_bytes: self.oti_bytes,
            blocks,
        }
    }
}

impl ObjectMeta {
    /// Whether `other` is the same metadata.
    pub fn same(&self, other: &ObjectMeta) -> (same: bool)
        ensures
            same == (self@ == other@),
    {
        if self.transfer_length != other.transfer_length || self.symbol_size != other.symbol_size
            || self.blocks.len() != other.blocks.len() || !wire::same_bytes(
            &self.oti_bytes,
            &other.oti_bytes,
        ) {
            return false;
        }
        let mut i: usize = 0;
        while i < self.blocks.len()
            invariant
                i <= self.blocks@.len() == other.blocks@.len(),
                forall|j: int| 0 <= j < i ==> self.blocks@[j] == other.blocks@[j],
            decreases self.blocks@.len() - i,
        {
            if self.blocks[i] != other.blocks[i] {
                return false;
            }
            i = i + 1;
        }
        assert(self@ =~= other@);
        true
    }
}

/// The block table passes from block `i` on exactly where every block is valid.
pub proof fn lemma_block_rejection(m: MetaView, i: int)
    requires
        0 <= i <= m.blocks.len(),
    ensures
        m.block_rejection(i) is None <==> forall|j: int|
            i <= j < m.blocks.len() ==> #[trigger] m.valid_block(j),
    decreases m.blocks.len() - i,
{
    if i < m.blocks.len() {
        lemma_block_rejection(m, i + 1);
        if m.block_rejection(i) is None {
            assert(m.valid_block(i));
        } else if m.valid_block(i) {
            assert(m.block_rejection(i) == m.block_rejection(i + 1));
        }
    }
}

/// Blocks that pass the table check have a bounded number of symbols.
pub proof fn lemma_totals_bound(blocks: Seq<SourceBlockMeta>, symbol_size: u32)
    requires
        forall|i: int|
            0 <= i < blocks.len() ==> (#[trigger] blocks[i]).num_source_symbols
                <= MAX_SOURCE_SYMBOLS_PER_BLOCK,
        forall|i: int|
            0 <= i < blocks.len() ==> (#[trigger] blocks[i]).block_length
                == blocks[i].num_source_symbols * symbol_size,
    ensures
        total_symbols(blocks) <= blocks.len() * MAX_SOURCE_SYMBOLS_PER_BLOCK,
        total_bytes(blocks) == total_symbols(blocks) * symbol_size,
    decreases blocks.len(),
{
    if blocks.len() > 0 {
        let rest = blocks.drop_last();
        lemma_totals_bound(rest, symbol_size);
        assert(blocks.last() == blocks[blocks.len() - 1]);
        let a = total_symbols(rest) as int;
        let b = blocks.last().num_source_symbols as int;
        let t = symbol_size as int;
        assert((a + b) * t == a * t + b * t) by (nonlinear_arith);
        assert(total_symbols(blocks) * symbol_size == (a + b) * t);
        let n = rest.len() as int;
        assert((n + 1) * MAX_SOURCE_SYMBOLS_PER_BLOCK == n * MAX_SOURCE_SYMBOLS_PER_BLOCK
            + MAX_SOURCE_SYMBOLS_PER_BLOCK) by (nonlinear_arith);
    } else {
        assert(total_symbols(blocks) * symbol_size == 0) by (nonlinear_arith)
            requires
                total_symbols(blocks) == 0,
        ;
    }
}

impl ObjectMeta {
    /// Metadata of an object of `data_len` bytes whose blocks have `counts`
    /// source symbols.
    pub(crate) fn from_encoder(
        data_len: u64,
        config: Config,
        oti_bytes: [u8; 12],
        counts: &Vec<u32>,
    ) -> (meta: Self)
        requires
            counts@.len() <= u8::MAX,
        ensures
            meta@.transfer_length == data_len,
            meta@.symbol_size == config.symbol_size(),
            meta@.oti == oti_bytes@,
            meta@.blocks.len() == counts@.len(),
            forall|i: int|
                #![trigger meta@.blocks[i]]
                0 <= i < counts@.len() ==> meta@.blocks[i] == (SourceBlockMeta {
                    sbn: i as u32,
                    num_source_symbols: counts@[i],
                    block_length: (counts@[i] * config.symbol_size()) as u64,
                }),
    {
        let mut blocks: Vec<SourceBlockMeta> = Vec::new();
        let symbol_size: u32 = config.symbol_size();
        let mut i: usize = 0;
        while i < counts.len()
            invariant
                i <= counts@.len() <= u8::MAX,
                blocks@.len() == i,
                forall|j: int|
                    #![trigger blocks@[j]]
                    0 <= j < i ==> blocks@[j] == (SourceBlockMeta {
                        sbn: j as u32,
                        num_source_symbols: counts@[j],
                        block_length: (counts@[j] * symbol_size) as u64,
                    }),
            decreases counts@.len() - i,
        {
            let k: u32 = counts[i];
            assert(k * symbol_size <= u32::MAX * u32::MAX) by (nonlinear_arith)
                requires
                    k <= u32::MAX,
                    symbol_size <= u32::MAX,
            ;
            blocks.push(
                SourceBlockMeta {
                    sbn: i as u32,
                    num_source_symbols: k,
                    block_length: k as u64 * symbol_size as u64,
                },
            );
            i = i + 1;
        }
        ObjectMeta { transfer_length: data_len, symbol_size, oti_bytes, blocks }
    }

    /// The fields of the transmission information.
    pub fn oti(&self) -> (oti: codec::Oti)
        ensures
            oti == self@.info(),
    {
        codec::read_oti(&self.oti_bytes)
    }

    /// Check the block table and add it up: symbols and bytes.
    fn check_blocks(&self) -> (r: Result<(u64, u64), &'static str>)
        requires
            config::valid_symbol_size(self.symbol_size),
            self.blocks@.len() <= u8::MAX,
        ensures
            r is Ok <==> forall|i: int|
                0 <= i < self.blocks@.len() ==> #[trigger] self@.valid_block(i),
            match r {
                Ok((symbols, bytes)) => {
                    &&& self@.block_rejection(0) is None
                    &&& symbols == total_symbols(self.blocks@)
                    &&& bytes == total_bytes(self.blocks@)
                },
                Err(reason) => self@.block_rejection(0) == Some(reason@),
            },
    {
        proof {
            lemma_block_rejection(self@, 0);
        }
        let mut total_block_len: u64 = 0;
        let mut total_k: u64 = 0;
        let mut index: usize = 0;
        while index < self.blocks.len()
            invariant
                index <= self.blocks@.len() <= u8::MAX,
                config::valid_symbol_size(self.symbol_size),
                total_k == total_symbols(self.blocks@.take(index as int)),
                total_block_len == total_bytes(self.blocks@.take(index as int)),
                total_k <= index * MAX_SOURCE_SYMBOLS_PER_BLOCK,
                total_block_len <= index * MAX_SOURCE_SYMBOLS_PER_BLOCK * 65_528,
                self@.block_rejection(0) == self@.block_rejection(index as int),
                forall|j: int| 0 <= j < index ==> #[trigger] self@.valid_block(j),
            decreases self.blocks@.len() - index,
        {
            let b = self.blocks[index];
            proof {
                assert(self@.blocks[index as int] == b);
                assert(self@.valid_block(index as int) <==> b.sbn == index && 1
                    <= b.num_source_symbols <= MAX_SOURCE_SYMBOLS_PER_BLOCK && b.block_length
                    == b.num_source_symbols * self.symbol_size);
            }
            if b.sbn != index as u32 {
                return Err("block sbn must equal its canonical index");
            }
            if b.num_source_symbols == 0 || b.num_source_symbols > MAX_SOURCE_SYMBOLS_PER_BLOCK {
                return Err("block K out of range");
            }
            assert(b.num_source_symbols * self.symbol_size <= MAX_SOURCE_SYMBOLS_PER_BLOCK
                * 65_528) by (nonlinear_arith)
                requires
                    b.num_source_symbols <= MAX_SOURCE_SYMBOLS_PER_BLOCK,
                    self.symbol_size <= 65_528,
            ;
            let expect: u64 = b.num_source_symbols as u64 * self.symbol_size as u64;
            if b.block_length != expect {
                return Err("block_length inconsistent with K*symbol_size");
            }
            proof {
                let next = self.blocks@.take(index + 1);
                assert(next.drop_last() =~= self.blocks@.take(index as int));
                assert(next.last() == b);
                assert(self@.valid_block(index as int));
            }
            total_block_len = total_block_len + b.block_length;
            total_k = total_k + b.num_source_symbols as u64;
            index = index + 1;
        }
        assert(self.blocks@.take(index as int) =~= self.blocks@);
        Ok((total_k, total_block_len))
    }

    /// Validate metadata before it is used to build a decoder.
    ///
    /// A receiver reads metadata off an arbitrary screen, and the codec is
    /// written for trusted parameters. This gate rejects every shape that a
    /// sender never produces or that exceeds the receiver's budgets.
    pub fn validate(&self) -> (r: Result<(), &'static str>)
        ensures
            r is Ok <==> self@.valid(),
            match r {
                Ok(_) => self@.rejection() is None,
                Err(reason) => self@.rejection() == Some(reason@),
            },
    {
        if Config::new(self.symbol_size).is_err() {
            return Err("symbol_size out of range");
        }
        let oti = self.oti();
        if oti.symbol_size == 0 || oti.symbol_size as u32 != self.symbol_size {
            return Err("OTI symbol_size invalid or mismatched");
        }
        if oti.transfer_length != self.transfer_length {
            return Err("OTI transfer_length mismatched");
        }
        if oti.sub_blocks == 0 || oti.symbol_alignment == 0 {
            return Err("OTI sub-block/alignment must be non-zero");
        }
        if oti.symbol_size % oti.symbol_alignment as u16 != 0 {
            return Err("OTI symbol_size is not alignment-divisible");
        }
        let aligned_units: u16 = oti.symbol_size / oti.symbol_alignment as u16;
        if oti.sub_blocks > aligned_units {
            return Err("OTI sub-block count exceeds aligned symbol units");
        }
        if self.oti_bytes[5] != 0 {
            return Err("OTI reserved byte must be zero");
        }
        if self.transfer_length == 0 || self.transfer_length > MAX_OBJECT_BYTES {
            return Err("transfer_length exceeds local receiver budget");
        }
        if self.blocks.len() == 0 || self.blocks.len() > MAX_SOURCE_BLOCKS || self.blocks.len()
            > u8::MAX as usize {
            return Err("source block count out of range");
        }
        if oti.source_blocks as usize != self.blocks.len() {
            return Err("OTI source block count mismatched");
        }
        let (total_k, total_block_len) = match self.check_blocks() {
            Ok(totals) => totals,
            Err(reason) => {
                return Err(reason);
            },
        };
        if total_k > MAX_TOTAL_SOURCE_SYMBOLS {
            return Err("total source symbol count exceeds local receiver budget");
        }
        assert(self.symbol_size * self.blocks@.len() <= 65_528 * 255) by (nonlinear_arith)
            requires
                self.symbol_size <= 65_528,
                self.blocks@.len() <= 255,
        ;
        let padding_budget: u64 = self.symbol_size as u64 * self.blocks.len() as u64;
        if total_block_len > MAX_OBJECT_BYTES + padding_budget {
            return Err("decoder bytes exceed local receiver budget");
        }
        if self.transfer_length > total_block_len {
            return Err("transfer_length exceeds total block bytes");
        }
        Ok(())
    }
}

} // verus!
