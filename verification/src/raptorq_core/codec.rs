//! The boundary to the `raptorq` crate.
//!
//! An object of `len` bytes is cut into `kt` symbols of `t` bytes (the last one
//! zero-padded), and these into consecutive source blocks whose sizes differ by
//! at most one symbol. Within a block every encoding symbol id below 2^24 names
//! one encoding symbol.
use crate::wire;
use vstd::prelude::*;

verus! {

/// Most source symbols in one block (RFC 6330, K'_max).
pub const MAX_BLOCK_SYMBOLS: u32 = 56403;

/// Number of encoding symbol ids per block.
pub const ESI_LIMIT: u32 = 0x100_0000;

/// `a / b`, rounded up.
pub open spec fn ceil_div(a: nat, b: nat) -> nat {
    ((a + b - 1) / b as int) as nat
}

/// Alignment in bytes that packets of `mtu` bytes get.
pub open spec fn alignment(mtu: u16) -> nat {
    if mtu >= 64 {
        8
    } else {
        1
    }
}

/// Symbol size that packets of `mtu` bytes get: `mtu` rounded down to the
/// alignment.
pub open spec fn symbol_size(mtu: u16) -> nat {
    (mtu - (mtu as int) % (alignment(mtu) as int)) as nat
}

/// Most sub-blocks that a block in packets of `mtu` bytes is cut into: one per
/// 64 bytes of an aligned symbol, one per byte of an unaligned one.
pub open spec fn max_sub_blocks(mtu: u16) -> nat {
    if mtu >= 64 {
        symbol_size(mtu) / 64
    } else {
        symbol_size(mtu)
    }
}

/// Source symbols of an object of `len` bytes.
pub open spec fn object_symbols(len: nat, mtu: u16) -> nat {
    ceil_div(len, symbol_size(mtu))
}

/// Source blocks of an object of `len` bytes.
pub open spec fn object_blocks(len: nat, mtu: u16) -> nat {
    ceil_div(object_symbols(len, mtu), MAX_BLOCK_SYMBOLS as nat)
}

/// Source symbols of block `sbn`: an even split, with the larger blocks first.
pub open spec fn block_symbols(len: nat, mtu: u16, sbn: int) -> nat {
    let kt = object_symbols(len, mtu) as int;
    let z = object_blocks(len, mtu) as int;
    (kt / z + if sbn < kt % z {
        1int
    } else {
        0
    }) as nat
}

/// Source symbols of the blocks before block `sbn`.
pub open spec fn symbols_before(len: nat, mtu: u16, sbn: int) -> nat {
    let kt = object_symbols(len, mtu) as int;
    let z = object_blocks(len, mtu) as int;
    (sbn * (kt / z) + if sbn < kt % z {
        sbn
    } else {
        kt % z
    }) as nat
}

/// `s` followed by zeros up to `len` bytes.
pub open spec fn zero_padded(s: Seq<u8>, len: nat) -> Seq<u8> {
    s + Seq::new((len - s.len()) as nat, |i: int| 0u8)
}

/// The source bytes of block `sbn` of `object`.
pub open spec fn block_bytes(object: Seq<u8>, mtu: u16, sbn: int) -> Seq<u8> {
    let t = symbol_size(mtu) as int;
    let first = symbols_before(object.len(), mtu, sbn) as int;
    zero_padded(object, (object_symbols(object.len(), mtu) * t) as nat).subrange(
        first * t,
        (first + block_symbols(object.len(), mtu, sbn)) * t,
    )
}

/// The object can be cut into at most 255 blocks of at most 56403 symbols.
pub open spec fn encodable(len: nat, mtu: u16) -> bool {
    mtu >= 64 && len > 0 && object_symbols(len, mtu) <= 255 * MAX_BLOCK_SYMBOLS
}

/// The fields of the 12-byte object transmission information.
#[derive(Debug, Clone, Copy, PartialEq, Eq, Structural)]
pub struct Oti {
    pub transfer_length: u64,
    pub symbol_size: u16,
    pub source_blocks: u8,
    pub sub_blocks: u16,
    pub symbol_alignment: u8,
}

impl Oti {
    /// The fields that the 12 bytes of `s` spell out. Byte 5 is reserved.
    pub open spec fn read(s: Seq<u8>) -> Oti {
        Oti {
            transfer_length: (wire::u32_at(s, 0) * 256 + s[4]) as u64,
            symbol_size: wire::u16_at(s, 6),
            source_blocks: s[8],
            sub_blocks: wire::u16_at(s, 9),
            symbol_alignment: s[11],
        }
    }
}

/// `raptorq::ObjectTransmissionInformation::deserialize` and its getters: the
/// fields are the big-endian integers at fixed offsets.
#[verifier::external_body]
pub(crate) fn read_oti(bytes: &[u8; 12]) -> (oti: Oti)
    ensures
        oti == Oti::read(bytes@),
{
    let oti = raptorq::ObjectTransmissionInformation::deserialize(bytes);
    Oti {
        transfer_length: oti.transfer_length(),
        symbol_size: oti.symbol_size(),
        source_blocks: oti.source_blocks(),
        sub_blocks: oti.sub_blocks(),
        symbol_alignment: oti.symbol_alignment(),
    }
}

/// The transmission information that the encoder chooses for an object of `len`
/// bytes in packets of `mtu` bytes.
pub uninterp spec fn encoding_oti(len: nat, mtu: u16) -> Seq<u8>;

/// `raptorq::ObjectTransmissionInformation::with_defaults`, serialized. The
/// lengths, the alignment and the block count follow from the arguments, as far
/// as their fields can hold them; the number of sub-blocks comes from a table
/// and is at least one and at most [`max_sub_blocks`].
#[verifier::external_body]
pub(crate) fn default_oti(len: u64, mtu: u16) -> (bytes: [u8; 12])
    requires
        len > 0,
        mtu > 0,
        object_symbols(len as nat, mtu) <= u32::MAX,
    ensures
        bytes@ == encoding_oti(len as nat, mtu),
        bytes@[5] == 0,
        Oti::read(bytes@).symbol_size == symbol_size(mtu),
        Oti::read(bytes@).symbol_alignment == alignment(mtu),
        1 <= Oti::read(bytes@).sub_blocks <= max_sub_blocks(mtu),
        len < 0x100_0000_0000 ==> Oti::read(bytes@).transfer_length == len,
        object_blocks(len as nat, mtu) <= u8::MAX ==> Oti::read(bytes@).source_blocks
            == object_blocks(len as nat, mtu),
{
    raptorq::ObjectTransmissionInformation::with_defaults(len, mtu).serialize()
}

/// `raptorq::SourceBlockEncoder`, the encoder of one source block.
#[verifier::external_type_specification]
#[verifier::external_body]
pub struct ExSourceBlockEncoder(raptorq::SourceBlockEncoder);

/// The encoding symbols that a block encoder gives out, by encoding symbol id.
pub uninterp spec fn encoder_symbols(encoder: raptorq::SourceBlockEncoder) -> Seq<Seq<u8>>;

/// How many source symbols a block encoder was made with.
pub uninterp spec fn encoder_k(encoder: raptorq::SourceBlockEncoder) -> nat;

/// The encoding symbols of block `sbn` of `object`, by encoding symbol id.
pub uninterp spec fn encoded_block(object: Seq<u8>, mtu: u16, sbn: int) -> Seq<Seq<u8>>;

/// `raptorq::Encoder::with_defaults` and its block encoders: one per source
/// block, made with the block's source symbols, giving out the block's encoding
/// symbols. Every encoding symbol has the symbol size.
#[verifier::external_body]
pub(crate) fn encode_object(data: &[u8], mtu: u16) -> (blocks: Vec<raptorq::SourceBlockEncoder>)
    requires
        encodable(data@.len(), mtu),
    ensures
        blocks@.len() == object_blocks(data@.len(), mtu),
        forall|sbn: int|
            #![trigger blocks@[sbn]]
            0 <= sbn < blocks@.len() ==> {
                &&& encoder_k(blocks@[sbn]) == block_symbols(data@.len(), mtu, sbn)
                &&& encoder_symbols(blocks@[sbn]) == encoded_block(data@, mtu, sbn)
                &&& encoder_symbols(blocks@[sbn]).len() == ESI_LIMIT
            },
        forall|sbn: int, esi: int|
            #![trigger encoder_symbols(blocks@[sbn])[esi]]
            0 <= sbn < blocks@.len() && 0 <= esi < ESI_LIMIT ==> encoder_symbols(
                blocks@[sbn],
            )[esi].len() == symbol_size(mtu),
{
    raptorq::Encoder::with_defaults(data, mtu).get_block_encoders().clone()
}

/// `raptorq::SourceBlockEncoder::source_packets`: the source symbols in the
/// order of their ids.
#[verifier::external_body]
pub(crate) fn source_packets(encoder: &raptorq::SourceBlockEncoder) -> (packets: Vec<Vec<u8>>)
    ensures
        packets@.len() == encoder_k(*encoder),
        forall|esi: int|
            #![trigger packets@[esi]]
            0 <= esi < packets@.len() ==> packets@[esi]@ == encoder_symbols(*encoder)[esi],
{
    encoder.source_packets().into_iter().map(|p| p.split().1).collect()
}

/// `raptorq::SourceBlockEncoder::repair_packets`: the `count` encoding symbols
/// whose ids start `start` past the source symbols. Ids stay below 2^24.
#[verifier::external_body]
pub(crate) fn repair_packets(
    encoder: &raptorq::SourceBlockEncoder,
    start: u32,
    count: u32,
) -> (packets: Vec<Vec<u8>>)
    requires
        encoder_k(*encoder) + start + count <= ESI_LIMIT,
    ensures
        packets@.len() == count,
        forall|i: int|
            #![trigger packets@[i]]
            0 <= i < count ==> packets@[i]@ == encoder_symbols(*encoder)[encoder_k(*encoder) + start
                + i],
{
    encoder.repair_packets(start, count).into_iter().map(|p| p.split().1).collect()
}

/// `raptorq::SourceBlockDecoder`, the decoder of one source block.
#[verifier::external_type_specification]
#[verifier::external_body]
pub struct ExSourceBlockDecoder(raptorq::SourceBlockDecoder);

/// What a block decoder was made with: block number, transmission information
/// and block length.
pub uninterp spec fn decoder_origin(decoder: raptorq::SourceBlockDecoder) -> (u8, Seq<u8>, u64);

/// The symbols that a block decoder holds, in the order of their arrival.
pub uninterp spec fn decoder_symbols(decoder: raptorq::SourceBlockDecoder) -> Seq<(u32, Seq<u8>)>;

/// What a block decoder made with these parameters reconstructs from `symbols`,
/// if they are enough.
pub uninterp spec fn block_decode(
    sbn: u8,
    oti: Seq<u8>,
    block_length: u64,
    symbols: Seq<(u32, Seq<u8>)>,
) -> Option<Seq<u8>>;

/// Source symbols of a block of `block_length` bytes.
pub open spec fn decoder_k(oti: Seq<u8>, block_length: u64) -> nat {
    ceil_div(block_length as nat, Oti::read(oti).symbol_size as nat)
}

/// The parameters that the block decoder is written for.
pub open spec fn decodable(oti: Seq<u8>, block_length: u64) -> bool {
    let o = Oti::read(oti);
    &&& o.symbol_size > 0
    &&& o.sub_blocks > 0
    &&& o.symbol_alignment > 0
    &&& o.symbol_size % o.symbol_alignment as u16 == 0
    &&& 1 <= decoder_k(oti, block_length) <= MAX_BLOCK_SYMBOLS
}

/// Some symbol of `symbols` has the id `esi`.
pub open spec fn holds_symbol(symbols: Seq<(u32, Seq<u8>)>, esi: u32) -> bool {
    exists|i: int| 0 <= i < symbols.len() && (#[trigger] symbols[i]).0 == esi
}

/// `symbols` with one more symbol, of which only the first with its id counts.
pub open spec fn with_symbol(symbols: Seq<(u32, Seq<u8>)>, esi: u32, data: Seq<u8>) -> Seq<
    (u32, Seq<u8>),
> {
    if holds_symbol(symbols, esi) {
        symbols
    } else {
        symbols.push((esi, data))
    }
}

/// `symbols` are encoding symbols of block `sbn` of `object`, for a decoder
/// that was made for that block.
pub open spec fn drawn_from(
    sbn: u8,
    oti: Seq<u8>,
    block_length: u64,
    symbols: Seq<(u32, Seq<u8>)>,
    object: Seq<u8>,
    mtu: u16,
) -> bool {
    &&& encodable(object.len(), mtu)
    &&& oti == encoding_oti(object.len(), mtu)
    &&& sbn < object_blocks(object.len(), mtu)
    &&& block_length == block_symbols(object.len(), mtu, sbn as int) * symbol_size(mtu)
    &&& forall|i: int|
        0 <= i < symbols.len() ==> (#[trigger] symbols[i]).1 == encoded_block(
            object,
            mtu,
            sbn as int,
        )[symbols[i].0 as int]
}

/// The bytes of `block`, where there is one.
pub open spec fn option_view(block: Option<Vec<u8>>) -> Option<Seq<u8>> {
    match block {
        Some(b) => Some(b@),
        None => None,
    }
}

/// What is known of the reconstruction `block` from `symbols`. It needs at
/// least as many symbols as the block has source symbols; the source symbols
/// themselves always suffice. It is the whole block, and where every symbol is
/// an encoding symbol of some object's block, it is that block.
pub open spec fn reconstructs(
    sbn: u8,
    oti: Seq<u8>,
    block_length: u64,
    symbols: Seq<(u32, Seq<u8>)>,
    block: Option<Seq<u8>>,
) -> bool {
    let k = decoder_k(oti, block_length);
    &&& symbols.len() < k ==> block is None
    &&& (forall|esi: u32| esi < k ==> #[trigger] holds_symbol(symbols, esi)) ==> block is Some
    &&& block matches Some(b) ==> b.len() == k * Oti::read(oti).symbol_size
    &&& forall|object: Seq<u8>, mtu: u16|
        #![trigger drawn_from(sbn, oti, block_length, symbols, object, mtu)]
        drawn_from(sbn, oti, block_length, symbols, object, mtu) ==> (block matches Some(b) ==> b
            == block_bytes(object, mtu, sbn as int))
}

/// `raptorq::SourceBlockDecoder::new`: a decoder that holds nothing.
#[verifier::external_body]
pub(crate) fn new_block_decoder(sbn: u8, oti: &[u8; 12], block_length: u64) -> (decoder:
    raptorq::SourceBlockDecoder)
    requires
        decodable(oti@, block_length),
    ensures
        decoder_origin(decoder) == (sbn, oti@, block_length),
        decoder_symbols(decoder) == Seq::<(u32, Seq<u8>)>::empty(),
{
    let oti = raptorq::ObjectTransmissionInformation::deserialize(oti);
    raptorq::SourceBlockDecoder::new(sbn, &oti, block_length)
}

/// `raptorq::SourceBlockDecoder::decode` with one packet. The decoder keeps the
/// first symbol of each id. What it reconstructs depends on its parameters and
/// on the symbols it holds, in their order, and is as [`reconstructs`] says.
#[verifier::external_body]
pub(crate) fn decode_symbol(
    decoder: &mut raptorq::SourceBlockDecoder,
    sbn: u8,
    esi: u32,
    data: Vec<u8>,
) -> (block: Option<Vec<u8>>)
    requires
        decoder_origin(*old(decoder)).0 == sbn,
        decodable(decoder_origin(*old(decoder)).1, decoder_origin(*old(decoder)).2),
        esi < ESI_LIMIT,
        data@.len() == Oti::read(decoder_origin(*old(decoder)).1).symbol_size,
    ensures
        decoder_origin(*final(decoder)) == decoder_origin(*old(decoder)),
        decoder_symbols(*final(decoder)) == with_symbol(decoder_symbols(*old(decoder)), esi, data@),
        option_view(block) == block_decode(
            sbn,
            decoder_origin(*old(decoder)).1,
            decoder_origin(*old(decoder)).2,
            decoder_symbols(*final(decoder)),
        ),
        reconstructs(
            sbn,
            decoder_origin(*old(decoder)).1,
            decoder_origin(*old(decoder)).2,
            decoder_symbols(*final(decoder)),
            option_view(block),
        ),
{
    let id = raptorq::PayloadId::new(sbn, esi);
    decoder.decode(std::iter::once(raptorq::EncodingPacket::new(id, data)))
}

} // verus!
