//! Arithmetic of the block layout.
use crate::raptorq_core::codec;
use crate::raptorq_core::config;
use crate::raptorq_core::meta;
use crate::raptorq_core::meta::MetaView;
use crate::raptorq_core::SourceBlockMeta;
use vstd::prelude::*;

verus! {

/// Packet size for symbols of `t` bytes.
pub open spec fn mtu_for(t: u32) -> u16 {
    (t + 4) as u16
}

/// The metadata of an object of `len` bytes in symbols of `t` bytes.
pub open spec fn object_meta(len: nat, t: u32) -> MetaView {
    MetaView {
        transfer_length: len as u64,
        symbol_size: t,
        oti: codec::encoding_oti(len, mtu_for(t)),
        blocks: Seq::new(
            codec::object_blocks(len, mtu_for(t)),
            |sbn: int| object_block(len, t, sbn),
        ),
    }
}

/// Block `sbn` of an object of `len` bytes in symbols of `t` bytes.
pub open spec fn object_block(len: nat, t: u32, sbn: int) -> SourceBlockMeta {
    SourceBlockMeta {
        sbn: sbn as u32,
        num_source_symbols: codec::block_symbols(len, mtu_for(t), sbn) as u32,
        block_length: (codec::block_symbols(len, mtu_for(t), sbn) * t) as u64,
    }
}

/// `ceil_div` is the least multiple count that covers `a`.
pub proof fn lemma_ceil_div(a: nat, b: nat)
    requires
        b > 0,
    ensures
        a <= codec::ceil_div(a, b) * b < a + b,
        a > 0 ==> codec::ceil_div(a, b) >= 1,
        codec::ceil_div(a, b) <= a,
{
    let c = codec::ceil_div(a, b) as int;
    let n = a + b - 1;
    vstd::arithmetic::div_mod::lemma_fundamental_div_mod(n as int, b as int);
    assert(c * b == b * c) by (nonlinear_arith);
    assert(0 <= n % b as int && n % (b as int) < b);
    if a > 0 {
        assert(c >= 1) by (nonlinear_arith)
            requires
                a > 0,
                b > 0,
                a <= b * c,
        ;
    }
    assert(c <= a) by (nonlinear_arith)
        requires
            b > 0,
            a >= 0,
            b * c < a + b,
    ;
}

/// A symbol size is what its packets carry.
pub proof fn lemma_symbol_size(t: u32)
    requires
        config::valid_symbol_size(t),
    ensures
        mtu_for(t) == t + 4,
        mtu_for(t) >= 64,
        codec::symbol_size(mtu_for(t)) == t,
{
}

/// Every block of an encodable object has between one and 56403 symbols.
pub proof fn lemma_block_symbols(len: nat, mtu: u16, sbn: int)
    requires
        codec::encodable(len, mtu),
        0 <= sbn < codec::object_blocks(len, mtu),
    ensures
        codec::symbol_size(mtu) >= 64,
        1 <= codec::object_blocks(len, mtu) <= 255,
        1 <= codec::block_symbols(len, mtu, sbn) <= codec::MAX_BLOCK_SYMBOLS,
{
    lemma_block_count(len, mtu);
    let kt = codec::object_symbols(len, mtu) as int;
    let z = codec::object_blocks(len, mtu) as int;
    let m = codec::MAX_BLOCK_SYMBOLS as int;
    let q = kt / z;
    let r = kt % z;
    vstd::arithmetic::div_mod::lemma_fundamental_div_mod(kt, z);
    assert(1 <= q) by (nonlinear_arith)
        requires
            kt == z * q + r,
            0 <= r < z,
            z <= kt,
    ;
    assert(q <= m && (r > 0 ==> q < m)) by (nonlinear_arith)
        requires
            kt == z * q + r,
            0 <= r < z,
            kt <= z * m,
    ;
}

/// An encodable object has between one and 255 blocks, no more than symbols.
pub proof fn lemma_block_count(len: nat, mtu: u16)
    requires
        codec::encodable(len, mtu),
    ensures
        codec::symbol_size(mtu) >= 64,
        codec::object_symbols(len, mtu) >= 1,
        1 <= codec::object_blocks(len, mtu) <= 255,
        codec::object_blocks(len, mtu) <= codec::object_symbols(len, mtu),
        codec::object_symbols(len, mtu) <= codec::object_blocks(len, mtu)
            * codec::MAX_BLOCK_SYMBOLS,
        len <= codec::object_symbols(len, mtu) * codec::symbol_size(mtu) < len + codec::symbol_size(
            mtu,
        ),
{
    let kt = codec::object_symbols(len, mtu);
    let z = codec::object_blocks(len, mtu);
    let m = codec::MAX_BLOCK_SYMBOLS as nat;
    lemma_ceil_div(len, codec::symbol_size(mtu));
    lemma_ceil_div(kt, m);
    assert(z <= 255) by (nonlinear_arith)
        requires
            z * m < kt + m,
            kt <= 255 * m,
            m == 56403,
    ;
}

/// The blocks follow one another and cover all symbols.
pub proof fn lemma_symbols_before(len: nat, mtu: u16, sbn: int)
    requires
        codec::encodable(len, mtu),
        0 <= sbn < codec::object_blocks(len, mtu),
    ensures
        codec::symbols_before(len, mtu, 0) == 0,
        codec::symbols_before(len, mtu, sbn + 1) == codec::symbols_before(len, mtu, sbn)
            + codec::block_symbols(len, mtu, sbn),
        codec::symbols_before(len, mtu, codec::object_blocks(len, mtu) as int)
            == codec::object_symbols(len, mtu),
        codec::symbols_before(len, mtu, sbn + 1) <= codec::object_symbols(len, mtu),
{
    lemma_block_count(len, mtu);
    let kt = codec::object_symbols(len, mtu) as int;
    let z = codec::object_blocks(len, mtu) as int;
    let q = kt / z;
    let r = kt % z;
    vstd::arithmetic::div_mod::lemma_fundamental_div_mod(kt, z);
    assert(q >= 0) by (nonlinear_arith)
        requires
            kt == z * q + r,
            0 <= r < z,
            kt >= 0,
    ;
    assert((sbn + 1) * q == sbn * q + q) by (nonlinear_arith);
    assert(0 * q == 0) by (nonlinear_arith);
    assert(z * q == kt - r);
    assert(0 <= sbn * q) by (nonlinear_arith)
        requires
            0 <= sbn,
            q >= 0,
    ;
    assert((sbn + 1) * q <= z * q) by (nonlinear_arith)
        requires
            sbn + 1 <= z,
            q >= 0,
    ;
}

/// Symbols and bytes of the blocks before block `n` add up.
proof fn lemma_meta_totals(len: nat, t: u32, n: int)
    requires
        config::valid_symbol_size(t),
        codec::encodable(len, mtu_for(t)),
        0 <= n <= codec::object_blocks(len, mtu_for(t)),
    ensures
        meta::total_symbols(object_meta(len, t).blocks.take(n)) == codec::symbols_before(
            len,
            mtu_for(t),
            n,
        ),
        meta::total_bytes(object_meta(len, t).blocks.take(n)) == codec::symbols_before(
            len,
            mtu_for(t),
            n,
        ) * t,
    decreases n,
{
    lemma_block_count(len, mtu_for(t));
    lemma_symbols_before(len, mtu_for(t), 0);
    let blocks = object_meta(len, t).blocks;
    if n == 0 {
        assert(blocks.take(0).len() == 0);
        assert(codec::symbols_before(len, mtu_for(t), 0) * t == 0) by (nonlinear_arith)
            requires
                codec::symbols_before(len, mtu_for(t), 0) == 0,
        ;
    } else {
        lemma_meta_totals(len, t, n - 1);
        lemma_symbols_before(len, mtu_for(t), n - 1);
        lemma_block_symbols(len, mtu_for(t), n - 1);
        lemma_symbol_size(t);
        assert(blocks.take(n).drop_last() =~= blocks.take(n - 1));
        assert(blocks.take(n).last() == object_block(len, t, n - 1));
        let a = codec::symbols_before(len, mtu_for(t), n - 1) as int;
        let b = codec::block_symbols(len, mtu_for(t), n - 1) as int;
        assert((a + b) * t == a * t + b * t) by (nonlinear_arith);
        assert(b * t <= 56403 * 65528) by (nonlinear_arith)
            requires
                0 <= b <= 56403,
                t <= 65528,
        ;
        assert(codec::symbols_before(len, mtu_for(t), n) * t == (a + b) * t);
    }
}

/// The metadata of an object covers its symbols.
pub proof fn lemma_meta_total_symbols(len: nat, t: u32)
    requires
        config::valid_symbol_size(t),
        codec::encodable(len, mtu_for(t)),
    ensures
        meta::total_symbols(object_meta(len, t).blocks) == codec::object_symbols(len, mtu_for(t)),
        meta::total_bytes(object_meta(len, t).blocks) == codec::object_symbols(len, mtu_for(t)) * t,
{
    let z = codec::object_blocks(len, mtu_for(t)) as int;
    lemma_block_count(len, mtu_for(t));
    lemma_meta_totals(len, t, z);
    lemma_symbols_before(len, mtu_for(t), 0);
    assert(object_meta(len, t).blocks.take(z) =~= object_meta(len, t).blocks);
}

/// The metadata of an object within the budget passes every check that does not
/// concern the transmission information.
pub proof fn lemma_object_meta_valid(len: nat, t: u32)
    requires
        config::valid_symbol_size(t),
        1 <= len <= meta::MAX_OBJECT_BYTES,
        object_meta(len, t).valid_info(),
    ensures
        object_meta(len, t).valid(),
{
    let m = object_meta(len, t);
    let mtu = mtu_for(t);
    lemma_symbol_size(t);
    lemma_ceil_div(len, t as nat);
    let kt = codec::object_symbols(len, mtu) as int;
    assert(kt <= 524_288) by (nonlinear_arith)
        requires
            kt * t < len + t,
            t >= 64,
            len <= 32 * 1024 * 1024,
    ;
    lemma_block_count(len, mtu);
    lemma_meta_total_symbols(len, t);
    assert forall|i: int| 0 <= i < m.blocks.len() implies #[trigger] m.valid_block(i) by {
        lemma_block_symbols(len, mtu, i);
        let b = codec::block_symbols(len, mtu, i) as int;
        assert(b * t <= 56403 * 65528) by (nonlinear_arith)
            requires
                0 <= b <= 56403,
                t <= 65528,
        ;
    }
    let z = m.blocks.len() as int;
    assert(t <= t * z) by (nonlinear_arith)
        requires
            z >= 1,
            t >= 0,
    ;
}

} // verus!
