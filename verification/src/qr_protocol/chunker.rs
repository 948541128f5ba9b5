//! Cutting a byte blob into whole symbols.
use crate::raptorq_core::codec;
use crate::raptorq_core::layout;
use crate::raptorq_core::Config;
use crate::wire;
use vstd::prelude::*;

verus! {

/// `data` with zeros up to a whole number of symbols of `t` bytes.
pub open spec fn padded(data: Seq<u8>, t: nat) -> Seq<u8> {
    codec::zero_padded(data, codec::ceil_div(data.len(), t) * t)
}

/// Zero-pad `data` up to a whole multiple of the symbol size, so that every QR
/// payload has exactly that size.
pub fn pad_to_symbols(data: &[u8], config: Config) -> (out: Vec<u8>)
    requires
        config.symbol_size() > 0,
        data@.len() + config.symbol_size() <= usize::MAX,
    ensures
        out@ == padded(data@, config.symbol_size() as nat),
{
    let t: usize = config.symbol_size() as usize;
    let rem: usize = data.len() % t;
    let mut out = wire::copy_of(data);
    proof {
        lemma_padding(data@.len(), t as nat);
    }
    if rem != 0 {
        out.resize(data.len() + (t - rem), 0);
    }
    assert(out@ =~= padded(data@, t as nat));
    out
}

/// How many bytes whole symbols take.
pub proof fn lemma_padding(len: nat, t: nat)
    requires
        t > 0,
    ensures
        codec::ceil_div(len, t) * t == if len % t == 0 {
            len
        } else {
            (len + (t - len % t)) as nat
        },
{
    layout::lemma_ceil_div(len, t);
    vstd::arithmetic::div_mod::lemma_fundamental_div_mod(len as int, t as int);
    let c = codec::ceil_div(len, t) as int;
    let q = len as int / t as int;
    let r = len as int % t as int;
    assert(c == if r == 0 {
        q
    } else {
        q + 1
    }) by (nonlinear_arith)
        requires
            len == t * q + r,
            0 <= r < t,
            len <= c * t < len + t,
            t > 0,
    ;
    assert((q + 1) * t == q * t + t) by (nonlinear_arith);
    assert(q * t == t * q) by (nonlinear_arith);
}

} // verus!
