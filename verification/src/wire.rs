//! Fixed-width integers on the wire.
//!
//! Every multi-byte integer of the protocol is big-endian. The FNV session
//! derivation alone feeds little-endian integers.
use vstd::prelude::*;

verus! {

/// `v` as two big-endian bytes.
#[verifier::opaque]
pub open spec fn be16(v: u16) -> Seq<u8> {
    seq![(v / 256) as u8, (v % 256) as u8]
}

/// `v` as four big-endian bytes.
#[verifier::opaque]
pub open spec fn be32(v: u32) -> Seq<u8> {
    be16((v / 0x1_0000) as u16) + be16((v % 0x1_0000) as u16)
}

/// `v` as eight big-endian bytes.
#[verifier::opaque]
pub open spec fn be64(v: u64) -> Seq<u8> {
    be32((v / 0x1_0000_0000) as u32) + be32((v % 0x1_0000_0000) as u32)
}

/// `v` as sixteen big-endian bytes.
#[verifier::opaque]
pub open spec fn be128(v: u128) -> Seq<u8> {
    be64((v / 0x1_0000_0000_0000_0000) as u64) + be64((v % 0x1_0000_0000_0000_0000) as u64)
}

/// `v` as eight little-endian bytes.
pub open spec fn le64(v: u64) -> Seq<u8> {
    be64(v).reverse()
}

/// The big-endian `u16` that `s` holds at `at`.
#[verifier::opaque]
pub open spec fn u16_at(s: Seq<u8>, at: int) -> u16 {
    (s[at] * 256 + s[at + 1]) as u16
}

/// The big-endian `u32` that `s` holds at `at`.
#[verifier::opaque]
pub open spec fn u32_at(s: Seq<u8>, at: int) -> u32 {
    (u16_at(s, at) * 0x1_0000 + u16_at(s, at + 2)) as u32
}

/// The big-endian `u64` that `s` holds at `at`.
#[verifier::opaque]
pub open spec fn u64_at(s: Seq<u8>, at: int) -> u64 {
    (u32_at(s, at) * 0x1_0000_0000 + u32_at(s, at + 4)) as u64
}

/// The big-endian `u128` that `s` holds at `at`.
#[verifier::opaque]
pub open spec fn u128_at(s: Seq<u8>, at: int) -> u128 {
    (u64_at(s, at) * 0x1_0000_0000_0000_0000 + u64_at(s, at + 8)) as u128
}

pub broadcast proof fn lemma_be16_len(v: u16)
    ensures
        #[trigger] be16(v).len() == 2,
{
    reveal(be16);
}

pub broadcast proof fn lemma_be32_len(v: u32)
    ensures
        #[trigger] be32(v).len() == 4,
{
    reveal(be32);
    broadcast use lemma_be16_len;

}

pub broadcast proof fn lemma_be64_len(v: u64)
    ensures
        #[trigger] be64(v).len() == 8,
{
    reveal(be64);
    broadcast use lemma_be32_len;

}

pub broadcast proof fn lemma_be128_len(v: u128)
    ensures
        #[trigger] be128(v).len() == 16,
{
    reveal(be128);
    broadcast use lemma_be64_len;

}

/// How many bytes each integer takes.
pub broadcast group group_be_len {
    lemma_be16_len,
    lemma_be32_len,
    lemma_be64_len,
    lemma_be128_len,
}

/// A `u16` written at `at` is read back there, and the other way round.
pub proof fn lemma_u16_at(s: Seq<u8>, at: int, v: u16)
    requires
        0 <= at,
        at + 2 <= s.len(),
    ensures
        s.subrange(at, at + 2) == be16(v) <==> u16_at(s, at) == v,
{
    reveal(be16);
    reveal(u16_at);
    if s.subrange(at, at + 2) == be16(v) {
        assert(s[at] == s.subrange(at, at + 2)[0]);
        assert(s[at + 1] == s.subrange(at, at + 2)[1]);
    }
    if u16_at(s, at) == v {
        assert(s.subrange(at, at + 2) =~= be16(v));
    }
}

/// A `u32` written at `at` is read back there, and the other way round.
pub proof fn lemma_u32_at(s: Seq<u8>, at: int, v: u32)
    requires
        0 <= at,
        at + 4 <= s.len(),
    ensures
        s.subrange(at, at + 4) == be32(v) <==> u32_at(s, at) == v,
{
    reveal(be32);
    reveal(u32_at);
    broadcast use group_be_len;

    let hi = (v / 0x1_0000) as u16;
    let lo = (v % 0x1_0000) as u16;
    lemma_u16_at(s, at, hi);
    lemma_u16_at(s, at + 2, lo);
    assert(s.subrange(at, at + 4).subrange(0, 2) =~= s.subrange(at, at + 2));
    assert(s.subrange(at, at + 4).subrange(2, 4) =~= s.subrange(at + 2, at + 4));
    if s.subrange(at, at + 4) == be32(v) {
        assert(be32(v).subrange(0, 2) =~= be16(hi));
        assert(be32(v).subrange(2, 4) =~= be16(lo));
    }
    if u32_at(s, at) == v {
        assert(s.subrange(at, at + 4) =~= s.subrange(at, at + 2) + s.subrange(at + 2, at + 4));
    }
}

/// A `u64` written at `at` is read back there, and the other way round.
pub proof fn lemma_u64_at(s: Seq<u8>, at: int, v: u64)
    requires
        0 <= at,
        at + 8 <= s.len(),
    ensures
        s.subrange(at, at + 8) == be64(v) <==> u64_at(s, at) == v,
{
    reveal(be64);
    reveal(u64_at);
    broadcast use group_be_len;

    let hi = (v / 0x1_0000_0000) as u32;
    let lo = (v % 0x1_0000_0000) as u32;
    lemma_u32_at(s, at, hi);
    lemma_u32_at(s, at + 4, lo);
    assert(s.subrange(at, at + 8).subrange(0, 4) =~= s.subrange(at, at + 4));
    assert(s.subrange(at, at + 8).subrange(4, 8) =~= s.subrange(at + 4, at + 8));
    if s.subrange(at, at + 8) == be64(v) {
        assert(be64(v).subrange(0, 4) =~= be32(hi));
        assert(be64(v).subrange(4, 8) =~= be32(lo));
    }
    if u64_at(s, at) == v {
        assert(s.subrange(at, at + 8) =~= s.subrange(at, at + 4) + s.subrange(at + 4, at + 8));
    }
}

/// A `u128` written at `at` is read back there, and the other way round.
pub proof fn lemma_u128_at(s: Seq<u8>, at: int, v: u128)
    requires
        0 <= at,
        at + 16 <= s.len(),
    ensures
        s.subrange(at, at + 16) == be128(v) <==> u128_at(s, at) == v,
{
    reveal(be128);
    reveal(u128_at);
    broadcast use group_be_len;

    let hi = (v / 0x1_0000_0000_0000_0000) as u64;
    let lo = (v % 0x1_0000_0000_0000_0000) as u64;
    lemma_u64_at(s, at, hi);
    lemma_u64_at(s, at + 8, lo);
    assert(s.subrange(at, at + 16).subrange(0, 8) =~= s.subrange(at, at + 8));
    assert(s.subrange(at, at + 16).subrange(8, 16) =~= s.subrange(at + 8, at + 16));
    if s.subrange(at, at + 16) == be128(v) {
        assert(be128(v).subrange(0, 8) =~= be64(hi));
        assert(be128(v).subrange(8, 16) =~= be64(lo));
    }
    if u128_at(s, at) == v {
        assert(s.subrange(at, at + 16) =~= s.subrange(at, at + 8) + s.subrange(at + 8, at + 16));
    }
}

/// Append `v` big-endian.
pub fn push_u16(out: &mut Vec<u8>, v: u16)
    ensures
        final(out)@ == old(out)@ + be16(v),
{
    proof {
        reveal(be16);
    }
    out.push((v / 256) as u8);
    out.push((v % 256) as u8);
    assert(out@ =~= old(out)@ + be16(v));
}

/// Append `v` big-endian.
pub fn push_u32(out: &mut Vec<u8>, v: u32)
    ensures
        final(out)@ == old(out)@ + be32(v),
{
    proof {
        reveal(be32);
    }
    push_u16(out, (v / 0x1_0000) as u16);
    push_u16(out, (v % 0x1_0000) as u16);
    assert(out@ =~= old(out)@ + be32(v));
}

/// Append `v` big-endian.
pub fn push_u64(out: &mut Vec<u8>, v: u64)
    ensures
        final(out)@ == old(out)@ + be64(v),
{
    proof {
        reveal(be64);
    }
    push_u32(out, (v / 0x1_0000_0000) as u32);
    push_u32(out, (v % 0x1_0000_0000) as u32);
    assert(out@ =~= old(out)@ + be64(v));
}

/// Append `v` big-endian.
pub fn push_u128(out: &mut Vec<u8>, v: u128)
    ensures
        final(out)@ == old(out)@ + be128(v),
{
    proof {
        reveal(be128);
    }
    push_u64(out, (v / 0x1_0000_0000_0000_0000) as u64);
    push_u64(out, (v % 0x1_0000_0000_0000_0000) as u64);
    assert(out@ =~= old(out)@ + be128(v));
}

/// Append `v` little-endian.
pub fn push_u64_le(out: &mut Vec<u8>, v: u64)
    ensures
        final(out)@ == old(out)@ + le64(v),
{
    proof {
        reveal(be64);
        reveal(be32);
        reveal(be16);
    }
    let hi: u32 = (v / 0x1_0000_0000) as u32;
    let lo: u32 = (v % 0x1_0000_0000) as u32;
    out.push((lo % 0x1_0000 % 256) as u8);
    out.push((lo % 0x1_0000 / 256) as u8);
    out.push((lo / 0x1_0000 % 256) as u8);
    out.push((lo / 0x1_0000 / 256) as u8);
    out.push((hi % 0x1_0000 % 256) as u8);
    out.push((hi % 0x1_0000 / 256) as u8);
    out.push((hi / 0x1_0000 % 256) as u8);
    out.push((hi / 0x1_0000 / 256) as u8);
    assert(out@ =~= old(out)@ + le64(v));
}

/// Append every byte of `bytes`.
pub fn push_bytes(out: &mut Vec<u8>, bytes: &[u8])
    ensures
        final(out)@ == old(out)@ + bytes@,
{
    out.extend_from_slice(bytes);
    assert(out@ =~= old(out)@ + bytes@);
}

/// A vector with the bytes of `bytes`.
pub fn copy_of(bytes: &[u8]) -> (out: Vec<u8>)
    ensures
        out@ == bytes@,
{
    let mut out: Vec<u8> = Vec::new();
    push_bytes(&mut out, bytes);
    assert(out@ =~= bytes@);
    out
}

/// Read the big-endian `u16` at `at`.
pub fn read_u16(bytes: &[u8], at: usize) -> (v: u16)
    requires
        at + 2 <= bytes.len(),
    ensures
        v == u16_at(bytes@, at as int),
{
    proof {
        reveal(u16_at);
    }
    bytes[at] as u16 * 256 + bytes[at + 1] as u16
}

/// Read the big-endian `u32` at `at`.
pub fn read_u32(bytes: &[u8], at: usize) -> (v: u32)
    requires
        at + 4 <= bytes.len(),
    ensures
        v == u32_at(bytes@, at as int),
{
    proof {
        reveal(u32_at);
    }
    read_u16(bytes, at) as u32 * 0x1_0000 + read_u16(bytes, at + 2) as u32
}

/// Read the big-endian `u64` at `at`.
pub fn read_u64(bytes: &[u8], at: usize) -> (v: u64)
    requires
        at + 8 <= bytes.len(),
    ensures
        v == u64_at(bytes@, at as int),
{
    proof {
        reveal(u64_at);
    }
    read_u32(bytes, at) as u64 * 0x1_0000_0000 + read_u32(bytes, at + 4) as u64
}

/// Read the big-endian `u128` at `at`.
pub fn read_u128(bytes: &[u8], at: usize) -> (v: u128)
    requires
        at + 16 <= bytes.len(),
    ensures
        v == u128_at(bytes@, at as int),
{
    proof {
        reveal(u128_at);
    }
    read_u64(bytes, at) as u128 * 0x1_0000_0000_0000_0000 + read_u64(bytes, at + 8) as u128
}

/// The 12 bytes at `at`.
pub fn read_12(bytes: &[u8], at: usize) -> (out: [u8; 12])
    requires
        at + 12 <= bytes.len(),
    ensures
        out@ == bytes@.subrange(at as int, at + 12),
{
    let mut out: [u8; 12] = [0u8;12];
    let mut i: usize = 0;
    while i < 12
        invariant
            i <= 12,
            at + 12 <= bytes.len(),
            forall|j: int| 0 <= j < i ==> out@[j] == bytes@[at + j],
        decreases 12 - i,
    {
        out[i] = bytes[at + i];
        i = i + 1;
    }
    assert(out@ =~= bytes@.subrange(at as int, at + 12));
    out
}

/// The 32 bytes at `at`.
pub fn read_32(bytes: &[u8], at: usize) -> (out: [u8; 32])
    requires
        at + 32 <= bytes.len(),
    ensures
        out@ == bytes@.subrange(at as int, at + 32),
{
    let mut out: [u8; 32] = [0u8;32];
    let mut i: usize = 0;
    while i < 32
        invariant
            i <= 32,
            at + 32 <= bytes.len(),
            forall|j: int| 0 <= j < i ==> out@[j] == bytes@[at + j],
        decreases 32 - i,
    {
        out[i] = bytes[at + i];
        i = i + 1;
    }
    assert(out@ =~= bytes@.subrange(at as int, at + 32));
    out
}

/// `v` as four little-endian bytes.
pub open spec fn le32(v: u32) -> Seq<u8> {
    seq![
        (v % 256) as u8,
        (v / 256 % 256) as u8,
        (v / 0x1_0000 % 256) as u8,
        (v / 0x100_0000) as u8,
    ]
}

/// Append `v` as four little-endian bytes.
pub fn push_u32_le(out: &mut Vec<u8>, v: u32)
    ensures
        final(out)@ == old(out)@ + le32(v),
{
    out.push((v % 256) as u8);
    out.push((v / 256 % 256) as u8);
    out.push((v / 0x1_0000 % 256) as u8);
    out.push((v / 0x100_0000) as u8);
    assert(out@ =~= old(out)@ + le32(v));
}

/// `buf` with `bytes` written over it at `at`.
pub open spec fn overlaid(buf: Seq<u8>, at: int, bytes: Seq<u8>) -> Seq<u8> {
    Seq::new(
        buf.len(),
        |i: int|
            if at <= i < at + bytes.len() {
                bytes[i - at]
            } else {
                buf[i]
            },
    )
}

/// Write `bytes` over `buf` at `at`.
pub fn overlay(buf: &mut [u8], at: usize, bytes: &[u8])
    requires
        at + bytes@.len() <= old(buf)@.len(),
    ensures
        final(buf)@ == overlaid(old(buf)@, at as int, bytes@),
{
    let ghost before = buf@;
    let n: usize = buf.len();
    let mut i: usize = 0;
    assert(buf@ =~= overlaid(before, at as int, bytes@.take(0)));
    while i < bytes.len()
        invariant
            i <= bytes@.len(),
            buf@.len() == before.len() == n,
            at + bytes@.len() <= n,
            buf@ == overlaid(before, at as int, bytes@.take(i as int)),
        decreases bytes@.len() - i,
    {
        buf[at + i] = bytes[i];
        i = i + 1;
        assert(buf@ =~= overlaid(before, at as int, bytes@.take(i as int)));
    }
    assert(bytes@.take(i as int) =~= bytes@);
}

/// Whether `a` and `b` hold the same bytes.
pub fn same_bytes(a: &[u8], b: &[u8]) -> (same: bool)
    ensures
        same == (a@ == b@),
{
    if a.len() != b.len() {
        return false;
    }
    let mut i: usize = 0;
    while i < a.len()
        invariant
            i <= a.len() == b.len(),
            forall|j: int| 0 <= j < i ==> a@[j] == b@[j],
        decreases a.len() - i,
    {
        if a[i] != b[i] {
            return false;
        }
        i = i + 1;
    }
    assert(a@ =~= b@);
    true
}

} // verus!
