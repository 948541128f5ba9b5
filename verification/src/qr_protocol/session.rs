//! Deterministic session identifiers.
//!
//! A session id is derived from stable file identity, so that a re-send of the
//! same file yields the same id. That is what lets a receiver resume after a
//! restart.
use crate::qr_protocol::frame::SessionIdRaw;
use crate::wire;
use vstd::prelude::*;

verus! {

/// FNV offset basis, 128 bits.
pub const FNV128_BASIS: u128 = 0x6c62272e07bb01426b82175983ad0b58;

/// FNV prime, 128 bits.
pub const FNV128_PRIME: u128 = 0x0000000001000000000000000000013b;

/// FNV offset basis, 64 bits.
pub const FNV64_BASIS: u64 = 0xcbf29ce484222325;

/// FNV prime, 64 bits.
pub const FNV64_PRIME: u64 = 0x100000001b3;

/// A 128-bit session identifier.
#[derive(Debug, Clone, Copy, PartialEq, Eq, Hash, Structural)]
pub struct SessionId(pub SessionIdRaw);

/// FNV-1a, 128 bits, continued from `h`: each byte is folded in by xor, then
/// the state is multiplied by the prime modulo 2^128.
pub open spec fn fnv128(h: u128, bytes: Seq<u8>) -> u128
    decreases bytes.len(),
{
    if bytes.len() == 0 {
        h
    } else {
        (fnv128(h, bytes.drop_last()) ^ (bytes.last() as u128)).wrapping_mul(FNV128_PRIME)
    }
}

/// FNV-1a, 64 bits, continued from `h`.
pub open spec fn fnv64(h: u64, bytes: Seq<u8>) -> u64
    decreases bytes.len(),
{
    if bytes.len() == 0 {
        h
    } else {
        (fnv64(h, bytes.drop_last()) ^ (bytes.last() as u64)).wrapping_mul(FNV64_PRIME)
    }
}

proof fn lemma_fnv64_concat(h: u64, a: Seq<u8>, b: Seq<u8>)
    ensures
        fnv64(h, a + b) == fnv64(fnv64(h, a), b),
    decreases b.len(),
{
    if b.len() == 0 {
        assert(a + b =~= a);
    } else {
        lemma_fnv64_concat(h, a, b.drop_last());
        assert((a + b).drop_last() =~= a + b.drop_last());
    }
}

fn feed128(h: u128, bytes: &[u8]) -> (r: u128)
    ensures
        r == fnv128(h, bytes@),
{
    let mut state: u128 = h;
    let mut i: usize = 0;
    while i < bytes.len()
        invariant
            i <= bytes@.len(),
            state == fnv128(h, bytes@.take(i as int)),
        decreases bytes@.len() - i,
    {
        assert(bytes@.take(i + 1).drop_last() =~= bytes@.take(i as int));
        state = (state ^ (bytes[i] as u128)).wrapping_mul(FNV128_PRIME);
        i = i + 1;
    }
    assert(bytes@.take(i as int) =~= bytes@);
    state
}

fn feed64(h: u64, bytes: &[u8]) -> (r: u64)
    ensures
        r == fnv64(h, bytes@),
{
    let mut state: u64 = h;
    let mut i: usize = 0;
    while i < bytes.len()
        invariant
            i <= bytes@.len(),
            state == fnv64(h, bytes@.take(i as int)),
        decreases bytes@.len() - i,
    {
        assert(bytes@.take(i + 1).drop_last() =~= bytes@.take(i as int));
        state = (state ^ (bytes[i] as u64)).wrapping_mul(FNV64_PRIME);
        i = i + 1;
    }
    assert(bytes@.take(i as int) =~= bytes@);
    state
}

/// The session id of file identity: FNV-1a over name, size, modification time
/// and content fingerprint.
pub open spec fn derived_id(
    name: Seq<char>,
    size: u64,
    mtime_ms: u64,
    fingerprint: Seq<u8>,
) -> SessionIdRaw {
    fnv128(
        FNV128_BASIS,
        vstd::utf8::encode_utf8(name) + wire::le64(size) + wire::le64(mtime_ms) + fingerprint,
    )
}

/// The session id of segment `segment_index` of the transfer `root`: FNV-1a
/// over a domain tag, the root and the index.
pub open spec fn derived_segment_id(root: SessionIdRaw, segment_index: u32) -> SessionIdRaw {
    fnv128(
        FNV128_BASIS,
        vstd::utf8::encode_utf8("AirFerry.segment.v1"@) + wire::be128(root) + wire::be32(
            segment_index,
        ),
    )
}

/// One byte folded in.
spec fn fnv128_step(h: u128, b: u8) -> u128 {
    (h ^ (b as u128)).wrapping_mul(FNV128_PRIME)
}

proof fn lemma_fnv128_concat(h: u128, a: Seq<u8>, b: Seq<u8>)
    ensures
        fnv128(h, a + b) == fnv128(fnv128(h, a), b),
    decreases b.len(),
{
    if b.len() == 0 {
        assert(a + b =~= a);
    } else {
        lemma_fnv128_concat(h, a, b.drop_last());
        assert((a + b).drop_last() =~= a + b.drop_last());
    }
}

proof fn lemma_fnv128_four(h: u128, bytes: Seq<u8>)
    requires
        bytes.len() == 4,
    ensures
        fnv128(h, bytes) == fnv128_step(
            fnv128_step(fnv128_step(fnv128_step(h, bytes[0]), bytes[1]), bytes[2]),
            bytes[3],
        ),
{
    reveal_with_fuel(fnv128, 5);
}

/// A step adds less than 256 either way, and multiplies modulo 2^128.
proof fn lemma_step_sum(h: u128, b: u8) -> (r: (int, int))
    ensures
        -255 <= r.0 <= 255,
        (h ^ (b as u128)) == h + r.0,
        fnv128_step(h, b) == (h + r.0) * 0x1000000000000000000013b - 0x1_0000_0000_0000_0000_0000_0000_0000_0000int * r.1,
{
    let folded = h ^ (b as u128);
    assert(folded <= h + 255 && h <= folded + 255) by (bit_vector)
        requires
            folded == h ^ (b as u128),
    ;
    let product = folded as int * 0x1000000000000000000013b;
    vstd::arithmetic::div_mod::lemma_fundamental_div_mod(product, 0x1_0000_0000_0000_0000_0000_0000_0000_0000int);
    (folded - h, product / 0x1_0000_0000_0000_0000_0000_0000_0000_0000int)
}

/// How the difference of two states grows over a step. The prime is 2^88 + 315,
/// so that modulo 2^128 a difference of `m * 2^88 + s` becomes one of the same
/// form.
proof fn lemma_step_difference(x: u128, y: u128, b: u8, c: u8, m: int, s: int, q: int) -> (r: (
    int,
    int,
))
    requires
        x - y == m * 0x1_00_0000_0000_0000_0000_0000int + s + 0x1_0000_0000_0000_0000_0000_0000_0000_0000int * q,
    ensures
        -510 <= r.0 <= 510,
        x == y && r.0 == 0 ==> b == c,
        fnv128_step(x, b) - fnv128_step(y, c) == (315 * m + s + r.0) * 0x1_00_0000_0000_0000_0000_0000int + 315 * (s + r.0)
            + 0x1_0000_0000_0000_0000_0000_0000_0000_0000int * r.1,
{
    let (d, u) = lemma_step_sum(x, b);
    let (e, v) = lemma_step_sum(y, c);
    assert(x ^ (b as u128) == x ^ (c as u128) ==> b == c) by (bit_vector);
    (d - e, q * 0x1000000000000000000013b + m * 0x1_0000_0000_0000 - (u - v))
}

/// Four differences that leave nothing behind are all nothing.
proof fn lemma_nothing_cancels(e0: int, e1: int, e2: int, e3: int)
    requires
        -510 <= e0 <= 510,
        -510 <= e1 <= 510,
        -510 <= e2 <= 510,
        -510 <= e3 <= 510,
        ({
            let (m1, s1) = (e0, 315 * e0);
            let (m2, s2) = (315 * m1 + s1 + e1, 315 * (s1 + e1));
            let (m3, s3) = (315 * m2 + s2 + e2, 315 * (s2 + e2));
            let (m4, s4) = (315 * m3 + s3 + e3, 315 * (s3 + e3));
            m4 == 0 && s4 == 0
        }),
    ensures
        e0 == 0,
        e1 == 0,
        e2 == 0,
        e3 == 0,
{
}

/// Two different segments of one transfer have different session ids, so that a
/// receiver tells their frames apart.
pub proof fn law_segment_ids_distinct(root: SessionIdRaw, i: u32, j: u32)
    requires
        i != j,
    ensures
        derived_segment_id(root, i) != derived_segment_id(root, j),
{
    let head = vstd::utf8::encode_utf8("AirFerry.segment.v1"@) + wire::be128(root);
    let a = wire::be32(i);
    let b = wire::be32(j);
    wire::lemma_be32_len(i);
    wire::lemma_be32_len(j);
    lemma_fnv128_concat(FNV128_BASIS, head, a);
    lemma_fnv128_concat(FNV128_BASIS, head, b);
    let h = fnv128(FNV128_BASIS, head);
    lemma_fnv128_four(h, a);
    lemma_fnv128_four(h, b);
    if derived_segment_id(root, i) == derived_segment_id(root, j) {
        let (x1, y1) = (fnv128_step(h, a[0]), fnv128_step(h, b[0]));
        let (x2, y2) = (fnv128_step(x1, a[1]), fnv128_step(y1, b[1]));
        let (x3, y3) = (fnv128_step(x2, a[2]), fnv128_step(y2, b[2]));
        let (e0, q0) = lemma_step_difference(h, h, a[0], b[0], 0, 0, 0);
        let (m1, s1) = (e0, 315 * e0);
        let (e1, q1) = lemma_step_difference(x1, y1, a[1], b[1], m1, s1, q0);
        let (m2, s2) = (315 * m1 + s1 + e1, 315 * (s1 + e1));
        let (e2, q2) = lemma_step_difference(x2, y2, a[2], b[2], m2, s2, q1);
        let (m3, s3) = (315 * m2 + s2 + e2, 315 * (s2 + e2));
        let (e3, q3) = lemma_step_difference(x3, y3, a[3], b[3], m3, s3, q2);
        lemma_nothing_cancels(e0, e1, e2, e3);
        assert(a =~= b);
        wire::lemma_u32_at(a, 0, i);
        wire::lemma_u32_at(b, 0, j);
        assert(a.subrange(0, 4) =~= a);
        assert(b.subrange(0, 4) =~= b);
    }
}

impl SessionId {
    pub fn zero() -> (id: Self)
        ensures
            id == SessionId(0),
    {
        SessionId(0)
    }

    /// Derive a session id from file identity and a small content fingerprint.
    /// The same inputs give the same id.
    pub fn derive(name: &str, size: u64, mtime_ms: u64, fingerprint: &[u8]) -> (id: Self)
        ensures
            id.0 == derived_id(name@, size, mtime_ms, fingerprint@),
    {
        let mut material: Vec<u8> = Vec::new();
        wire::push_bytes(&mut material, name.as_bytes());
        wire::push_u64_le(&mut material, size);
        wire::push_u64_le(&mut material, mtime_ms);
        wire::push_bytes(&mut material, fingerprint);
        assert(material@ =~= vstd::utf8::encode_utf8(name@) + wire::le64(size) + wire::le64(
            mtime_ms,
        ) + fingerprint@);
        SessionId(feed128(FNV128_BASIS, &material))
    }

    /// Derive the stable child session id of one segment of a large transfer.
    pub fn derive_segment(root: SessionIdRaw, segment_index: u32) -> (id: Self)
        ensures
            id.0 == derived_segment_id(root, segment_index),
    {
        let mut material: Vec<u8> = Vec::new();
        wire::push_bytes(&mut material, "AirFerry.segment.v1".as_bytes());
        wire::push_u128(&mut material, root);
        wire::push_u32(&mut material, segment_index);
        assert(material@ =~= vstd::utf8::encode_utf8("AirFerry.segment.v1"@) + wire::be128(root)
            + wire::be32(segment_index));
        SessionId(feed128(FNV128_BASIS, &material))
    }
}

impl From<SessionId> for u128 {
    fn from(s: SessionId) -> (raw: Self) {
        s.0
    }
}

impl vstd::std_specs::convert::FromSpecImpl<SessionId> for u128 {
    open spec fn obeys_from_spec() -> bool {
        true
    }

    open spec fn from_spec(s: SessionId) -> Self {
        s.0
    }
}

/// Content fingerprint: FNV-1a (64 bits, little-endian) over the head and the
/// tail of a file, so that truncation or appending is detected without hashing
/// the whole file.
pub fn content_fingerprint(head: &[u8], tail: &[u8]) -> (fingerprint: Vec<u8>)
    ensures
        fingerprint@ == wire::le64(fnv64(FNV64_BASIS, head@ + tail@)),
{
    let h: u64 = feed64(feed64(FNV64_BASIS, head), tail);
    proof {
        lemma_fnv64_concat(FNV64_BASIS, head@, tail@);
    }
    let mut out: Vec<u8> = Vec::new();
    wire::push_u64_le(&mut out, h);
    assert(out@ =~= wire::le64(h));
    out
}

} // verus!
