//! What frames, session ids and compression promise.
use crate::digest;
use crate::qr_protocol::chunker;
use crate::qr_protocol::compress;
use crate::qr_protocol::frame;
use crate::qr_protocol::frame::{FrameHeader, FrameView};
use crate::qr_protocol::qr_render;
use crate::qr_protocol::session;
use crate::qr_protocol::Error;
use crate::wire;
use vstd::prelude::*;

verus! {

/// The number that `bytes` spell out, the most significant byte first.
pub open spec fn number(bytes: Seq<u8>) -> nat
    decreases bytes.len(),
{
    if bytes.len() == 0 {
        0
    } else {
        number(bytes.drop_last()) * 256 + bytes.last() as nat
    }
}

/// What `n` bytes can count up to.
spec fn weight(n: nat) -> nat
    decreases n,
{
    if n == 0 {
        1
    } else {
        weight((n - 1) as nat) * 256
    }
}

proof fn lemma_number_concat(a: Seq<u8>, b: Seq<u8>)
    ensures
        number(a + b) == number(a) * weight(b.len()) + number(b),
    decreases b.len(),
{
    if b.len() == 0 {
        assert(a + b =~= a);
        assert(number(a) * weight(0) == number(a)) by (nonlinear_arith)
            requires
                weight(0) == 1,
        ;
    } else {
        lemma_number_concat(a, b.drop_last());
        assert((a + b).drop_last() =~= a + b.drop_last());
        let (x, w) = (number(a), weight((b.len() - 1) as nat));
        assert(x * weight(b.len()) == (x * w) * 256) by (nonlinear_arith)
            requires
                weight(b.len()) == w * 256,
        ;
        assert((a + b).last() == b.last());
    }
}

proof fn lemma_weights()
    ensures
        weight(2) == 0x1_0000,
        weight(4) == 0x1_0000_0000,
        weight(8) == 0x1_0000_0000_0000_0000,
{
    reveal_with_fuel(weight, 9);
}

proof fn lemma_split(s: Seq<u8>, at: int, half: int)
    requires
        0 <= at,
        0 <= half,
        at + 2 * half <= s.len(),
    ensures
        number(s.subrange(at, at + 2 * half)) == number(s.subrange(at, at + half)) * weight(
            half as nat,
        ) + number(s.subrange(at + half, at + 2 * half)),
{
    let (a, b) = (s.subrange(at, at + half), s.subrange(at + half, at + 2 * half));
    assert(s.subrange(at, at + 2 * half) =~= a + b);
    lemma_number_concat(a, b);
}

/// What is read as a `u16` is the number that the two bytes spell out.
pub proof fn lemma_u16_number(s: Seq<u8>, at: int)
    requires
        0 <= at,
        at + 2 <= s.len(),
    ensures
        wire::u16_at(s, at) == number(s.subrange(at, at + 2)),
{
    reveal(wire::u16_at);
    reveal_with_fuel(number, 3);
    let t = s.subrange(at, at + 2);
    assert(t.drop_last() =~= seq![s[at]]);
    assert(t.drop_last().drop_last() =~= Seq::<u8>::empty());
}

/// What is read as a `u32` is the number that the four bytes spell out.
pub proof fn lemma_u32_number(s: Seq<u8>, at: int)
    requires
        0 <= at,
        at + 4 <= s.len(),
    ensures
        wire::u32_at(s, at) == number(s.subrange(at, at + 4)),
{
    reveal(wire::u32_at);
    lemma_weights();
    lemma_u16_number(s, at);
    lemma_u16_number(s, at + 2);
    lemma_split(s, at, 2);
}

/// What is read as a `u64` is the number that the eight bytes spell out.
pub proof fn lemma_u64_number(s: Seq<u8>, at: int)
    requires
        0 <= at,
        at + 8 <= s.len(),
    ensures
        wire::u64_at(s, at) == number(s.subrange(at, at + 8)),
{
    reveal(wire::u64_at);
    lemma_weights();
    lemma_u32_number(s, at);
    lemma_u32_number(s, at + 4);
    lemma_split(s, at, 4);
}

/// What is read as a `u128` is the number that the sixteen bytes spell out.
pub proof fn lemma_u128_number(s: Seq<u8>, at: int)
    requires
        0 <= at,
        at + 16 <= s.len(),
    ensures
        wire::u128_at(s, at) == number(s.subrange(at, at + 16)),
{
    reveal(wire::u128_at);
    lemma_weights();
    lemma_u64_number(s, at);
    lemma_u64_number(s, at + 8);
    lemma_split(s, at, 8);
}

/// Integers are written big-endian, with as many bytes as their type has. The
/// little-endian form is the same bytes the other way round.
pub proof fn law_integers_on_the_wire(a: u16, b: u32, c: u64, d: u128)
    ensures
        wire::be16(a).len() == 2 && number(wire::be16(a)) == a,
        wire::be32(b).len() == 4 && number(wire::be32(b)) == b,
        wire::be64(c).len() == 8 && number(wire::be64(c)) == c,
        wire::be128(d).len() == 16 && number(wire::be128(d)) == d,
        wire::le64(c).len() == 8 && number(wire::le64(c).reverse()) == c,
        wire::le32(b).len() == 4 && number(wire::le32(b).reverse()) == b,
{
    broadcast use wire::group_be_len;

    let (p, q, r, s) = (wire::be16(a), wire::be32(b), wire::be64(c), wire::be128(d));
    assert(p.subrange(0, 2) =~= p && q.subrange(0, 4) =~= q && r.subrange(0, 8) =~= r && s.subrange(
        0,
        16,
    ) =~= s);
    wire::lemma_u16_at(p, 0, a);
    wire::lemma_u32_at(q, 0, b);
    wire::lemma_u64_at(r, 0, c);
    wire::lemma_u128_at(s, 0, d);
    lemma_u16_number(p, 0);
    lemma_u32_number(q, 0);
    lemma_u64_number(r, 0);
    lemma_u128_number(s, 0);
    assert(r.reverse().reverse() =~= r);
    let t = wire::le32(b).reverse();
    reveal_with_fuel(number, 5);
    assert(t.drop_last() =~= seq![t[0], t[1], t[2]]);
    assert(t.drop_last().drop_last() =~= seq![t[0], t[1]]);
    assert(t.drop_last().drop_last().drop_last() =~= seq![t[0]]);
    assert(t.drop_last().drop_last().drop_last().drop_last() =~= Seq::<u8>::empty());
}

/// Every field of a frame stands at its place, big-endian.
pub proof fn law_frame_fields(s: Seq<u8>)
    requires
        s.len() >= 64,
    ensures
        ({
            let f = FrameView::read(s);
            let h = f.header;
            &&& h.flags == s[3]
            &&& h.session_id == number(s.subrange(4, 20))
            &&& h.sbn == number(s.subrange(20, 24))
            &&& h.esi == number(s.subrange(24, 28))
            &&& h.total_blocks == number(s.subrange(28, 32))
            &&& h.total_symbols == number(s.subrange(32, 36))
            &&& h.symbol_size == number(s.subrange(36, 40))
            &&& h.frame_index == number(s.subrange(40, 48))
            &&& h.timestamp_ms == number(s.subrange(48, 56))
            &&& h.payload_crc32 == number(s.subrange(56, 60))
            &&& f.payload == s.subrange(60, s.len() - 4)
            &&& f.frame_crc32 == number(s.subrange(s.len() - 4, s.len() as int))
        }),
{
    lemma_u128_number(s, 4);
    lemma_u32_number(s, 20);
    lemma_u32_number(s, 24);
    lemma_u32_number(s, 28);
    lemma_u32_number(s, 32);
    lemma_u32_number(s, 36);
    lemma_u64_number(s, 40);
    lemma_u64_number(s, 48);
    lemma_u32_number(s, 56);
    lemma_u32_number(s, s.len() - 4);
}

/// Bytes are a frame exactly where they start with `ET` and the version, are as
/// long as the symbol size says, and both checksums are right.
pub proof fn law_frame_is_accepted_exactly(s: Seq<u8>)
    ensures
        FrameView::read_error(s) is None <==> {
            &&& s.len() >= 64
            &&& s[0] == 0x45
            &&& s[1] == 0x54
            &&& s[2] == 1
            &&& s.len() == 64 + number(s.subrange(36, 40))
            &&& digest::crc32_of(s.subrange(60, s.len() - 4)) == number(s.subrange(56, 60))
            &&& digest::crc32_of(s.subrange(0, s.len() - 4)) == number(
                s.subrange(s.len() - 4, s.len() as int),
            )
        },
{
    if s.len() >= 64 {
        law_frame_fields(s);
        reveal(wire::u16_at);
    }
}

/// Bytes that are no frame are refused for the first thing that is wrong: too
/// short, another magic number, another version, another length, a payload that
/// fails its checksum, a frame that fails its own.
pub proof fn law_frame_refusals(s: Seq<u8>)
    ensures
        s.len() < 64 ==> FrameView::read_error(s) == Some(
            Error::BufferTooShort { need: 64, have: s.len() as usize },
        ),
        s.len() >= 64 ==> ({
            let bad_magic = s[0] != 0x45 || s[1] != 0x54;
            let bad_length = s.len() != 64 + number(s.subrange(36, 40));
            let bad_payload = digest::crc32_of(s.subrange(60, s.len() - 4)) != number(
                s.subrange(56, 60),
            );
            let e = FrameView::read_error(s);
            &&& (e is Some && e->0 is BadMagic) <==> bad_magic
            &&& e matches Some(Error::BadMagic { expected, got }) ==> expected == 0x4554 && got
                == number(s.subrange(0, 2))
            &&& e == Some(Error::BadVersion(s[2])) <==> !bad_magic && s[2] != 1
            &&& (e is Some && e->0 is LengthMismatch) <==> !bad_magic && s[2] == 1 && bad_length
            &&& e matches Some(Error::LengthMismatch { actual, expected }) ==> actual
                == s.len() as usize && (64 + number(s.subrange(36, 40)) <= usize::MAX ==> expected
                == 64 + number(s.subrange(36, 40)))
            &&& e == Some(Error::PayloadCrcMismatch) <==> !bad_magic && s[2] == 1 && !bad_length
                && bad_payload
            &&& e == Some(Error::FrameCrcMismatch) <==> !bad_magic && s[2] == 1 && !bad_length
                && !bad_payload && digest::crc32_of(s.subrange(0, s.len() - 4)) != number(
                s.subrange(s.len() - 4, s.len() as int),
            )
        }),
{
    if s.len() >= 64 {
        law_frame_fields(s);
        lemma_u16_number(s, 0);
        reveal(wire::u16_at);
    }
}

/// A frame that is built carries its payload and the fields it was given, with
/// the checksums of what it holds.
pub proof fn law_sealed_frame(header: FrameHeader, payload: Seq<u8>)
    ensures
        ({
            let f = FrameView::sealed(header, payload);
            &&& f.payload == payload
            &&& f.header == FrameHeader { payload_crc32: digest::crc32_of(payload), ..header }
            &&& f.wire().len() == 64 + payload.len()
            &&& f.frame_crc32 == digest::crc32_of(f.wire().take(60 + payload.len() as int))
        }),
{
    broadcast use wire::group_be_len;

    let f = FrameView::sealed(header, payload);
    assert(f.wire().take(60 + payload.len() as int) =~= f.header.wire() + payload);
}

/// Padding adds zeros behind the data, as few as make whole symbols.
pub proof fn law_padding(data: Seq<u8>, t: nat)
    requires
        t > 0,
    ensures
        ({
            let p = chunker::padded(data, t);
            &&& p.len() % t == 0
            &&& data.len() <= p.len() < data.len() + t
            &&& p.take(data.len() as int) == data
            &&& forall|i: int| data.len() <= i < p.len() ==> #[trigger] p[i] == 0
        }),
{
    chunker::lemma_padding(data.len(), t);
    let p = chunker::padded(data, t);
    let n = data.len() as int;
    let m = t as int;
    vstd::arithmetic::div_mod::lemma_fundamental_div_mod(n, m);
    vstd::arithmetic::div_mod::lemma_mod_bound(n, m);
    if n % m != 0 {
        let q = n / m;
        assert(n + (m - n % m) == (q + 1) * m) by (nonlinear_arith)
            requires
                n == m * q + n % m,
        ;
        vstd::arithmetic::div_mod::lemma_mod_multiples_basic(q + 1, m);
    }
    assert(p.take(n) =~= data);
}

/// The tags of the algorithms, and what each is: Zstandard at level 22 within a
/// window of 8 MiB, XZ at preset 6 with the extreme flag, and no compression.
/// The Zstandard decoder gets the same window.
pub proof fn law_tags_choose_algorithm(data: Seq<u8>, tag: u8)
    ensures
        compress::known_tag(tag) <==> tag <= 2,
        tag == 1 ==> compress::compressed(data, tag) == compress::zstd_stream(data, 22, 23),
        tag == 2 ==> compress::compressed(data, tag) == compress::xz_stream(data, 0x8000_0006),
        tag == 0 || tag > 2 ==> compress::compressed(data, tag) == Ok::<Seq<u8>, Seq<char>>(data),
        tag == 1 ==> compress::decompressed(data, tag) == compress::zstd_read(data, 23, u64::MAX),
        tag == 2 ==> compress::decompressed(data, tag) == compress::xz_read(
            data,
            u64::MAX,
            u64::MAX,
        ),
        tag == 0 || tag > 2 ==> compress::decompressed(data, tag) == Ok::<Seq<u8>, Seq<char>>(data),
{
}

/// Under a cap a decoder is asked for one byte more than the cap. What it reads is
/// handed on where it fits, and refused where it does not; what it refuses is
/// refused.
pub proof fn law_capped_output(stream: Seq<u8>, tag: u8, cap: usize)
    requires
        tag == 1 || tag == 2,
        cap < u64::MAX,
    ensures
        ({
            let read = if tag == 1 {
                compress::zstd_read(stream, 23, (cap + 1) as u64)
            } else {
                compress::xz_read(stream, 134_217_728, (cap + 1) as u64)
            };
            let given = compress::limited(stream, tag, cap);
            &&& given is Ok <==> read is Ok && read->Ok_0.len() <= cap
            &&& given is Ok ==> given == read
            &&& read is Err ==> given == read
        }),
{
}

/// Without compression the bytes are handed on where they fit. An unknown tag is
/// refused, unless there is nothing to decompress.
pub proof fn law_plain_output(data: Seq<u8>, tag: u8, cap: usize)
    requires
        tag == 0 || tag > 2,
    ensures
        compress::limited(data, tag, cap) is Ok <==> (tag == 0 && data.len() <= cap) || data.len()
            == 0,
        compress::limited(data, tag, cap) is Ok ==> compress::limited(data, tag, cap) == Ok::<
            Seq<u8>,
            Seq<char>,
        >(data),
{
}

/// Every version holds more than the one before it, from 17 bytes to 2953, and
/// every frame up to that has exactly one smallest version.
pub proof fn law_qr_versions(v: int, len: int)
    requires
        1 <= v < 40,
        0 <= len,
    ensures
        qr_render::capacity(1) == 17,
        qr_render::capacity(v) < qr_render::capacity(v + 1),
        qr_render::capacity(40) == 2953,
        len <= 2953 <==> exists|w: int| #[trigger] qr_render::is_min_version(w, len),
        qr_render::is_min_version(v + 1, len) <==> qr_render::capacity(v) < len
            <= qr_render::capacity(v + 1),
        qr_render::is_min_version(1, len) <==> len <= 17,
        qr_render::side(1) == 21,
        qr_render::side(v + 1) == qr_render::side(v) + 4,
{
    lemma_capacities_grow(1, v);
    lemma_capacities_grow(v, v + 1);
    lemma_capacities_grow(v, 40);
    if len <= 2953 {
        lemma_some_version(len, 40);
    }
    assert forall|w: int| 1 <= w < v implies #[trigger] qr_render::capacity(w)
        < qr_render::capacity(v) by {
        lemma_capacities_grow(w, v);
    }
    assert forall|w: int| #[trigger] qr_render::is_min_version(w, len) implies len <= 2953 by {
        lemma_capacities_grow(w, 40);
    }
}

/// A code shows the modules that the generator makes for the smallest version, row
/// by row.
pub proof fn law_code_is_of_smallest_version(data: Seq<u8>, v: int)
    requires
        qr_render::is_min_version(v, data.len() as int),
    ensures
        qr_render::version_for(data.len() as int) == v,
        qr_render::rendered(data) == qr_render::qr_modules(data, v).take(
            (17 + 4 * v) * (17 + 4 * v),
        ),
{
    qr_render::law_same_length_same_version(
        v,
        qr_render::version_for(data.len() as int),
        data.len() as int,
    );
}

proof fn lemma_capacities_grow(v: int, w: int)
    requires
        1 <= v <= w <= 40,
    ensures
        v < w ==> qr_render::capacity(v) < qr_render::capacity(w),
        qr_render::capacity(1) == 17,
        qr_render::capacity(40) == 2953,
    decreases w - v,
{
    if v < w {
        lemma_capacities_grow(v, w - 1);
    }
}

proof fn lemma_some_version(len: int, v: int)
    requires
        0 <= len,
        1 <= v <= 40,
        len <= qr_render::capacity(v),
    ensures
        exists|w: int| #[trigger] qr_render::is_min_version(w, len),
    decreases v,
{
    if v > 1 && len <= qr_render::capacity(v - 1) {
        lemma_some_version(len, v - 1);
    } else {
        assert forall|w: int| 1 <= w < v implies #[trigger] qr_render::capacity(w) < len by {
            lemma_capacities_grow(w, v - 1);
        }
        assert(qr_render::is_min_version(v, len));
    }
}

/// FNV-1a folds in one byte after the other, by xor and a multiplication by the
/// prime modulo 2^128 or 2^64.
pub proof fn law_fnv_steps(h: u128, k: u64, bytes: Seq<u8>, b: u8)
    ensures
        session::fnv128(h, Seq::<u8>::empty()) == h,
        session::fnv128(h, bytes.push(b)) == (session::fnv128(h, bytes) ^ (b as u128)) as int
            * 0x1000000000000000000013b % 0x1_0000_0000_0000_0000_0000_0000_0000_0000int,
        session::fnv64(k, Seq::<u8>::empty()) == k,
        session::fnv64(k, bytes.push(b)) == (session::fnv64(k, bytes) ^ (b as u64)) as int
            * 0x100000001b3 % 0x1_0000_0000_0000_0000int,
{
    assert(bytes.push(b).drop_last() =~= bytes);
}

/// A session id is the FNV-1a hash of name, size, modification time and
/// fingerprint, one after the other. That of a segment is the hash of a tag, the
/// root and the index.
pub proof fn law_session_ids(
    name: Seq<char>,
    size: u64,
    mtime_ms: u64,
    fingerprint: Seq<u8>,
    root: u128,
    index: u32,
)
    ensures
        session::derived_id(name, size, mtime_ms, fingerprint) == session::fnv128(
            0x6c62272e07bb01426b82175983ad0b58,
            vstd::utf8::encode_utf8(name) + wire::be64(size).reverse() + wire::be64(
                mtime_ms,
            ).reverse() + fingerprint,
        ),
        session::derived_segment_id(root, index) == session::fnv128(
            0x6c62272e07bb01426b82175983ad0b58,
            vstd::utf8::encode_utf8("AirFerry.segment.v1"@) + wire::be128(root) + wire::be32(index),
        ),
{
}

/// What has the prime as a factor modulo a power of two has it once: multiplying by
/// it can be undone.
proof fn lemma_factor_cancels(x: int, y: int, p: int, undo: int, c: int, m: int)
    requires
        p * undo == 1 + m * c,
        x * p % m == y * p % m,
        0 <= x < m,
        0 <= y < m,
    ensures
        x == y,
{
    vstd::arithmetic::div_mod::lemma_fundamental_div_mod(x * p, m);
    vstd::arithmetic::div_mod::lemma_fundamental_div_mod(y * p, m);
    let k = x * p / m - y * p / m;
    assert(x * p - y * p == m * k) by (nonlinear_arith)
        requires
            x * p == m * (x * p / m) + x * p % m,
            y * p == m * (y * p / m) + y * p % m,
            x * p % m == y * p % m,
            k == x * p / m - y * p / m,
    ;
    let j = k * undo - (x - y) * c;
    assert((x - y) * (p * undo) == m * (k * undo)) by (nonlinear_arith)
        requires
            x * p - y * p == m * k,
    ;
    assert((x - y) * (1 + m * c) == (x - y) + m * ((x - y) * c)) by (nonlinear_arith);
    assert(x - y == m * j) by (nonlinear_arith)
        requires
            (x - y) + m * ((x - y) * c) == m * (k * undo),
            j == k * undo - (x - y) * c,
    ;
    assert(j == 0) by (nonlinear_arith)
        requires
            x - y == m * j,
            -m < x - y < m,
    ;
}

/// Two inputs of one length that differ in one byte have different FNV-1a hashes, so
/// that a changed byte in the head, the tail or the fingerprint of a file shows.
pub proof fn law_fnv_detects_changed_byte(h: u128, k: u64, a: Seq<u8>, b: Seq<u8>, at: int)
    requires
        a.len() == b.len(),
        0 <= at < a.len(),
        a[at] != b[at],
        forall|i: int| 0 <= i < a.len() && i != at ==> a[i] == b[i],
    ensures
        session::fnv128(h, a) != session::fnv128(h, b),
        session::fnv64(k, a) != session::fnv64(k, b),
    decreases a.len(),
{
    let (p, q) = (a.drop_last(), b.drop_last());
    let (c, d) = (a.last(), b.last());
    let (x, y) = (session::fnv128(h, p), session::fnv128(h, q));
    let (u, v) = (session::fnv64(k, p), session::fnv64(k, q));
    if at == a.len() - 1 {
        assert(p =~= q);
        assert(x ^ (c as u128) == x ^ (d as u128) ==> c == d) by (bit_vector);
        assert(u ^ (c as u64) == u ^ (d as u64) ==> c == d) by (bit_vector);
    } else {
        law_fnv_detects_changed_byte(h, k, p, q, at);
        assert(x ^ (c as u128) == y ^ (c as u128) ==> x == y) by (bit_vector);
        assert(u ^ (c as u64) == v ^ (c as u64) ==> u == v) by (bit_vector);
    }
    if session::fnv128(h, a) == session::fnv128(h, b) {
        lemma_factor_cancels(
            (x ^ (c as u128)) as int,
            (y ^ (d as u128)) as int,
            0x1000000000000000000013b,
            0xb1041ad2562ff2ff2ff2ff2ff2ff2ff3,
            213999254309421075624096729,
            0x1_0000_0000_0000_0000_0000_0000_0000_0000int,
        );
    }
    if session::fnv64(k, a) == session::fnv64(k, b) {
        lemma_factor_cancels(
            (u ^ (c as u64)) as int,
            (v ^ (d as u64)) as int,
            0x100000001b3,
            0xce965057aff6957b,
            887285111055,
            0x1_0000_0000_0000_0000int,
        );
    }
}

/// The sizes and marks of the protocol.
pub proof fn law_protocol_constants()
    ensures
        frame::FRAME_HEADER_SIZE == 60,
        frame::FRAME_FOOTER_SIZE == 4,
        frame::FLAG_DESCRIPTOR == 1,
        session::FNV64_BASIS == 0xcbf29ce484222325,
        qr_render::QR_MAX_BYTES == 2953,
{
}

/// What a codec did is told as it is: its bytes, or its message as an error of
/// compression.
pub proof fn law_outcome_is_reported(
    r: Result<Vec<u8>, Error>,
    outcome: Result<Seq<u8>, Seq<char>>,
)
    requires
        compress::reports(r, outcome),
    ensures
        r is Ok <==> outcome is Ok,
        r matches Ok(bytes) ==> outcome->Ok_0 == bytes@,
        r matches Err(e) ==> e matches Error::Compress(message) && outcome->Err_0 == message@,
{
}

/// What the versions hold at level L, byte mode: the data codewords of the version
/// without the mode and the length, which take two bytes up to version 9 and three
/// from there on.
pub proof fn law_qr_capacities(v: int)
    requires
        1 <= v <= 40,
    ensures
        qr_render::capacity(v) + (if v <= 9 {
            2int
        } else {
            3
        }) == seq![
            19int, 34, 55, 80, 108, 136, 156, 194, 232, 274, 324, 370, 428, 461, 523, 589, 647,
            721, 795, 861, 932, 1006, 1094, 1174, 1276, 1370, 1468, 1531, 1631, 1735, 1843, 1955,
            2071, 2191, 2306, 2434, 2566, 2702, 2812, 2956,
        ][v - 1],
{
}

} // verus!
