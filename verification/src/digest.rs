//! CRC-32 and SHA-256.
use vstd::prelude::*;

verus! {

/// One step of the reflected CRC-32 register: shift right, folding in the
/// IEEE polynomial when a one falls out.
pub open spec fn crc32_bit(crc: u32) -> u32 {
    if crc & 1 == 1 {
        (crc >> 1) ^ 0xEDB8_8320
    } else {
        crc >> 1
    }
}

/// The register after eight steps.
pub open spec fn crc32_byte(crc: u32) -> u32 {
    crc32_bit(crc32_bit(crc32_bit(crc32_bit(crc32_bit(crc32_bit(crc32_bit(crc32_bit(crc))))))))
}

/// The register after the bytes of `data`, started from all ones.
pub open spec fn crc32_register(data: Seq<u8>) -> u32
    decreases data.len(),
{
    if data.len() == 0 {
        0xFFFF_FFFF
    } else {
        crc32_byte(crc32_register(data.drop_last()) ^ (data.last() as u32))
    }
}

/// CRC-32 (IEEE) of `data`.
pub open spec fn crc32_of(data: Seq<u8>) -> u32 {
    crc32_register(data) ^ 0xFFFF_FFFF
}

/// The bytes that a CRC computation has taken in so far.
pub uninterp spec fn crc_input(h: crc32fast::Hasher) -> Seq<u8>;

/// `crc32fast::Hasher`, an in-progress CRC-32.
#[verifier::external_type_specification]
#[verifier::external_body]
pub struct ExCrcHasher(crc32fast::Hasher);

/// `crc32fast::Hasher::new`: a fresh computation has taken in nothing.
pub assume_specification[ crc32fast::Hasher::new ]() -> (h: crc32fast::Hasher)
    ensures
        crc_input(h) == Seq::<u8>::empty(),
;

/// `crc32fast::Hasher::update` takes in the bytes of `buf`. The hasher counts
/// its input in a `u64`, which bounds how much it can take.
pub assume_specification[ crc32fast::Hasher::update ](h: &mut crc32fast::Hasher, buf: &[u8])
    requires
        crc_input(*old(h)).len() + buf@.len() <= u64::MAX,
    ensures
        crc_input(*final(h)) == crc_input(*old(h)) + buf@,
;

/// `crc32fast::Hasher::finalize` gives the CRC-32 (IEEE) of what was taken in.
pub assume_specification[ crc32fast::Hasher::finalize ](h: crc32fast::Hasher) -> (crc: u32)
    ensures
        crc == crc32_of(crc_input(h)),
;

/// No two registers step to the same register.
proof fn lemma_crc32_bit_injective(x: u32, y: u32)
    requires
        x != y,
    ensures
        crc32_bit(x) != crc32_bit(y),
{
    assert(x != y ==> (if x & 1 == 1 {
        (x >> 1) ^ 0xEDB8_8320u32
    } else {
        x >> 1
    }) != (if y & 1 == 1 {
        (y >> 1) ^ 0xEDB8_8320u32
    } else {
        y >> 1
    })) by (bit_vector);
}

proof fn lemma_crc32_byte_injective(x: u32, y: u32)
    requires
        x != y,
    ensures
        crc32_byte(x) != crc32_byte(y),
{
    let (x1, y1) = (crc32_bit(x), crc32_bit(y));
    let (x2, y2) = (crc32_bit(x1), crc32_bit(y1));
    let (x3, y3) = (crc32_bit(x2), crc32_bit(y2));
    let (x4, y4) = (crc32_bit(x3), crc32_bit(y3));
    let (x5, y5) = (crc32_bit(x4), crc32_bit(y4));
    let (x6, y6) = (crc32_bit(x5), crc32_bit(y5));
    let (x7, y7) = (crc32_bit(x6), crc32_bit(y6));
    lemma_crc32_bit_injective(x, y);
    lemma_crc32_bit_injective(x1, y1);
    lemma_crc32_bit_injective(x2, y2);
    lemma_crc32_bit_injective(x3, y3);
    lemma_crc32_bit_injective(x4, y4);
    lemma_crc32_bit_injective(x5, y5);
    lemma_crc32_bit_injective(x6, y6);
    lemma_crc32_bit_injective(x7, y7);
}

proof fn lemma_crc32_register_detects(a: Seq<u8>, b: Seq<u8>, at: int)
    requires
        a.len() == b.len(),
        0 <= at < a.len(),
        a[at] != b[at],
        forall|i: int| 0 <= i < a.len() && i != at ==> a[i] == b[i],
    ensures
        crc32_register(a) != crc32_register(b),
    decreases a.len(),
{
    let ra = crc32_register(a.drop_last());
    let rb = crc32_register(b.drop_last());
    let la = a.last();
    let lb = b.last();
    if at == a.len() - 1 {
        assert(a.drop_last() =~= b.drop_last());
        assert(la != lb ==> ra ^ (la as u32) != ra ^ (lb as u32)) by (bit_vector);
    } else {
        lemma_crc32_register_detects(a.drop_last(), b.drop_last(), at);
        assert(ra != rb ==> ra ^ (la as u32) != rb ^ (la as u32)) by (bit_vector);
    }
    lemma_crc32_byte_injective(ra ^ (la as u32), rb ^ (lb as u32));
}

/// CRC-32 detects every change of a single byte.
pub proof fn law_crc32_detects_changed_byte(a: Seq<u8>, b: Seq<u8>, at: int)
    requires
        a.len() == b.len(),
        0 <= at < a.len(),
        a[at] != b[at],
        forall|i: int| 0 <= i < a.len() && i != at ==> a[i] == b[i],
    ensures
        crc32_of(a) != crc32_of(b),
{
    lemma_crc32_register_detects(a, b, at);
    let ra = crc32_register(a);
    let rb = crc32_register(b);
    assert(ra != rb ==> ra ^ 0xFFFF_FFFFu32 != rb ^ 0xFFFF_FFFFu32) by (bit_vector);
}

/// CRC-32 of `data`.
pub fn crc32(data: &[u8]) -> (crc: u32)
    ensures
        crc == crc32_of(data@),
{
    let mut h = crc32fast::Hasher::new();
    assert(data.len() <= u64::MAX);
    h.update(data);
    assert(Seq::<u8>::empty() + data@ =~= data@);
    h.finalize()
}

/// Most bytes one SHA-256 computation can take: their count in bits must fit
/// in 64 bits.
pub const SHA_MAX_INPUT: u64 = 0x1FFF_FFFF_FFFF_FFFF;

/// The SHA-256 digest of `data`.
pub uninterp spec fn sha256_of(data: Seq<u8>) -> Seq<u8>;

/// An in-progress SHA-256, held as a `sha2::Sha256`.
#[verifier::external_body]
pub struct ShaHasher {
    inner: sha2::Sha256,
}

/// The bytes that a SHA-256 computation has taken in so far.
pub uninterp spec fn sha_input(h: ShaHasher) -> Seq<u8>;

/// `sha2::Sha256::new`: a fresh computation has taken in nothing.
#[verifier::external_body]
fn sha_new() -> (h: ShaHasher)
    ensures
        sha_input(h) == Seq::<u8>::empty(),
{
    ShaHasher { inner: <sha2::Sha256 as sha2::Digest>::new() }
}

/// `sha2::Sha256::update` takes in the bytes of `data`, up to
/// [`SHA_MAX_INPUT`] in all.
#[verifier::external_body]
fn sha_update(h: &mut ShaHasher, data: &[u8])
    requires
        sha_input(*old(h)).len() + data@.len() <= SHA_MAX_INPUT,
    ensures
        sha_input(*final(h)) == sha_input(*old(h)) + data@,
{
    sha2::Digest::update(&mut h.inner, data);
}

/// `sha2::Sha256::finalize` gives the 32-byte digest of what was taken in.
#[verifier::external_body]
fn sha_finalize(h: ShaHasher) -> (digest: [u8; 32])
    requires
        sha_input(h).len() <= SHA_MAX_INPUT,
    ensures
        digest@ == sha256_of(sha_input(h)),
{
    sha2::Digest::finalize(h.inner).into()
}

/// `sha2::Sha256::clone`: the copy has taken in the same bytes.
#[verifier::external_body]
fn sha_clone(h: &ShaHasher) -> (copy: ShaHasher)
    ensures
        sha_input(copy) == sha_input(*h),
{
    ShaHasher { inner: h.inner.clone() }
}

impl ShaHasher {
    /// The bytes taken in so far.
    pub open spec fn input(self) -> Seq<u8> {
        sha_input(self)
    }

    /// A computation that has taken in nothing.
    pub fn new() -> (h: Self)
        ensures
            h.input() == Seq::<u8>::empty(),
    {
        sha_new()
    }

    /// Take in the bytes of `data`.
    pub fn update(&mut self, data: &[u8])
        requires
            old(self).input().len() + data@.len() <= SHA_MAX_INPUT,
        ensures
            final(self).input() == old(self).input() + data@,
    {
        sha_update(self, data);
    }

    /// The digest of what was taken in so far.
    pub fn digest_so_far(&self) -> (digest: [u8; 32])
        requires
            self.input().len() <= SHA_MAX_INPUT,
        ensures
            digest@ == sha256_of(self.input()),
    {
        sha_finalize(sha_clone(self))
    }

    /// The digest of what was taken in.
    pub fn finalize(self) -> (digest: [u8; 32])
        requires
            self.input().len() <= SHA_MAX_INPUT,
        ensures
            digest@ == sha256_of(self.input()),
    {
        sha_finalize(self)
    }
}

/// SHA-256 of `data`.
pub fn sha256(data: &[u8]) -> (digest: [u8; 32])
    requires
        data@.len() <= SHA_MAX_INPUT,
    ensures
        digest@ == sha256_of(data@),
{
    let mut h = ShaHasher::new();
    h.update(data);
    assert(Seq::<u8>::empty() + data@ =~= data@);
    h.finalize()
}

} // verus!
