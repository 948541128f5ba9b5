//! Compression: Zstandard and XZ.
//!
//! Every transfer is tagged with the algorithm that was applied to its payload.
//! Zstandard is the default; XZ gives a better ratio for text.
use crate::digest;
use crate::digest::ShaHasher;
use crate::qr_protocol::Error;
use crate::text;
use crate::wire;
use std::io::{Read, Write};
use vstd::prelude::*;

verus! {

/// Compression level that small files are compressed with.
pub const DEFAULT_LEVEL: i32 = 22;

/// Tag: the payload is not compressed.
pub const COMPRESSION_NONE: u8 = 0;

/// Tag: the payload is a Zstandard stream.
pub const COMPRESSION_ZSTD: u8 = 1;

/// Tag: the payload is an XZ stream.
pub const COMPRESSION_XZ: u8 = 2;

/// XZ preset: level 6 with the extreme flag, which keeps the decoder's memory
/// small.
pub const XZ_PRESET: u32 = 0x8000_0006;

/// Memory ceiling of the XZ decoder.
pub const XZ_DECODER_MEMORY_LIMIT: u64 = 128 * 1024 * 1024;

/// Base-two logarithm of the largest Zstandard window, on both sides. It bounds
/// what a hostile frame header can make a receiver allocate, and every stream
/// that a sender produces stays within it.
pub const ZSTD_WINDOW_LOG_MAX: u32 = 23;

/// Whether `tag` names an algorithm.
pub open spec fn known_tag(tag: u8) -> bool {
    tag == COMPRESSION_NONE || tag == COMPRESSION_ZSTD || tag == COMPRESSION_XZ
}

/// Whether `tag` names an algorithm.
pub fn is_known_compression_tag(tag: u8) -> (known: bool)
    ensures
        known == known_tag(tag),
{
    tag == COMPRESSION_NONE || tag == COMPRESSION_ZSTD || tag == COMPRESSION_XZ
}

/// The bytes or the message of an outcome.
pub open spec fn outcome(r: Result<Vec<u8>, String>) -> Result<Seq<u8>, Seq<char>> {
    match r {
        Ok(bytes) => Ok(bytes@),
        Err(message) => Err(message@),
    }
}

/// The first `limit` bytes of `s`, or all of it where it is shorter.
pub open spec fn prefix(s: Seq<u8>, limit: u64) -> Seq<u8> {
    if s.len() <= limit {
        s
    } else {
        s.take(limit as int)
    }
}

/// What the Zstandard encoder makes of `data` at a level and a window.
pub uninterp spec fn zstd_stream(data: Seq<u8>, level: i32, window_log: u32) -> Result<
    Seq<u8>,
    Seq<char>,
>;

/// What the Zstandard decoder reads from `data`, up to `limit` bytes, when it
/// refuses windows beyond `window_log`.
pub uninterp spec fn zstd_read(data: Seq<u8>, window_log: u32, limit: u64) -> Result<
    Seq<u8>,
    Seq<char>,
>;

/// What the XZ encoder makes of `data` at a preset.
pub uninterp spec fn xz_stream(data: Seq<u8>, preset: u32) -> Result<Seq<u8>, Seq<char>>;

/// What the XZ decoder reads from `data`, up to `limit` bytes, within a memory
/// ceiling.
pub uninterp spec fn xz_read(data: Seq<u8>, memory: u64, limit: u64) -> Result<Seq<u8>, Seq<char>>;

/// The Zstandard decoder recovers `data` from `stream`, as far as it is let.
pub open spec fn zstd_recovers(stream: Seq<u8>, window_log: u32, data: Seq<u8>) -> bool {
    forall|limit: u64|
        #[trigger] zstd_read(stream, window_log, limit) == Ok::<Seq<u8>, Seq<char>>(
            prefix(data, limit),
        )
}

/// The XZ decoder recovers `data` from `stream`, as far as it is let, within any
/// memory ceiling from [`XZ_DECODER_MEMORY_LIMIT`] on.
pub open spec fn xz_recovers(stream: Seq<u8>, data: Seq<u8>) -> bool {
    forall|memory: u64, limit: u64|
        memory >= XZ_DECODER_MEMORY_LIMIT ==> #[trigger] xz_read(stream, memory, limit) == Ok::<
            Seq<u8>,
            Seq<char>,
        >(prefix(data, limit))
}

/// `zstd::stream::write::Encoder`: set the window, write all of `data`, finish.
/// A stream that comes out decodes to `data` under the same window.
#[verifier::external_body]
fn zstd_encode(data: &[u8], level: i32, window_log: u32) -> (r: Result<Vec<u8>, String>)
    requires
        10 <= window_log <= 27,
    ensures
        outcome(r) == zstd_stream(data@, level, window_log),
        r matches Ok(stream) ==> zstd_recovers(stream@, window_log, data@),
{
    let mut encoder =
        zstd::stream::write::Encoder::new(Vec::new(), level).map_err(|e| e.to_string())?;
    encoder.window_log(window_log).map_err(|e| e.to_string())?;
    encoder.write_all(data).map_err(|e| e.to_string())?;
    encoder.finish().map_err(|e| e.to_string())
}

/// `zstd::stream::read::Decoder`: refuse windows beyond `window_log`, read at
/// most `limit` bytes.
#[verifier::external_body]
fn zstd_decode(data: &[u8], window_log: u32, limit: u64) -> (r: Result<Vec<u8>, String>)
    ensures
        outcome(r) == zstd_read(data@, window_log, limit),
        r matches Ok(out) ==> out@.len() <= limit,
{
    let mut decoder =
        zstd::stream::read::Decoder::with_buffer(data).map_err(|e| e.to_string())?;
    decoder.window_log_max(window_log).map_err(|e| e.to_string())?;
    let mut out = Vec::new();
    decoder.take(limit).read_to_end(&mut out).map_err(|e| e.to_string())?;
    Ok(out)
}

/// The XZ encoder knows the preset: a level up to 9, with or without the
/// extreme flag.
pub open spec fn valid_preset(preset: u32) -> bool {
    preset <= 9 || 0x8000_0000 <= preset <= 0x8000_0009
}

/// `xz2::write::XzEncoder`: write all of `data`, finish. A stream of
/// [`XZ_PRESET`] needs an 8 MiB dictionary and decodes to `data` within any
/// memory ceiling from [`XZ_DECODER_MEMORY_LIMIT`] on.
#[verifier::external_body]
fn xz_encode(data: &[u8], preset: u32) -> (r: Result<Vec<u8>, String>)
    requires
        valid_preset(preset),
    ensures
        outcome(r) == xz_stream(data@, preset),
        preset == XZ_PRESET ==> (r matches Ok(stream) ==> xz_recovers(stream@, data@)),
{
    let mut encoder = xz2::write::XzEncoder::new(Vec::new(), preset);
    encoder.write_all(data).map_err(|e| e.to_string())?;
    encoder.finish().map_err(|e| e.to_string())
}

/// `xz2::read::XzDecoder` over `Stream::new_stream_decoder`: stay within the
/// memory ceiling, read at most `limit` bytes.
#[verifier::external_body]
fn xz_decode(data: &[u8], memory: u64, limit: u64) -> (r: Result<Vec<u8>, String>)
    ensures
        outcome(r) == xz_read(data@, memory, limit),
        r matches Ok(out) ==> out@.len() <= limit,
{
    let stream =
        xz2::stream::Stream::new_stream_decoder(memory, 0).map_err(|e| e.to_string())?;
    let mut out = Vec::new();
    let decoder = xz2::read::XzDecoder::new_stream(data, stream);
    decoder.take(limit).read_to_end(&mut out).map_err(|e| e.to_string())?;
    Ok(out)
}

/// `r` carries the outcome `o`, with its message under [`Error::Compress`].
pub open spec fn reports(r: Result<Vec<u8>, Error>, o: Result<Seq<u8>, Seq<char>>) -> bool {
    match r {
        Ok(bytes) => o == Ok::<Seq<u8>, Seq<char>>(bytes@),
        Err(e) => e matches Error::Compress(message) && o == Err::<Seq<u8>, Seq<char>>(message@),
    }
}

fn report(r: Result<Vec<u8>, String>) -> (lifted: Result<Vec<u8>, Error>)
    ensures
        reports(lifted, outcome(r)),
{
    match r {
        Ok(bytes) => Ok(bytes),
        Err(message) => Err(Error::Compress(message)),
    }
}

/// What [`compress_with`] makes of `data` under a tag.
pub open spec fn compressed(data: Seq<u8>, compression: u8) -> Result<Seq<u8>, Seq<char>> {
    if compression == COMPRESSION_ZSTD {
        zstd_stream(data, DEFAULT_LEVEL, ZSTD_WINDOW_LOG_MAX)
    } else if compression == COMPRESSION_XZ {
        xz_stream(data, XZ_PRESET)
    } else {
        Ok(data)
    }
}

/// What [`decompress_with`] recovers from `data` under a tag.
pub open spec fn decompressed(data: Seq<u8>, compression: u8) -> Result<Seq<u8>, Seq<char>> {
    if compression == COMPRESSION_ZSTD {
        zstd_read(data, ZSTD_WINDOW_LOG_MAX, u64::MAX)
    } else if compression == COMPRESSION_XZ {
        xz_read(data, u64::MAX, u64::MAX)
    } else {
        Ok(data)
    }
}

/// One more than `max_output`, so that output beyond the cap shows.
pub open spec fn read_limit(max_output: usize) -> u64 {
    if max_output < u64::MAX {
        (max_output + 1) as u64
    } else {
        u64::MAX
    }
}

/// What was read, refused where it is longer than `max_output`.
pub open spec fn capped(read: Result<Seq<u8>, Seq<char>>, max_output: usize) -> Result<
    Seq<u8>,
    Seq<char>,
> {
    match read {
        Ok(out) => if out.len() > max_output {
            Err("decompressed output exceeds expected size"@)
        } else {
            Ok(out)
        },
        Err(message) => Err(message),
    }
}

/// What [`decompress_with_limit`] recovers from `data` under a tag and a cap.
pub open spec fn limited(data: Seq<u8>, compression: u8, max_output: usize) -> Result<
    Seq<u8>,
    Seq<char>,
> {
    if compression == COMPRESSION_ZSTD {
        capped(zstd_read(data, ZSTD_WINDOW_LOG_MAX, read_limit(max_output)), max_output)
    } else if compression == COMPRESSION_XZ {
        capped(xz_read(data, XZ_DECODER_MEMORY_LIMIT, read_limit(max_output)), max_output)
    } else if compression != COMPRESSION_NONE && data.len() > 0 {
        Err("unknown compression algorithm tag "@ + text::decimal(compression as nat))
    } else if data.len() > max_output {
        Err("payload exceeds size limit"@)
    } else {
        Ok(data)
    }
}

/// Compress `data` with Zstandard at the given level, within the window that
/// receivers accept.
pub fn compress(data: &[u8], level: i32) -> (r: Result<Vec<u8>, Error>)
    ensures
        reports(r, zstd_stream(data@, level, ZSTD_WINDOW_LOG_MAX)),
        r matches Ok(stream) ==> zstd_recovers(stream@, ZSTD_WINDOW_LOG_MAX, data@),
{
    report(zstd_encode(data, level, ZSTD_WINDOW_LOG_MAX))
}

/// Decompress a Zstandard stream.
pub fn decompress(data: &[u8]) -> (r: Result<Vec<u8>, Error>)
    ensures
        reports(r, zstd_read(data@, ZSTD_WINDOW_LOG_MAX, u64::MAX)),
{
    report(zstd_decode(data, ZSTD_WINDOW_LOG_MAX, u64::MAX))
}

/// Compress `data` with XZ.
pub fn xz_compress(data: &[u8]) -> (r: Result<Vec<u8>, Error>)
    ensures
        reports(r, xz_stream(data@, XZ_PRESET)),
        r matches Ok(stream) ==> xz_recovers(stream@, data@),
{
    report(xz_encode(data, XZ_PRESET))
}

/// Decompress an XZ stream.
pub fn xz_decompress(data: &[u8]) -> (r: Result<Vec<u8>, Error>)
    ensures
        reports(r, xz_read(data@, u64::MAX, u64::MAX)),
{
    report(xz_decode(data, u64::MAX, u64::MAX))
}

/// `stream` is what a compressor made of `data` under a tag: the decoders
/// recover `data` from it.
pub open spec fn recovers(stream: Seq<u8>, compression: u8, data: Seq<u8>) -> bool {
    if compression == COMPRESSION_ZSTD {
        zstd_recovers(stream, ZSTD_WINDOW_LOG_MAX, data)
    } else if compression == COMPRESSION_XZ {
        xz_recovers(stream, data)
    } else {
        stream == data
    }
}

/// Compress `data` with the algorithm of a tag. [`COMPRESSION_NONE`] and unknown
/// tags give the bytes unchanged.
pub fn compress_with(data: &[u8], compression: u8) -> (r: Result<Vec<u8>, Error>)
    ensures
        reports(r, compressed(data@, compression)),
        r matches Ok(stream) ==> recovers(stream@, compression, data@),
{
    if compression == COMPRESSION_ZSTD {
        compress(data, DEFAULT_LEVEL)
    } else if compression == COMPRESSION_XZ {
        xz_compress(data)
    } else {
        Ok(wire::copy_of(data))
    }
}

/// Decompress `data` with the algorithm of a tag. [`COMPRESSION_NONE`] and
/// unknown tags give the bytes unchanged.
pub fn decompress_with(data: &[u8], compression: u8) -> (r: Result<Vec<u8>, Error>)
    ensures
        reports(r, decompressed(data@, compression)),
{
    if compression == COMPRESSION_ZSTD {
        decompress(data)
    } else if compression == COMPRESSION_XZ {
        xz_decompress(data)
    } else {
        Ok(wire::copy_of(data))
    }
}

/// Refuse what was read where it is longer than `max_output`.
pub fn read_capped(read: Result<Vec<u8>, String>, max_output: usize) -> (r: Result<Vec<u8>, Error>)
    ensures
        reports(r, capped(outcome(read), max_output)),
{
    match read {
        Ok(out) => if out.len() > max_output {
            Err(Error::Compress("decompressed output exceeds expected size".to_owned()))
        } else {
            Ok(out)
        },
        Err(message) => Err(Error::Compress(message)),
    }
}

/// Decompress `data` with the algorithm of a tag, but refuse to produce more
/// than `max_output` bytes.
///
/// A receiver decompresses untrusted data, and a tiny stream can expand a
/// thousandfold. An unknown tag on a non-empty payload is an error.
pub fn decompress_with_limit(data: &[u8], compression: u8, max_output: usize) -> (r: Result<
    Vec<u8>,
    Error,
>)
    ensures
        reports(r, limited(data@, compression, max_output)),
        r matches Ok(out) ==> out@.len() <= max_output,
{
    let read_limit: u64 = (max_output as u64).saturating_add(1);
    if compression == COMPRESSION_ZSTD {
        read_capped(zstd_decode(data, ZSTD_WINDOW_LOG_MAX, read_limit), max_output)
    } else if compression == COMPRESSION_XZ {
        read_capped(xz_decode(data, XZ_DECODER_MEMORY_LIMIT, read_limit), max_output)
    } else if !is_known_compression_tag(compression) && data.len() != 0 {
        Err(
            Error::Compress(
                text::numbered("unknown compression algorithm tag ", compression as u64),
            ),
        )
    } else if data.len() > max_output {
        Err(Error::Compress("payload exceeds size limit".to_owned()))
    } else {
        Ok(wire::copy_of(data))
    }
}

/// What was compressed under any tag decompresses to itself.
pub proof fn law_decompress_undoes_compress(stream: Seq<u8>, compression: u8, data: Seq<u8>)
    requires
        recovers(stream, compression, data),
        data.len() <= u64::MAX,
    ensures
        decompressed(stream, compression) == Ok::<Seq<u8>, Seq<char>>(data),
{
}

/// A compressed payload comes back whole under a cap that admits it, and is
/// refused under any smaller cap. Under [`COMPRESSION_NONE`] the refusal has its
/// own message.
pub proof fn law_limit_is_exact(stream: Seq<u8>, compression: u8, data: Seq<u8>, max_output: usize)
    requires
        recovers(stream, compression, data),
        known_tag(compression),
        data.len() <= usize::MAX,
    ensures
        data.len() <= max_output ==> limited(stream, compression, max_output) == Ok::<
            Seq<u8>,
            Seq<char>,
        >(data),
        data.len() > max_output ==> limited(stream, compression, max_output) is Err,
{
}

/// Result of decompressing a stream into a file.
pub struct DecompressStreamOutcome {
    /// Decompressed bytes written.
    pub output_size: u64,
    /// CRC-32 of the decompressed bytes.
    pub crc32: u32,
    /// SHA-256 of the decompressed bytes.
    pub sha256: [u8; 32],
}

/// How a stream is turned into bytes.
#[derive(Debug, Clone, Copy, PartialEq, Eq, Structural)]
pub enum StreamMode {
    /// Through the Zstandard decoder.
    Zstd,
    /// Through the XZ decoder.
    Xz,
    /// As it is.
    Copy,
}

/// How a stream with this tag is decoded. An unknown tag is admitted on an empty
/// input only.
pub fn stream_mode(compression: u8, input_is_empty: bool) -> (r: Result<StreamMode, Error>)
    ensures
        match r {
            Ok(mode) => {
                &&& known_tag(compression) || input_is_empty
                &&& mode == if compression == COMPRESSION_ZSTD {
                    StreamMode::Zstd
                } else if compression == COMPRESSION_XZ {
                    StreamMode::Xz
                } else {
                    StreamMode::Copy
                }
            },
            Err(e) => {
                &&& !known_tag(compression)
                &&& !input_is_empty
                &&& e matches Error::Compress(message) && message@
                    == "unknown compression algorithm tag "@ + text::decimal(compression as nat)
            },
        },
{
    if compression == COMPRESSION_ZSTD {
        Ok(StreamMode::Zstd)
    } else if compression == COMPRESSION_XZ {
        Ok(StreamMode::Xz)
    } else if is_known_compression_tag(compression) || input_is_empty {
        Ok(StreamMode::Copy)
    } else {
        Err(
            Error::Compress(
                text::numbered("unknown compression algorithm tag ", compression as u64),
            ),
        )
    }
}

/// Digests a decompressed stream chunk by chunk under a cap on its size.
pub struct StreamSink {
    crc: crc32fast::Hasher,
    sha: ShaHasher,
    max_output: u64,
    written: u64,
    over: bool,
}

impl StreamSink {
    /// The bytes taken in.
    pub closed spec fn bytes(self) -> Seq<u8> {
        self.sha.input()
    }

    /// The cap.
    pub closed spec fn cap(self) -> u64 {
        self.max_output
    }

    /// A chunk went past the cap.
    pub closed spec fn exceeded(self) -> bool {
        self.over
    }

    /// The digests are those of the bytes taken in.
    pub closed spec fn wf(self) -> bool {
        &&& digest::crc_input(self.crc) == self.sha.input()
        &&& self.sha.input().len() <= digest::SHA_MAX_INPUT
        &&& !self.over ==> self.written == self.sha.input().len() <= self.max_output
    }

    /// A sink that has taken in nothing.
    pub fn new(max_output: u64) -> (sink: Self)
        ensures
            sink.wf(),
            sink.bytes() == Seq::<u8>::empty(),
            sink.cap() == max_output,
            !sink.exceeded(),
    {
        StreamSink {
            crc: crc32fast::Hasher::new(),
            sha: ShaHasher::new(),
            max_output,
            written: 0,
            over: false,
        }
    }

    /// How many bytes to read at most: one more than the cap.
    pub fn read_limit(&self) -> (limit: u64)
        ensures
            limit == if self.cap() < u64::MAX {
                (self.cap() + 1) as u64
            } else {
                u64::MAX
            },
    {
        self.max_output.saturating_add(1)
    }

    /// Take in a chunk and say whether it is to be written, or stop where it
    /// goes past the cap.
    pub fn absorb(&mut self, chunk: &[u8]) -> (keep: bool)
        requires
            old(self).wf(),
            !old(self).exceeded(),
            old(self).bytes().len() + chunk@.len() <= digest::SHA_MAX_INPUT,
        ensures
            final(self).wf(),
            final(self).cap() == old(self).cap(),
            keep == (old(self).bytes().len() + chunk@.len() <= old(self).cap()),
            final(self).exceeded() == !keep,
            final(self).bytes() == if keep {
                old(self).bytes() + chunk@
            } else {
                old(self).bytes()
            },
    {
        assert(chunk.len() <= u64::MAX);
        self.written = self.written.saturating_add(chunk.len() as u64);
        if self.written > self.max_output {
            self.over = true;
            return false;
        }
        self.crc.update(chunk);
        self.sha.update(chunk);
        true
    }

    /// The size and the digests of what was taken in, or an error if it went
    /// past the cap.
    pub fn finish(self) -> (r: Result<DecompressStreamOutcome, Error>)
        requires
            self.wf(),
        ensures
            match r {
                Ok(o) => {
                    &&& !self.exceeded()
                    &&& o.output_size == self.bytes().len()
                    &&& o.crc32 == digest::crc32_of(self.bytes())
                    &&& o.sha256@ == digest::sha256_of(self.bytes())
                },
                Err(e) => {
                    &&& self.exceeded()
                    &&& e matches Error::Compress(message) && message@
                        == "decompressed output exceeds expected size"@
                },
            },
    {
        if self.over {
            return Err(Error::Compress("decompressed output exceeds expected size".to_owned()));
        }
        let written: u64 = self.written;
        Ok(
            DecompressStreamOutcome {
                output_size: written,
                crc32: self.crc.finalize(),
                sha256: self.sha.finalize(),
            },
        )
    }
}

} // verus!
