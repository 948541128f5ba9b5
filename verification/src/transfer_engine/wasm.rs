//! The sessions as a browser drives them.
//!
//! The browser's bindings hand plain integers, byte slices and strings to these
//! types, and turn an error's message into an exception.
use crate::digest;
use crate::digest::ShaHasher;
use crate::qr_protocol::frame::{FrameView, SessionIdRaw, FLAG_DESCRIPTOR};
use crate::qr_protocol::qr_render;
use crate::qr_protocol::qr_render::{QrMatrix, QR_MAX_BYTES};
use crate::qr_protocol::session;
use crate::qr_protocol::{Frame, SessionId};
use crate::raptorq_core::config;
use crate::raptorq_core::Config;
use crate::text;
use crate::transfer_engine::descriptor::{FileMeta, FileMetaView};
use crate::transfer_engine::host;
use crate::transfer_engine::progress::Stats;
use crate::transfer_engine::receiver::model::ReceiverView;
use crate::transfer_engine::segment;
use crate::transfer_engine::segment::{SegmentMeta, SegmentView};
use crate::transfer_engine::sender;
use crate::transfer_engine::sender::{SenderConfig, SenderSession, SenderView};
use crate::transfer_engine::time;
use crate::transfer_engine::{Error, Progress, ReceiverSession};
use crate::wire;
use vstd::prelude::*;

pub mod laws;

verus! {

/// Modules per side of the largest QR code.
pub const MAX_QR_SIDE: usize = 177;

/// Modules of the largest QR code.
pub const MAX_QR_MODULES: usize = 31_329;

/// Most codes on the screen at a time.
pub const MAX_UI_QR_COUNT: usize = 4;

/// Bytes of the scratch buffer: a count, and for each code its side and its
/// modules.
pub const QR_SCRATCH_BYTES: usize = 125_336;

/// SHA-256 in steps, for files that are hashed chunk by chunk.
pub struct Sha256Wasm {
    inner: ShaHasher,
}

impl Sha256Wasm {
    /// The bytes taken in so far.
    pub closed spec fn input(self) -> Seq<u8> {
        self.inner.input()
    }

    /// A computation that has taken in nothing.
    pub fn new() -> (h: Self)
        ensures
            h.input() == Seq::<u8>::empty(),
    {
        Sha256Wasm { inner: ShaHasher::new() }
    }

    /// Take in a chunk.
    pub fn update(&mut self, bytes: &[u8])
        requires
            old(self).input().len() + bytes@.len() <= digest::SHA_MAX_INPUT,
        ensures
            final(self).input() == old(self).input() + bytes@,
    {
        self.inner.update(bytes);
    }

    /// The digest of what was taken in so far.
    pub fn digest(&self) -> (digest: Vec<u8>)
        requires
            self.input().len() <= digest::SHA_MAX_INPUT,
        ensures
            digest@ == digest::sha256_of(self.input()),
    {
        wire::copy_of(&self.inner.digest_so_far())
    }
}

/// Times that the clock reads while one frame is produced.
#[derive(Debug, Clone, Copy, PartialEq, Eq, Structural)]
pub struct Tick {
    /// When the session started, if this is its first frame.
    pub started_at: u64,
    /// The frame's time stamp.
    pub now: u64,
    /// When the frame was counted.
    pub sampled_at: u64,
}

impl Tick {
    /// The clock showed each of the times when it was read.
    pub open spec fn was_read(self) -> bool {
        time::was_read(self.started_at) && time::was_read(self.now) && time::was_read(
            self.sampled_at,
        )
    }
}

/// The clock showed all of these times.
pub open spec fn all_read(ticks: Seq<Tick>) -> bool {
    forall|i: int| 0 <= i < ticks.len() ==> (#[trigger] ticks[i]).was_read()
}

/// Read the clock for one frame. What the clock shows is not known.
fn read_clock() -> (tick: Tick)
    ensures
        tick.was_read(),
{
    Tick { started_at: time::now_ms(), now: time::now_ms(), sampled_at: time::now_ms() }
}

/// One byte per module: 1 is dark, 0 is light.
pub open spec fn module_bytes(modules: Seq<bool>) -> Seq<u8> {
    modules.map_values(
        |dark: bool|
            if dark {
                1u8
            } else {
                0u8
            },
    )
}

/// The side and the modules of the QR code of `data`.
pub open spec fn code_block(data: Seq<u8>) -> Seq<u8> {
    wire::le32(qr_render::side(qr_render::version_for(data.len() as int)) as u32) + module_bytes(
        qr_render::rendered(data),
    )
}

/// What comes of producing a frame and rendering it.
pub enum Shown {
    /// The QR code of these bytes.
    Code(Seq<u8>),
    /// The session has no symbol left.
    Exhausted,
    /// The frame has this many bytes, too many for a QR code.
    TooLarge(nat),
}

/// What comes of the session's next frame.
pub open spec fn shown(s: SenderView, now: u64) -> Shown {
    match s.next_frame(now) {
        None => Shown::Exhausted,
        Some(frame) => if frame.wire().len() > QR_MAX_BYTES {
            Shown::TooLarge(frame.wire().len())
        } else {
            Shown::Code(frame.wire())
        },
    }
}

/// The message where there is no code to show.
pub open spec fn failure(shown: Shown) -> Seq<char> {
    match shown {
        Shown::TooLarge(have) => refused_code(have),
        _ => Error::SymbolIdSpaceExhausted.text(),
    }
}

/// The message for `have` bytes that no QR code holds.
pub open spec fn refused_code(have: nat) -> Seq<char> {
    "qr encode failed: BufferTooShort { need: "@ + text::decimal(QR_MAX_BYTES as nat) + ", have: "@
        + text::decimal(have) + " }"@
}

/// The message for `have` bytes that no QR code holds.
fn refuse_code(have: usize) -> (message: String)
    ensures
        message@ == refused_code(have as nat),
{
    let mut m = text::numbered(
        "qr encode failed: BufferTooShort { need: ",
        QR_MAX_BYTES as u64,
    );
    text::push_str(&mut m, ", have: ");
    text::push_decimal(&mut m, have as u64);
    text::push_str(&mut m, " }");
    m
}

/// Render `data` as a QR code.
fn render(data: &[u8]) -> (r: Result<QrMatrix, String>)
    ensures
        match r {
            Ok(matrix) => {
                &&& data@.len() <= QR_MAX_BYTES
                &&& matrix.size == qr_render::side(qr_render::version_for(data@.len() as int))
                &&& 21 <= matrix.size <= MAX_QR_SIDE
                &&& matrix.modules@ == qr_render::rendered(data@)
                &&& matrix.modules@.len() == matrix.size * matrix.size <= MAX_QR_MODULES
            },
            Err(message) => data@.len() > QR_MAX_BYTES && message@ == refused_code(data@.len()),
        },
{
    match qr_render::encode(data) {
        Ok(matrix) => {
            let n: usize = matrix.size;
            assert(n * n <= 177 * 177) by (nonlinear_arith)
                requires
                    0 <= n <= 177,
            ;
            Ok(matrix)
        },
        Err(_) => Err(refuse_code(data.len())),
    }
}

/// The modules as bytes.
fn to_bytes(modules: &Vec<bool>) -> (bytes: Vec<u8>)
    ensures
        bytes@ == module_bytes(modules@),
{
    let mut bytes: Vec<u8> = Vec::new();
    let mut i: usize = 0;
    while i < modules.len()
        invariant
            i <= modules@.len(),
            bytes@ == module_bytes(modules@.take(i as int)),
        decreases modules@.len() - i,
    {
        bytes.push(
            if modules[i] {
                1u8
            } else {
                0u8
            },
        );
        i = i + 1;
        assert(bytes@ =~= module_bytes(modules@.take(i as int)));
    }
    assert(modules@.take(i as int) =~= modules@);
    bytes
}

/// Render `frame_bytes` as a QR code: its modules as bytes, row by row, and its
/// side in `out_side`.
pub fn encode_qr(frame_bytes: &[u8], out_side: &mut [u32]) -> (r: Result<Vec<u8>, String>)
    ensures
        final(out_side)@.len() == old(out_side)@.len(),
        match r {
            Ok(modules) => {
                &&& old(out_side)@.len() > 0
                &&& frame_bytes@.len() <= QR_MAX_BYTES
                &&& modules@ == module_bytes(qr_render::rendered(frame_bytes@))
                &&& final(out_side)@ == old(out_side)@.update(
                    0,
                    qr_render::side(qr_render::version_for(frame_bytes@.len() as int)) as u32,
                )
            },
            Err(message) => {
                &&& final(out_side)@ == old(out_side)@
                &&& if old(out_side)@.len() == 0 {
                    message@ == "out_side buffer empty"@
                } else {
                    frame_bytes@.len() > QR_MAX_BYTES && message@ == refused_code(
                        frame_bytes@.len(),
                    )
                }
            },
        },
{
    if out_side.len() == 0 {
        return Err("out_side buffer empty".to_owned());
    }
    match render(frame_bytes) {
        Ok(matrix) => {
            out_side[0] = matrix.size as u32;
            Ok(to_bytes(&matrix.modules))
        },
        Err(message) => Err(message),
    }
}

/// Why a run of codes ended early.
pub enum Stop {
    /// There was no code to show, with the message.
    NoCode(Seq<char>),
    /// The next code needs more bytes than there is room for.
    Overflow(nat),
}

/// A run of codes: the session, the codes one after the other, how many there
/// are, and why the run ended early, if it did.
#[verifier::ext_equal]
pub struct Run {
    pub session: SenderView,
    pub codes: Seq<u8>,
    pub produced: nat,
    pub stop: Option<Stop>,
}

impl Run {
    /// A run that has produced nothing.
    pub open spec fn start(session: SenderView) -> Run {
        Run { session, codes: Seq::empty(), produced: 0, stop: None }
    }

    /// The run after one more code, if there is one and it fits into `room`
    /// bytes together with the others.
    pub open spec fn step(self, tick: Tick, room: Option<usize>) -> Run {
        let after = self.session.after_frame(tick.started_at, tick.sampled_at);
        if self.stop is Some {
            self
        } else {
            match shown(self.session, tick.now) {
                Shown::Code(data) => {
                    let code = code_block(data);
                    if room matches Some(n) && self.codes.len() + code.len() > n {
                        Run { session: after, stop: Some(Stop::Overflow(code.len())), ..self }
                    } else {
                        Run {
                            session: after,
                            codes: self.codes + code,
                            produced: self.produced + 1,
                            ..self
                        }
                    }
                },
                other => Run {
                    session: after,
                    stop: Some(Stop::NoCode(failure(other))),
                    ..self
                },
            }
        }
    }

    /// The run after the codes of `ticks`.
    pub open spec fn over(self, ticks: Seq<Tick>, room: Option<usize>) -> Run
        decreases ticks.len(),
    {
        if ticks.len() == 0 {
            self
        } else {
            self.over(ticks.drop_last(), room).step(ticks.last(), room)
        }
    }

    /// The count and the codes.
    pub open spec fn buffer(self) -> Seq<u8> {
        wire::le32(self.produced as u32) + self.codes
    }
}

/// Why a run of codes ended early.
enum Halt {
    NoCode(String),
    Overflow(usize),
}

/// The codes of a run.
struct Codes {
    bytes: Vec<u8>,
    produced: u32,
    halt: Option<Halt>,
}

/// What a halt stands for.
spec fn halt_view(halt: Option<Halt>) -> Option<Stop> {
    match halt {
        None => None,
        Some(Halt::NoCode(message)) => Some(Stop::NoCode(message@)),
        Some(Halt::Overflow(need)) => Some(Stop::Overflow(need as nat)),
    }
}

/// A sender session in a browser.
pub struct SenderSessionWasm {
    inner: SenderSession,
    /// Where codes are left for the browser to read.
    qr_scratch: Vec<u8>,
}

/// What a [`SenderSessionWasm`] stands for.
#[verifier::ext_equal]
pub struct SenderWasmView {
    pub session: SenderView,
    pub scratch: Seq<u8>,
}

impl View for SenderSessionWasm {
    type V = SenderWasmView;

    closed spec fn view(&self) -> SenderWasmView {
        SenderWasmView { session: self.inner@, scratch: self.qr_scratch@ }
    }
}

/// The file metadata that the arguments of a new session make up.
pub open spec fn file_of(
    payload: Seq<u8>,
    filename: Seq<char>,
    original_size: u64,
    crc32: u32,
    compression: u8,
) -> FileMetaView {
    FileMetaView {
        filename,
        original_size,
        crc32,
        compression,
        compressed_size: payload.len() as u64,
        compressed_size_known: true,
        crc32_known: true,
    }
}

/// `r` holds the session that `inner` does, or the message of its error.
pub open spec fn wraps(
    r: Result<SenderSessionWasm, String>,
    inner: Result<SenderSession, Error>,
) -> bool {
    match inner {
        Ok(session) => {
            &&& r matches Ok(s) && s.wf() && s@ == (SenderWasmView {
                session: session@,
                scratch: Seq::new(QR_SCRATCH_BYTES as nat, |i: int| 0u8),
            })
        },
        Err(e) => r matches Err(message) && message@ == e.text(),
    }
}

/// `r` is what comes of a new session for a single object.
pub open spec fn is_single(
    r: Result<SenderSessionWasm, String>,
    inner: Result<SenderSession, Error>,
    payload: Seq<u8>,
    session_id: u128,
    config: SenderConfig,
    file: FileMetaView,
    segment: Option<SegmentView>,
) -> bool {
    sender::is_new_session(inner, payload, session_id, config, file, segment) && wraps(r, inner)
}

/// The message of a segment that is refused, if it is.
pub open spec fn segment_refusal(
    root_sha256: Seq<u8>,
    raw_sha256: Seq<u8>,
    segment: SegmentView,
    child: u128,
    file: FileMetaView,
) -> Option<Seq<char>> {
    if root_sha256.len() != 32 || raw_sha256.len() != 32 {
        Some("root_sha256 and raw_sha256 must be exactly 32 bytes"@)
    } else {
        match segment.rejection(child, file) {
            Some(reason) => Some("invalid large-transfer segment: "@ + reason),
            None => None,
        }
    }
}

impl SenderSessionWasm {
    /// The session is in a state that calls can bring about, and the scratch
    /// buffer has its size.
    pub closed spec fn inner_wf(self) -> bool {
        self.inner.wf()
    }

    /// The session is in a state that calls can bring about.
    pub open spec fn wf(self) -> bool {
        &&& self.inner_wf()
        &&& self@.session.wf()
        &&& self@.scratch.len() == QR_SCRATCH_BYTES
    }

    /// A session for the payload with the scratch buffer that it needs.
    fn wrap(inner: Result<SenderSession, Error>) -> (r: Result<Self, String>)
        requires
            inner matches Ok(session) ==> session.wf(),
        ensures
            wraps(r, inner),
    {
        match inner {
            Ok(session) => {
                let mut qr_scratch: Vec<u8> = Vec::new();
                qr_scratch.resize(QR_SCRATCH_BYTES, 0);
                let s = SenderSessionWasm { inner: session, qr_scratch };
                assert(s@.scratch =~= Seq::new(QR_SCRATCH_BYTES as nat, |i: int| 0u8));
                Ok(s)
            },
            Err(e) => Err(e.message()),
        }
    }

    /// A session for a payload that is compressed under `compression`.
    pub fn new(
        compressed_payload: &[u8],
        session_id_lo: u64,
        session_id_hi: u64,
        redundancy_pct: u8,
        symbol_size: u32,
        filename: &str,
        original_file_size: u64,
        crc32: u32,
        compression: u8,
    ) -> (r: Result<Self, String>)
        requires
            config::valid_symbol_size(symbol_size) && 5 <= redundancy_pct <= 50
                ==> sender::encodable_payload(
                compressed_payload@.len(),
                (SenderConfig { codec: Config::sized(symbol_size), redundancy_pct }),
            ),
        ensures
            if !config::valid_symbol_size(symbol_size) {
                r matches Err(message) && message@
                    == crate::raptorq_core::Error::InvalidSymbolSize.text()
            } else {
                exists|inner: Result<SenderSession, Error>| #[trigger]
                    is_single(
                        r,
                        inner,
                        compressed_payload@,
                        host::joined_id(session_id_lo, session_id_hi),
                        (SenderConfig { codec: Config::sized(symbol_size), redundancy_pct }),
                        file_of(
                            compressed_payload@,
                            filename@,
                            original_file_size,
                            crc32,
                            compression,
                        ),
                        None,
                    )
            },
    {
        let codec = match Config::new(symbol_size) {
            Ok(codec) => codec,
            Err(e) => {
                return Err(e.message());
            },
        };
        let file_meta = FileMeta {
            filename: filename.to_owned(),
            original_size: original_file_size,
            crc32,
            compression,
            compressed_size: compressed_payload.len() as u64,
            compressed_size_known: true,
            crc32_known: true,
        };
        let session_id = SessionId(host::join_id(session_id_lo, session_id_hi));
        let inner = SenderSession::new(
            compressed_payload,
            session_id,
            SenderConfig { codec, redundancy_pct },
            file_meta,
        );
        let ghost outcome = inner;
        let r = SenderSessionWasm::wrap(inner);
        proof {
            assert(file_meta@ =~= file_of(
                compressed_payload@,
                filename@,
                original_file_size,
                crc32,
                compression,
            ));
            assert(is_single(
                r,
                outcome,
                compressed_payload@,
                session_id.0,
                (SenderConfig { codec, redundancy_pct }),
                file_meta@,
                None,
            ));
        }
        r
    }

    /// A session for one segment of a compressed stream, under the session id
    /// that is derived for the segment.
    pub fn new_segment(
        compressed_payload: &[u8],
        root_session_id_lo: u64,
        root_session_id_hi: u64,
        segment_index: u32,
        segment_count: u32,
        original_offset: u64,
        root_original_size: u64,
        root_sha256: &[u8],
        raw_sha256: &[u8],
        redundancy_pct: u8,
        symbol_size: u32,
        filename: &str,
        original_size: u64,
        crc32: u32,
        compression: u8,
    ) -> (r: Result<Self, String>)
        ensures
            ({
                let root = host::joined_id(root_session_id_lo, root_session_id_hi);
                let child = session::derived_segment_id(root, segment_index);
                let segment = SegmentView {
                    root_session_id: root,
                    segment_index,
                    segment_count,
                    original_offset,
                    root_original_size,
                    root_sha256: root_sha256@,
                    raw_sha256: raw_sha256@,
                };
                let file = file_of(
                    compressed_payload@,
                    filename@,
                    original_size,
                    crc32,
                    compression,
                );
                let refusal = segment_refusal(root_sha256@, raw_sha256@, segment, child, file);
                if !config::valid_symbol_size(symbol_size) {
                    r matches Err(message) && message@
                        == crate::raptorq_core::Error::InvalidSymbolSize.text()
                } else if refusal is Some {
                    r matches Err(message) && refusal == Some(message@)
                } else {
                    exists|inner: Result<SenderSession, Error>| #[trigger]
                        is_single(
                            r,
                            inner,
                            compressed_payload@,
                            child,
                            (SenderConfig { codec: Config::sized(symbol_size), redundancy_pct }),
                            file,
                            Some(segment),
                        )
                }
            }),
    {
        let root: u128 = host::join_id(root_session_id_lo, root_session_id_hi);
        let child = SessionId::derive_segment(root, segment_index);
        let codec = match Config::new(symbol_size) {
            Ok(codec) => codec,
            Err(e) => {
                return Err(e.message());
            },
        };
        let file_meta = FileMeta {
            filename: filename.to_owned(),
            original_size,
            crc32,
            compression,
            compressed_size: compressed_payload.len() as u64,
            compressed_size_known: true,
            crc32_known: true,
        };
        if root_sha256.len() != 32 || raw_sha256.len() != 32 {
            return Err("root_sha256 and raw_sha256 must be exactly 32 bytes".to_owned());
        }
        let segment_meta = SegmentMeta {
            root_session_id: root,
            segment_index,
            segment_count,
            original_offset,
            root_original_size,
            root_sha256: wire::read_32(root_sha256, 0),
            raw_sha256: wire::read_32(raw_sha256, 0),
        };
        let ghost file = file_meta@;
        let ghost segment = segment_meta@;
        proof {
            assert(file =~= file_of(
                compressed_payload@,
                filename@,
                original_size,
                crc32,
                compression,
            ));
            assert(segment.root_sha256 =~= root_sha256@);
            assert(segment.raw_sha256 =~= raw_sha256@);
            if segment.valid(child.0, file) {
                segment::lemma_segment_in_stream(
                    root_original_size as int,
                    segment_index as int,
                );
                sender::lemma_segment_encodable(
                    compressed_payload@.len(),
                    (SenderConfig { codec, redundancy_pct }),
                );
            }
        }
        let inner = SenderSession::new_segment(
            compressed_payload,
            child,
            SenderConfig { codec, redundancy_pct },
            file_meta,
            segment_meta,
        );
        let ghost outcome = inner;
        let r = SenderSessionWasm::wrap(inner);
        proof {
            if segment.valid(child.0, file) {
                assert(is_single(
                    r,
                    outcome,
                    compressed_payload@,
                    child.0,
                    (SenderConfig { codec, redundancy_pct }),
                    file,
                    Some(segment),
                ));
            }
        }
        r
    }
}

/// `r` is what comes of the next frame, and the session went on from `before` to
/// `after`.
pub open spec fn is_shown(
    r: Result<QrMatrix, String>,
    before: SenderView,
    after: SenderView,
    tick: Tick,
) -> bool {
    &&& after == before.after_frame(tick.started_at, tick.sampled_at)
    &&& match r {
        Ok(matrix) => {
            &&& shown(before, tick.now) matches Shown::Code(data) && {
                &&& matrix.size == qr_render::side(qr_render::version_for(data.len() as int))
                &&& matrix.modules@ == qr_render::rendered(data)
            }
            &&& 21 <= matrix.size <= MAX_QR_SIDE
            &&& matrix.modules@.len() == matrix.size * matrix.size <= MAX_QR_MODULES
        },
        Err(message) => !(shown(before, tick.now) is Code) && message@ == failure(
            shown(before, tick.now),
        ),
    }
}

/// Produce the next frame of a session and render it.
fn next_code(session: &mut SenderSession, tick: Tick) -> (r: Result<QrMatrix, String>)
    requires
        old(session).wf(),
        old(session)@.can_count(),
    ensures
        final(session).wf(),
        is_shown(r, old(session)@, final(session)@, tick),
{
    match session.next_frame_at(tick.started_at, tick.now, tick.sampled_at) {
        Ok(frame) => render(&frame.to_bytes()),
        Err(e) => Err(e.message()),
    }
}

/// A frame adds at most one symbol to the statistics.
proof fn lemma_room_left(s: SenderView, tick: Tick, n: int)
    requires
        n >= 1,
        sender::room_for(s, n),
    ensures
        s.can_count(),
        sender::room_for(s.after_frame(tick.started_at, tick.sampled_at), n - 1),
{
    let t = s.size() as int;
    assert(n * t == (n - 1) * t + t) by (nonlinear_arith);
    assert(0 <= (n - 1) * t) by (nonlinear_arith)
        requires
            n >= 1,
            t >= 0,
    ;
}

impl Codes {
    /// The codes are those of `run`.
    spec fn of(self, run: Run) -> bool {
        &&& self.bytes@ == run.codes
        &&& self.produced == run.produced
        &&& halt_view(self.halt) == run.stop
    }

    /// No codes.
    fn none() -> (codes: Self)
        ensures
            forall|s: SenderView| #[trigger] codes.of(Run::start(s)),
    {
        Codes { bytes: Vec::new(), produced: 0, halt: None }
    }

    /// One more code of the session, if there is one and it fits. A code takes
    /// at most 31333 bytes.
    fn extend(
        &mut self,
        session: &mut SenderSession,
        tick: Tick,
        room: Option<usize>,
        Ghost(run): Ghost<Run>,
    )
        requires
            old(session).wf(),
            old(session)@.can_count(),
            old(self).of(run),
            run.session == old(session)@,
            run.codes.len() <= run.produced * 31_333,
            run.produced < 8,
        ensures
            final(session).wf(),
            final(self).of(run.step(tick, room)),
            run.step(tick, room).session == final(session)@,
            run.step(tick, room).codes.len() <= run.step(tick, room).produced * 31_333,
            run.step(tick, room).produced <= run.produced + 1,
    {
        if self.halt.is_some() {
            return ;
        }
        let ghost data = shown(session@, tick.now)->Code_0;
        match next_code(session, tick) {
            Ok(matrix) => {
                let need: usize = 4 + matrix.modules.len();
                assert(need == code_block(data).len());
                match room {
                    Some(n) => if self.bytes.len() + need > n {
                        self.halt = Some(Halt::Overflow(need));
                        return ;
                    },
                    None => {},
                }
                let ghost before = self.bytes@;
                wire::push_u32_le(&mut self.bytes, matrix.size as u32);
                let modules = to_bytes(&matrix.modules);
                wire::push_bytes(&mut self.bytes, &modules);
                assert(self.bytes@ =~= before + code_block(data));
                self.produced = self.produced + 1;
            },
            Err(message) => {
                self.halt = Some(Halt::NoCode(message));
            },
        }
    }
}

/// `codes` are those of a run of `n` codes at some times, which took the session
/// from `before` to `after`.
spec fn is_run(
    codes: Codes,
    before: SenderView,
    after: SenderView,
    ticks: Seq<Tick>,
    n: nat,
    room: Option<usize>,
) -> bool {
    &&& ticks.len() == n
    &&& codes.of(Run::start(before).over(ticks, room))
    &&& after == Run::start(before).over(ticks, room).session
}

/// The next `n` codes of a session, as far as there are codes and they fit.
fn next_codes(session: &mut SenderSession, n: u32, room: Option<usize>) -> (codes: Codes)
    requires
        old(session).wf(),
        n <= 8,
        sender::room_for(old(session)@, n as int),
    ensures
        final(session).wf(),
        codes.produced <= n,
        codes.bytes@.len() <= codes.produced * 31_333,
        exists|ticks: Seq<Tick>|
            all_read(ticks) && #[trigger] is_run(
                codes,
                old(session)@,
                final(session)@,
                ticks,
                n as nat,
                room,
            ),
{
    let ghost before = session@;
    let ghost mut ticks: Seq<Tick> = Seq::empty();
    let ghost mut run = Run::start(before);
    let mut codes = Codes::none();
    let mut i: u32 = 0;
    assert(codes.of(Run::start(before)));
    while i < n
        invariant
            i <= n <= 8,
            session.wf(),
            run.stop is None ==> sender::room_for(session@, n - i),
            ticks.len() == i,
            all_read(ticks),
            i == 0 ==> run.stop is None,
            run == Run::start(before).over(ticks, room),
            codes.of(run),
            run.session == session@,
            run.produced <= i,
            run.codes.len() <= run.produced * 31_333,
        decreases n - i,
    {
        if codes.halt.is_some() {
            let ghost idle = ticks.last();
            proof {
                assert(ticks.push(idle).drop_last() =~= ticks);
                ticks = ticks.push(idle);
                assert(run.step(idle, room) == run);
            }
        } else {
            let tick = read_clock();
            proof {
                lemma_room_left(session@, tick, n - i);
            }
            codes.extend(session, tick, room, Ghost(run));
            proof {
                assert(ticks.push(tick).drop_last() =~= ticks);
                ticks = ticks.push(tick);
                run = run.step(tick, room);
            }
        }
        i = i + 1;
    }
    assert(is_run(codes, before, session@, ticks, n as nat, room));
    codes
}

/// The next codes of a session at given times, as far as there are codes and
/// they fit.
fn next_codes_at(session: &mut SenderSession, ticks: &[Tick], room: Option<usize>) -> (codes: Codes)
    requires
        old(session).wf(),
        ticks@.len() <= 8,
        sender::room_for(old(session)@, ticks@.len() as int),
    ensures
        final(session).wf(),
        codes.produced <= ticks@.len(),
        codes.bytes@.len() <= codes.produced * 31_333,
        is_run(codes, old(session)@, final(session)@, ticks@, ticks@.len(), room),
{
    let ghost before = session@;
    let ghost mut run = Run::start(before);
    let mut codes = Codes::none();
    let mut i: usize = 0;
    assert(codes.of(Run::start(before)));
    assert(ticks@.take(0) =~= Seq::<Tick>::empty());
    while i < ticks.len()
        invariant
            i <= ticks@.len() <= 8,
            session.wf(),
            run.stop is None ==> sender::room_for(session@, ticks@.len() - i),
            run == Run::start(before).over(ticks@.take(i as int), room),
            codes.of(run),
            run.session == session@,
            run.produced <= i,
            run.codes.len() <= run.produced * 31_333,
        decreases ticks@.len() - i,
    {
        let tick = ticks[i];
        proof {
            assert(ticks@.take(i + 1).drop_last() =~= ticks@.take(i as int));
            assert(ticks@.take(i + 1).last() == tick);
        }
        if codes.halt.is_none() {
            proof {
                lemma_room_left(session@, tick, ticks@.len() - i);
            }
            codes.extend(session, tick, room, Ghost(run));
            proof {
                run = run.step(tick, room);
            }
        } else {
            assert(run.step(tick, room) == run);
        }
        i = i + 1;
    }
    assert(ticks@.take(i as int) =~= ticks@);
    codes
}

/// The next code of the session, and where it leaves off.
pub open spec fn is_next_qr(
    r: Result<Vec<u8>, String>,
    before: SenderView,
    after: SenderView,
    side_before: Seq<u32>,
    side_after: Seq<u32>,
    tick: Tick,
) -> bool {
    if side_before.len() == 0 {
        &&& r matches Err(message) && message@ == "out_side buffer empty"@
        &&& after == before
        &&& side_after == side_before
    } else {
        &&& after == before.after_frame(tick.started_at, tick.sampled_at)
        &&& match r {
            Ok(modules) => shown(before, tick.now) matches Shown::Code(data) && {
                &&& modules@ == module_bytes(qr_render::rendered(data))
                &&& side_after == side_before.update(
                    0,
                    qr_render::side(qr_render::version_for(data.len() as int)) as u32,
                )
            },
            Err(message) => {
                &&& !(shown(before, tick.now) is Code)
                &&& message@ == failure(shown(before, tick.now))
                &&& side_after == side_before
            },
        }
    }
}

/// The message for a buffer of `have` bytes where `need` modules come.
pub open spec fn small_buffer(need: nat, have: nat) -> Seq<char> {
    "out_modules too small: need "@ + text::decimal(need) + ", have "@ + text::decimal(have)
}

/// The next code of the session is in the buffers, or there is a reason why not.
pub open spec fn is_next_qr_into(
    r: Result<u32, String>,
    before: SenderView,
    after: SenderView,
    modules_before: Seq<u8>,
    modules_after: Seq<u8>,
    side_before: Seq<u32>,
    side_after: Seq<u32>,
    tick: Tick,
) -> bool {
    if side_before.len() == 0 {
        &&& r matches Err(message) && message@ == "out_side buffer empty"@
        &&& after == before
        &&& modules_after == modules_before
        &&& side_after == side_before
    } else {
        &&& after == before.after_frame(tick.started_at, tick.sampled_at)
        &&& match shown(before, tick.now) {
            Shown::Code(data) => {
                let modules = module_bytes(qr_render::rendered(data));
                if modules.len() > modules_before.len() {
                    &&& r matches Err(message) && message@ == small_buffer(
                        modules.len(),
                        modules_before.len(),
                    )
                    &&& modules_after == modules_before
                    &&& side_after == side_before
                } else {
                    &&& r matches Ok(n) && n == modules.len()
                    &&& modules_after == wire::overlaid(modules_before, 0, modules)
                    &&& side_after == side_before.update(
                        0,
                        qr_render::side(qr_render::version_for(data.len() as int)) as u32,
                    )
                }
            },
            other => {
                &&& r matches Err(message) && message@ == failure(other)
                &&& modules_after == modules_before
                &&& side_after == side_before
            },
        }
    }
}

/// How many codes are produced at most for `count`.
pub open spec fn batch_size(count: u32) -> nat {
    if count < 8 {
        count as nat
    } else {
        8
    }
}

/// `r` holds the codes of a run of `count` codes, and the session went on from
/// `before` to `after`.
pub open spec fn is_batch(
    r: Result<Vec<u8>, String>,
    before: SenderView,
    after: SenderView,
    ticks: Seq<Tick>,
    count: u32,
) -> bool {
    let run = Run::start(before).over(ticks, None);
    &&& ticks.len() == batch_size(count)
    &&& r matches Ok(out) && out@ == run.buffer()
    &&& after == run.session
}

/// The message for a code that does not fit into a buffer of `have` bytes.
pub open spec fn overflow_message(produced: nat, pos: nat, need: nat, have: nat) -> Seq<char> {
    "out_buf overflow at matrix "@ + text::decimal(produced) + ": need "@ + text::decimal(need)
        + " at pos "@ + text::decimal(pos) + ", have "@ + text::decimal(have)
}

/// The buffer holds the codes of a run of `count` codes, or as many as fitted,
/// and the session went on from `before` to `after`.
pub open spec fn is_batch_into(
    r: Result<u32, String>,
    before: SenderView,
    after: SenderView,
    buf_before: Seq<u8>,
    buf_after: Seq<u8>,
    ticks: Seq<Tick>,
    count: u32,
) -> bool {
    let run = Run::start(before).over(ticks, Some((buf_before.len() - 4) as usize));
    if buf_before.len() < 4 {
        &&& r matches Err(message) && message@ == "out_buf too small for count slot"@
        &&& after == before
        &&& buf_after == buf_before
    } else {
        &&& ticks.len() == batch_size(count)
        &&& after == run.session
        &&& match run.stop {
            Some(Stop::Overflow(need)) => {
                &&& r matches Err(message) && message@ == overflow_message(
                    run.produced,
                    run.codes.len() + 4,
                    need,
                    buf_before.len(),
                )
                &&& buf_after == wire::overlaid(buf_before, 4, run.codes)
            },
            _ => {
                &&& r matches Ok(n) && n == run.buffer().len()
                &&& buf_after == wire::overlaid(buf_before, 0, run.buffer())
            },
        }
    }
}

/// How many codes the scratch buffer takes for `count`.
pub open spec fn scratch_count(count: u32) -> nat {
    if count < 1 {
        1
    } else if count > 4 {
        4
    } else {
        count as nat
    }
}

/// The scratch buffer holds the codes of a run of `count` codes, or those that
/// came before one that could not be had.
pub open spec fn is_scratch(
    r: Result<u32, String>,
    before: SenderWasmView,
    after: SenderWasmView,
    ticks: Seq<Tick>,
    count: u32,
) -> bool {
    let run = Run::start(before.session).over(ticks, None);
    &&& ticks.len() == scratch_count(count)
    &&& after.session == run.session
    &&& match run.stop {
        Some(Stop::NoCode(reason)) => {
            &&& r matches Err(message) && message@ == reason
            &&& after.scratch == wire::overlaid(before.scratch, 4, run.codes)
        },
        _ => {
            &&& r matches Ok(n) && n == run.buffer().len()
            &&& after.scratch == wire::overlaid(before.scratch, 0, run.buffer())
        },
    }
}

/// The codes are in the scratch buffer behind their count, or cut short without
/// it.
spec fn left(r: Result<u32, String>, codes: Codes, before: Seq<u8>, after: Seq<u8>) -> bool {
    match codes.halt {
        Some(Halt::NoCode(reason)) => {
            &&& r matches Err(message) && message@ == reason@
            &&& after == wire::overlaid(before, 4, codes.bytes@)
        },
        _ => {
            &&& r matches Ok(n) && n == codes.bytes@.len() + 4
            &&& after == wire::overlaid(before, 0, wire::le32(codes.produced) + codes.bytes@)
        },
    }
}

/// The codes of a run that were left in the scratch buffer are what it is to
/// hold.
proof fn lemma_left_in_scratch(
    r: Result<u32, String>,
    codes: Codes,
    before: SenderWasmView,
    after: SenderWasmView,
    ticks: Seq<Tick>,
    count: u32,
)
    requires
        is_run(codes, before.session, after.session, ticks, scratch_count(count), None),
        left(r, codes, before.scratch, after.scratch),
    ensures
        is_scratch(r, before, after, ticks, count),
{
    lemma_no_overflow(Run::start(before.session), ticks);
}

/// Without a limit nothing overflows.
proof fn lemma_no_overflow(run: Run, ticks: Seq<Tick>)
    requires
        !(run.stop matches Some(Stop::Overflow(_))),
    ensures
        !(run.over(ticks, None).stop matches Some(Stop::Overflow(_))),
    decreases ticks.len(),
{
    if ticks.len() > 0 {
        lemma_no_overflow(run, ticks.drop_last());
    }
}

impl SenderSessionWasm {
    /// Whether the statistics have room for `frames` more frames.
    pub fn has_room(&self, frames: u32) -> (room: bool)
        requires
            self.wf(),
            frames <= 8,
        ensures
            room == sender::room_for(self@.session, frames as int),
    {
        self.inner.has_room(frames)
    }

    /// The bytes of the next frame at given times.
    pub fn next_frame_at(&mut self, tick: Tick) -> (r: Result<Vec<u8>, String>)
        requires
            old(self).wf(),
            old(self)@.session.can_count(),
        ensures
            final(self).wf(),
            final(self)@.scratch == old(self)@.scratch,
            is_frame_bytes(r, old(self)@.session, final(self)@.session, tick),
    {
        match self.inner.next_frame_at(tick.started_at, tick.now, tick.sampled_at) {
            Ok(frame) => Ok(frame.to_bytes()),
            Err(e) => Err(e.message()),
        }
    }

    /// The QR codes of so many frames as there are times, as
    /// [`SenderSessionWasm::next_qr_multi`] lays them out.
    pub fn next_qr_multi_at(&mut self, ticks: &[Tick]) -> (r: Result<Vec<u8>, String>)
        requires
            old(self).wf(),
            ticks@.len() <= 8,
            sender::room_for(old(self)@.session, ticks@.len() as int),
        ensures
            final(self).wf(),
            final(self)@.scratch == old(self)@.scratch,
            is_batch(
                r,
                old(self)@.session,
                final(self)@.session,
                ticks@,
                ticks@.len() as u32,
            ),
    {
        let ghost before = self@.session;
        let codes = next_codes_at(&mut self.inner, ticks, None);
        let mut out: Vec<u8> = Vec::new();
        wire::push_u32_le(&mut out, codes.produced);
        wire::push_bytes(&mut out, &codes.bytes);
        assert(out@ =~= Run::start(before).over(ticks@, None).buffer());
        Ok(out)
    }

    /// Like [`SenderSessionWasm::next_qr_multi_at`], written into the caller's
    /// buffer. Returns how many bytes were written.
    pub fn next_qr_multi_into_at(&mut self, ticks: &[Tick], out_buf: &mut [u8]) -> (r: Result<
        u32,
        String,
    >)
        requires
            old(self).wf(),
            ticks@.len() <= 8,
            sender::room_for(old(self)@.session, ticks@.len() as int),
        ensures
            final(self).wf(),
            final(self)@.scratch == old(self)@.scratch,
            is_batch_into(
                r,
                old(self)@.session,
                final(self)@.session,
                old(out_buf)@,
                final(out_buf)@,
                ticks@,
                ticks@.len() as u32,
            ),
    {
        let ghost before = self@.session;
        let ghost buf = out_buf@;
        if out_buf.len() < 4 {
            return Err("out_buf too small for count slot".to_owned());
        }
        let room: usize = out_buf.len() - 4;
        let codes = next_codes_at(&mut self.inner, ticks, Some(room));
        proof {
            lemma_within_room(Run::start(before), ticks@, room);
        }
        let r = write_codes(out_buf, &codes);
        proof {
            lemma_written_batch(
                r,
                codes,
                before,
                self@.session,
                buf,
                out_buf@,
                ticks@,
                ticks@.len() as u32,
            );
        }
        r
    }

    /// The QR codes of so many frames as there are times, one to four, left in
    /// the scratch buffer. Returns how many bytes they take.
    pub fn next_qr_scratch_at(&mut self, ticks: &[Tick]) -> (r: Result<u32, String>)
        requires
            old(self).wf(),
            1 <= ticks@.len() <= 4,
            sender::room_for(old(self)@.session, ticks@.len() as int),
        ensures
            final(self).wf(),
            is_scratch(r, old(self)@, final(self)@, ticks@, ticks@.len() as u32),
    {
        let ghost before = self@;
        let codes = next_codes_at(&mut self.inner, ticks, None);
        proof {
            lemma_no_overflow(Run::start(before.session), ticks@);
        }
        let ghost made = codes;
        let r = self.leave_in_scratch(codes);
        proof {
            lemma_left_in_scratch(r, made, before, self@, ticks@, ticks@.len() as u32);
        }
        r
    }

    /// The statistics at a given time.
    pub fn stats_at(&self, now: u64) -> (stats: Stats)
        ensures
            stats@ == sender::stats_at(self@.session, now),
    {
        self.inner.stats_at(now)
    }

    /// The bytes of the next frame.
    pub fn next_frame(&mut self) -> (r: Result<Vec<u8>, String>)
        requires
            old(self).wf(),
            old(self)@.session.can_count(),
        ensures
            final(self).wf(),
            final(self)@.scratch == old(self)@.scratch,
            exists|tick: Tick|
                tick.was_read() && #[trigger] is_frame_bytes(
                    r,
                    old(self)@.session,
                    final(self)@.session,
                    tick,
                ),
    {
        let tick = read_clock();
        let ghost before = self@.session;
        let r = match self.inner.next_frame_at(tick.started_at, tick.now, tick.sampled_at) {
            Ok(frame) => Ok(frame.to_bytes()),
            Err(e) => Err(e.message()),
        };
        assert(is_frame_bytes(r, before, self@.session, tick));
        r
    }

    /// The QR code of the next frame: its modules as bytes, row by row, and its
    /// side in `out_side`.
    pub fn next_qr(&mut self, out_side: &mut [u32]) -> (r: Result<Vec<u8>, String>)
        requires
            old(self).wf(),
            old(self)@.session.can_count(),
        ensures
            final(self).wf(),
            final(self)@.scratch == old(self)@.scratch,
            exists|tick: Tick|
                tick.was_read() && #[trigger] is_next_qr(
                    r,
                    old(self)@.session,
                    final(self)@.session,
                    old(out_side)@,
                    final(out_side)@,
                    tick,
                ),
    {
        let tick = read_clock();
        self.next_qr_at(tick, out_side)
    }

    /// Like [`SenderSessionWasm::next_qr`], at given times.
    pub fn next_qr_at(&mut self, tick: Tick, out_side: &mut [u32]) -> (r: Result<Vec<u8>, String>)
        requires
            old(self).wf(),
            old(self)@.session.can_count(),
        ensures
            final(self).wf(),
            final(self)@.scratch == old(self)@.scratch,
            is_next_qr(
                r,
                old(self)@.session,
                final(self)@.session,
                old(out_side)@,
                final(out_side)@,
                tick,
            ),
    {
        if out_side.len() == 0 {
            return Err("out_side buffer empty".to_owned());
        }
        match next_code(&mut self.inner, tick) {
            Ok(matrix) => {
                out_side[0] = matrix.size as u32;
                Ok(to_bytes(&matrix.modules))
            },
            Err(message) => Err(message),
        }
    }

    /// The QR code of the next frame, written into the caller's buffers. Returns
    /// how many modules there are.
    pub fn next_qr_into(&mut self, out_modules: &mut [u8], out_side: &mut [u32]) -> (r: Result<
        u32,
        String,
    >)
        requires
            old(self).wf(),
            old(self)@.session.can_count(),
        ensures
            final(self).wf(),
            final(self)@.scratch == old(self)@.scratch,
            exists|tick: Tick|
                tick.was_read() && #[trigger] is_next_qr_into(
                    r,
                    old(self)@.session,
                    final(self)@.session,
                    old(out_modules)@,
                    final(out_modules)@,
                    old(out_side)@,
                    final(out_side)@,
                    tick,
                ),
    {
        let tick = read_clock();
        self.next_qr_into_at(tick, out_modules, out_side)
    }

    /// Like [`SenderSessionWasm::next_qr_into`], at given times.
    pub fn next_qr_into_at(
        &mut self,
        tick: Tick,
        out_modules: &mut [u8],
        out_side: &mut [u32],
    ) -> (r: Result<u32, String>)
        requires
            old(self).wf(),
            old(self)@.session.can_count(),
        ensures
            final(self).wf(),
            final(self)@.scratch == old(self)@.scratch,
            is_next_qr_into(
                r,
                old(self)@.session,
                final(self)@.session,
                old(out_modules)@,
                final(out_modules)@,
                old(out_side)@,
                final(out_side)@,
                tick,
            ),
    {
        if out_side.len() == 0 {
            return Err("out_side buffer empty".to_owned());
        }
        let matrix = match next_code(&mut self.inner, tick) {
            Ok(matrix) => matrix,
            Err(message) => {
                return Err(message);
            },
        };
        let n: usize = matrix.modules.len();
        if n > out_modules.len() {
            let mut m = text::numbered("out_modules too small: need ", n as u64);
            text::push_str(&mut m, ", have ");
            text::push_decimal(&mut m, out_modules.len() as u64);
            return Err(m);
        }
        let bytes = to_bytes(&matrix.modules);
        wire::overlay(out_modules, 0, &bytes);
        out_side[0] = matrix.size as u32;
        Ok(n as u32)
    }

    /// The QR codes of up to `count` frames, at most eight: a count, and for each
    /// code its side and its modules, little-endian. There are fewer where the
    /// session has no symbol left or a frame does not fit into a code.
    pub fn next_qr_multi(&mut self, count: u32) -> (r: Result<Vec<u8>, String>)
        requires
            old(self).wf(),
            sender::room_for(old(self)@.session, batch_size(count) as int),
        ensures
            final(self).wf(),
            final(self)@.scratch == old(self)@.scratch,
            exists|ticks: Seq<Tick>|
                all_read(ticks) && #[trigger] is_batch(
                    r,
                    old(self)@.session,
                    final(self)@.session,
                    ticks,
                    count,
                ),
    {
        let n: u32 = if count < 8 {
            count
        } else {
            8
        };
        let ghost before = self@.session;
        let codes = next_codes(&mut self.inner, n, None);
        let mut out: Vec<u8> = Vec::new();
        wire::push_u32_le(&mut out, codes.produced);
        wire::push_bytes(&mut out, &codes.bytes);
        let r = Ok(out);
        proof {
            let ticks = choose|ticks: Seq<Tick>|
                all_read(ticks) && #[trigger] is_run(
                    codes,
                    before,
                    self@.session,
                    ticks,
                    n as nat,
                    None,
                );
            let run = Run::start(before).over(ticks, None);
            assert(out@ =~= run.buffer());
            assert(is_batch(r, before, self@.session, ticks, count));
        }
        r
    }

    /// Like [`SenderSessionWasm::next_qr_multi`], written into the caller's
    /// buffer. Returns how many bytes were written.
    pub fn next_qr_multi_into(&mut self, count: u32, out_buf: &mut [u8]) -> (r: Result<u32, String>)
        requires
            old(self).wf(),
            sender::room_for(old(self)@.session, batch_size(count) as int),
        ensures
            final(self).wf(),
            final(self)@.scratch == old(self)@.scratch,
            exists|ticks: Seq<Tick>|
                all_read(ticks) && #[trigger] is_batch_into(
                    r,
                    old(self)@.session,
                    final(self)@.session,
                    old(out_buf)@,
                    final(out_buf)@,
                    ticks,
                    count,
                ),
    {
        let ghost before = self@.session;
        let ghost buf = out_buf@;
        if out_buf.len() < 4 {
            let r = Err("out_buf too small for count slot".to_owned());
            assert(is_batch_into(r, before, self@.session, buf, out_buf@, Seq::empty(), count));
            return r;
        }
        let n: u32 = if count < 8 {
            count
        } else {
            8
        };
        let room: usize = out_buf.len() - 4;
        let codes = next_codes(&mut self.inner, n, Some(room));
        let ghost ticks = choose|ticks: Seq<Tick>|
            all_read(ticks) && #[trigger] is_run(
                codes,
                before,
                self@.session,
                ticks,
                n as nat,
                Some(room),
            );
        proof {
            lemma_within_room(Run::start(before), ticks, room);
        }
        let r = write_codes(out_buf, &codes);
        proof {
            lemma_written_batch(r, codes, before, self@.session, buf, out_buf@, ticks, count);
        }
        r
    }
}

/// The codes are in the buffer behind their count, or cut short without it.
spec fn written(
    r: Result<u32, String>,
    codes: Codes,
    buf_before: Seq<u8>,
    buf_after: Seq<u8>,
) -> bool {
    match codes.halt {
        Some(Halt::Overflow(need)) => {
            &&& r matches Err(message) && message@ == overflow_message(
                codes.produced as nat,
                codes.bytes@.len() + 4,
                need as nat,
                buf_before.len(),
            )
            &&& buf_after == wire::overlaid(buf_before, 4, codes.bytes@)
        },
        _ => {
            &&& r matches Ok(n) && n == codes.bytes@.len() + 4
            &&& buf_after == wire::overlaid(
                buf_before,
                0,
                wire::le32(codes.produced) + codes.bytes@,
            )
        },
    }
}

/// The codes of a run that were written are a batch in the buffer.
proof fn lemma_written_batch(
    r: Result<u32, String>,
    codes: Codes,
    before: SenderView,
    after: SenderView,
    buf_before: Seq<u8>,
    buf_after: Seq<u8>,
    ticks: Seq<Tick>,
    count: u32,
)
    requires
        4 <= buf_before.len() <= usize::MAX,
        is_run(
            codes,
            before,
            after,
            ticks,
            batch_size(count),
            Some((buf_before.len() - 4) as usize),
        ),
        written(r, codes, buf_before, buf_after),
    ensures
        is_batch_into(r, before, after, buf_before, buf_after, ticks, count),
{
}

/// Write codes into a buffer, behind their count. Where they were cut short
/// because one did not fit, the count is left out.
fn write_codes(out_buf: &mut [u8], codes: &Codes) -> (r: Result<u32, String>)
    requires
        codes.bytes@.len() + 4 <= old(out_buf)@.len(),
        codes.bytes@.len() <= 250_664,
    ensures
        written(r, *codes, old(out_buf)@, final(out_buf)@),
{
    let ghost buf = out_buf@;
    wire::overlay(out_buf, 4, &codes.bytes);
    if let Some(Halt::Overflow(need)) = &codes.halt {
        let mut m = text::numbered("out_buf overflow at matrix ", codes.produced as u64);
        text::push_str(&mut m, ": need ");
        text::push_decimal(&mut m, *need as u64);
        text::push_str(&mut m, " at pos ");
        text::push_decimal(&mut m, (codes.bytes.len() + 4) as u64);
        text::push_str(&mut m, ", have ");
        text::push_decimal(&mut m, out_buf.len() as u64);
        return Err(m);
    }
    let mut slot: Vec<u8> = Vec::new();
    wire::push_u32_le(&mut slot, codes.produced);
    wire::overlay(out_buf, 0, &slot);
    assert(slot@ =~= wire::le32(codes.produced));
    assert(out_buf@ =~= wire::overlaid(buf, 0, wire::le32(codes.produced) + codes.bytes@));
    Ok((codes.bytes.len() + 4) as u32)
}

/// The bytes of the next frame, and where the session leaves off.
pub open spec fn is_frame_bytes(
    r: Result<Vec<u8>, String>,
    before: SenderView,
    after: SenderView,
    tick: Tick,
) -> bool {
    &&& after == before.after_frame(tick.started_at, tick.sampled_at)
    &&& match r {
        Ok(bytes) => before.next_frame(tick.now) matches Some(frame) && bytes@ == frame.wire(),
        Err(message) => before.next_frame(tick.now) is None && message@
            == Error::SymbolIdSpaceExhausted.text(),
    }
}

/// The codes stay within the room there is.
pub proof fn lemma_within_room(run: Run, ticks: Seq<Tick>, room: usize)
    requires
        run.codes.len() <= room,
    ensures
        run.over(ticks, Some(room)).codes.len() <= room,
    decreases ticks.len(),
{
    if ticks.len() > 0 {
        lemma_within_room(run, ticks.drop_last(), room);
    }
}

impl SenderSessionWasm {
    /// The QR codes of one to four frames, left in the scratch buffer as
    /// [`SenderSessionWasm::next_qr_multi`] lays them out. Returns how many bytes
    /// they take.
    pub fn next_qr_scratch(&mut self, count: u32) -> (r: Result<u32, String>)
        requires
            old(self).wf(),
            sender::room_for(old(self)@.session, scratch_count(count) as int),
        ensures
            final(self).wf(),
            exists|ticks: Seq<Tick>|
                all_read(ticks) && #[trigger] is_scratch(
                    r,
                    old(self)@,
                    final(self)@,
                    ticks,
                    count,
                ),
    {
        let n: u32 = if count < 1 {
            1
        } else if count > MAX_UI_QR_COUNT as u32 {
            MAX_UI_QR_COUNT as u32
        } else {
            count
        };
        let ghost before = self@;
        let codes = next_codes(&mut self.inner, n, None);
        let ghost ticks = choose|ticks: Seq<Tick>|
            all_read(ticks) && #[trigger] is_run(
                codes,
                before.session,
                self@.session,
                ticks,
                n as nat,
                None,
            );
        proof {
            lemma_no_overflow(Run::start(before.session), ticks);
        }
        let ghost made = codes;
        let r = self.leave_in_scratch(codes);
        proof {
            lemma_left_in_scratch(r, made, before, self@, ticks, count);
        }
        r
    }

    /// Leave codes in the scratch buffer, behind their count, unless they were
    /// cut short.
    fn leave_in_scratch(&mut self, codes: Codes) -> (r: Result<u32, String>)
        requires
            old(self).wf(),
            codes.bytes@.len() + 4 <= QR_SCRATCH_BYTES,
            !(codes.halt matches Some(Halt::Overflow(_))),
        ensures
            final(self).wf(),
            final(self)@.session == old(self)@.session,
            left(r, codes, old(self)@.scratch, final(self)@.scratch),
    {
        let ghost before = self@.scratch;
        wire::overlay(self.qr_scratch.as_mut_slice(), 4, &codes.bytes);
        if let Some(Halt::NoCode(message)) = codes.halt {
            return Err(message);
        }
        let mut slot: Vec<u8> = Vec::new();
        wire::push_u32_le(&mut slot, codes.produced);
        wire::overlay(self.qr_scratch.as_mut_slice(), 0, &slot);
        assert(slot@ =~= wire::le32(codes.produced));
        assert(self@.scratch =~= wire::overlaid(
            before,
            0,
            wire::le32(codes.produced) + codes.bytes@,
        ));
        Ok((codes.bytes.len() + 4) as u32)
    }

    /// The scratch buffer.
    pub fn qr_scratch_view(&self) -> (scratch: &[u8])
        ensures
            scratch@ == self@.scratch,
    {
        self.qr_scratch.as_slice()
    }

    /// The low 64 bits of the session id.
    pub fn session_id_lo(&self) -> (lo: u64)
        ensures
            lo == host::low_half(self@.session.session_id),
    {
        host::id_lo(self.inner.session_id())
    }

    /// The high 64 bits of the session id.
    pub fn session_id_hi(&self) -> (hi: u64)
        ensures
            hi == host::high_half(self@.session.session_id),
    {
        host::id_hi(self.inner.session_id())
    }

    /// Source symbols of the object.
    pub fn total_symbols(&self) -> (n: u32)
        requires
            self.wf(),
        ensures
            n == crate::raptorq_core::meta::total_symbols(self@.session.meta().blocks),
    {
        self.inner.total_k()
    }

    /// Source blocks of the object.
    pub fn num_blocks(&self) -> (n: u32)
        requires
            self.wf(),
        ensures
            n == self@.session.meta().blocks.len(),
    {
        proof {
            crate::raptorq_core::layout::lemma_block_count(
                self@.session.object.len(),
                crate::raptorq_core::layout::mtu_for(self@.session.size()),
            );
        }
        self.inner.num_blocks() as u32
    }

    /// Index of the segment, or 0 for a single object.
    pub fn segment_index(&self) -> (index: u32)
        ensures
            index == match self@.session.segment {
                Some(s) => s.segment_index,
                None => 0,
            },
    {
        match self.inner.segment_meta() {
            Some(s) => s.segment_index,
            None => 0,
        }
    }

    /// Number of segments, or 1 for a single object.
    pub fn segment_count(&self) -> (count: u32)
        ensures
            count == match self@.session.segment {
                Some(s) => s.segment_count,
                None => 1,
            },
    {
        match self.inner.segment_meta() {
            Some(s) => s.segment_count,
            None => 1,
        }
    }

    /// Whether the session is for a segment.
    pub fn is_segmented(&self) -> (segmented: bool)
        ensures
            segmented == (self@.session.segment is Some),
    {
        self.inner.segment_meta().is_some()
    }

    /// The statistics so far.
    pub fn stats(&self) -> (stats: Stats)
        ensures
            exists|now: u64|
                time::was_read(now) && stats@ == #[trigger] sender::stats_at(self@.session, now),
    {
        self.inner.stats()
    }
}

/// A receiver session in a browser. The browser decompresses with decoders of
/// its own, so it is given the payload as it was transmitted.
pub struct ReceiverSessionWasm {
    inner: ReceiverSession,
}

impl View for ReceiverSessionWasm {
    type V = ReceiverView;

    closed spec fn view(&self) -> ReceiverView {
        self.inner@
    }
}

/// The session that starts with the bytes of a descriptor frame, or why there is
/// none.
pub open spec fn is_from_descriptor(r: Result<ReceiverSessionWasm, String>, bytes: Seq<u8>) -> bool {
    let frame = FrameView::read(bytes);
    let after = ReceiverView::pending(frame.header.session_id).after_frame(
        frame.header,
        frame.payload,
    );
    match FrameView::read_error(bytes) {
        Some(e) => r matches Err(message) && message@ == Error::Protocol(e).text(),
        None => if frame.header.flags & FLAG_DESCRIPTOR == 0 {
            r matches Err(message) && message@
                == "from_descriptor: frame is not a descriptor (FLAG_DESCRIPTOR clear)"@
        } else if after.decoder is None {
            r matches Err(message) && message@
                == "from_descriptor: descriptor rejected (corrupt/hostile payload); meta not confirmed"@
        } else {
            r matches Ok(session) && session.wf() && session@ == after
        },
    }
}

impl ReceiverSessionWasm {
    /// The session is in a state that frames can bring about.
    pub closed spec fn inner_wf(self) -> bool {
        self.inner.wf()
    }

    /// The session is in a state that frames can bring about.
    pub open spec fn wf(self) -> bool {
        self.inner_wf() && self@.wf()
    }

    /// A session without metadata.
    pub fn new(session_id_lo: u64, session_id_hi: u64) -> (session: Self)
        ensures
            session.wf(),
            session@ == ReceiverView::pending(host::joined_id(session_id_lo, session_id_hi)),
    {
        ReceiverSessionWasm {
            inner: ReceiverSession::new_pending(host::join_id(session_id_lo, session_id_hi)),
        }
    }

    /// A session that starts with a descriptor frame, whose metadata it takes on
    /// at once.
    pub fn from_descriptor(frame_bytes: &[u8]) -> (r: Result<Self, String>)
        ensures
            is_from_descriptor(r, frame_bytes@),
    {
        let frame = match Frame::from_bytes(frame_bytes) {
            Ok(frame) => frame,
            Err(e) => {
                return Err(Error::Protocol(e).message());
            },
        };
        if frame.header.flags & FLAG_DESCRIPTOR == 0 {
            return Err(
                "from_descriptor: frame is not a descriptor (FLAG_DESCRIPTOR clear)".to_owned(),
            );
        }
        let mut inner = ReceiverSession::new_pending(frame.header.session_id);
        let _ = inner.ingest(frame);
        if !inner.is_meta_confirmed() {
            return Err(
                "from_descriptor: descriptor rejected (corrupt/hostile payload); meta not confirmed".to_owned(),
            );
        }
        Ok(ReceiverSessionWasm { inner })
    }

    /// Take in the bytes of a decoded QR code and tell the status.
    pub fn ingest(&mut self, frame_bytes: &[u8]) -> (status: u64)
        requires
            old(self).wf(),
            host::can_take(old(self)@, frame_bytes@),
        ensures
            final(self).wf(),
            final(self)@ == host::after_bytes(old(self)@, frame_bytes@),
            status == host::status_of(old(self)@, final(self)@, frame_bytes@),
    {
        host::ingest_bytes(&mut self.inner, frame_bytes)
    }

    /// Whether the counter that a frame of the session `session_id` goes to has
    /// room for it.
    pub fn has_room(&self, session_id: SessionIdRaw) -> (room: bool)
        ensures
            room == self@.can_count(session_id),
    {
        self.inner.has_room(session_id)
    }

    /// How far the session is.
    pub fn progress(&self) -> (progress: Progress)
        requires
            self.wf(),
        ensures
            progress == self@.progress(),
    {
        self.inner.progress()
    }

    /// Whether every block is reconstructed.
    pub fn is_complete(&self) -> (complete: bool)
        ensures
            complete == self@.complete(),
    {
        self.inner.is_complete()
    }

    /// The low 64 bits of the session id.
    pub fn session_id_lo(&self) -> (lo: u64)
        ensures
            lo == host::low_half(self@.session_id),
    {
        host::id_lo(self.inner.session_id())
    }

    /// The high 64 bits of the session id.
    pub fn session_id_hi(&self) -> (hi: u64)
        ensures
            hi == host::high_half(self@.session_id),
    {
        host::id_hi(self.inner.session_id())
    }

    /// File name, empty until a descriptor tells it.
    pub fn file_name(&self) -> (name: String)
        ensures
            name@ == self@.file.filename,
    {
        self.inner.file_meta().filename.clone()
    }

    /// Size of the original file, zero until a descriptor tells it.
    pub fn original_size(&self) -> (size: u64)
        ensures
            size == self@.file.original_size,
    {
        self.inner.file_meta().original_size
    }

    /// Size of the transmitted payload, zero until it is known.
    pub fn compressed_size(&self) -> (size: u64)
        ensures
            size == self@.file.compressed_size,
    {
        self.inner.file_meta().compressed_size
    }

    /// Whether the size of the transmitted payload is known.
    pub fn compressed_size_known(&self) -> (known: bool)
        ensures
            known == self@.file.compressed_size_known,
    {
        self.inner.file_meta().compressed_size_known
    }

    /// Compression of the payload.
    pub fn compression(&self) -> (tag: u8)
        ensures
            tag == self@.file.compression,
    {
        self.inner.file_meta().compression
    }

    /// CRC-32 of the original file, zero until it is known.
    pub fn crc32(&self) -> (crc: u32)
        ensures
            crc == self@.file.crc32,
    {
        self.inner.file_meta().crc32
    }

    /// Whether the CRC-32 of the original file is known.
    pub fn crc32_known(&self) -> (known: bool)
        ensures
            known == self@.file.crc32_known,
    {
        self.inner.file_meta().crc32_known
    }

    /// Whether the object's metadata is known.
    pub fn meta_confirmed(&self) -> (confirmed: bool)
        ensures
            confirmed == (self@.decoder is Some),
    {
        self.inner.is_meta_confirmed()
    }

    /// Whether the object is a segment.
    pub fn is_segmented(&self) -> (segmented: bool)
        ensures
            segmented == (self@.segment is Some),
    {
        self.inner.segment_meta().is_some()
    }

    /// Index of the segment, or 0 for a single object.
    pub fn segment_index(&self) -> (index: u32)
        ensures
            index == match self@.segment {
                Some(s) => s.segment_index,
                None => 0,
            },
    {
        match self.inner.segment_meta() {
            Some(s) => s.segment_index,
            None => 0,
        }
    }

    /// Number of segments, or 1 for a single object.
    pub fn segment_count(&self) -> (count: u32)
        ensures
            count == match self@.segment {
                Some(s) => s.segment_count,
                None => 1,
            },
    {
        match self.inner.segment_meta() {
            Some(s) => s.segment_count,
            None => 1,
        }
    }

    /// Size of the whole compressed stream, or 0 for a single object.
    pub fn root_original_size(&self) -> (size: u64)
        ensures
            size == match self@.segment {
                Some(s) => s.root_original_size,
                None => 0,
            },
    {
        match self.inner.segment_meta() {
            Some(s) => s.root_original_size,
            None => 0,
        }
    }

    /// Offset of the segment in the compressed stream, or 0 for a single object.
    pub fn original_offset(&self) -> (offset: u64)
        ensures
            offset == match self@.segment {
                Some(s) => s.original_offset,
                None => 0,
            },
    {
        match self.inner.segment_meta() {
            Some(s) => s.original_offset,
            None => 0,
        }
    }

    /// The low 64 bits of the whole transfer's id, or 0 for a single object.
    pub fn root_session_id_lo(&self) -> (lo: u64)
        ensures
            lo == match self@.segment {
                Some(s) => host::low_half(s.root_session_id),
                None => 0,
            },
    {
        match self.inner.segment_meta() {
            Some(s) => host::id_lo(s.root_session_id),
            None => 0,
        }
    }

    /// The high 64 bits of the whole transfer's id, or 0 for a single object.
    pub fn root_session_id_hi(&self) -> (hi: u64)
        ensures
            hi == match self@.segment {
                Some(s) => host::high_half(s.root_session_id),
                None => 0,
            },
    {
        match self.inner.segment_meta() {
            Some(s) => host::id_hi(s.root_session_id),
            None => 0,
        }
    }

    /// SHA-256 of the segment, or nothing for a single object.
    pub fn raw_sha256(&self) -> (sha: Vec<u8>)
        ensures
            sha@ == match self@.segment {
                Some(s) => s.raw_sha256,
                None => Seq::empty(),
            },
    {
        match self.inner.segment_meta() {
            Some(s) => wire::copy_of(&s.raw_sha256),
            None => Vec::new(),
        }
    }

    /// SHA-256 of the whole original, or nothing for a single object.
    pub fn root_sha256(&self) -> (sha: Vec<u8>)
        ensures
            sha@ == match self@.segment {
                Some(s) => s.root_sha256,
                None => Seq::empty(),
            },
    {
        match self.inner.segment_meta() {
            Some(s) => wire::copy_of(&s.root_sha256),
            None => Vec::new(),
        }
    }

    /// The payload as it was transmitted, without padding, or nothing until it
    /// is complete.
    pub fn assemble_raw(&self) -> (payload: Vec<u8>)
        requires
            self.wf(),
        ensures
            payload@ == match host::trimmed_object(self@) {
                Some(bytes) => bytes,
                None => Seq::empty(),
            },
    {
        match host::assemble_trimmed(&self.inner) {
            Some(bytes) => bytes,
            None => Vec::new(),
        }
    }
}

} // verus!
