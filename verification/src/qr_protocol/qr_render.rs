//! QR matrix rendering.
//!
//! Frame bytes are encoded in byte mode at error-correction level L into the
//! smallest QR version that holds them. A sparse code is far easier for a phone
//! camera to resolve than the densest one, and since the frame size is constant
//! within a session, every frame renders at the same version. One data mask is
//! fixed for all codes: a scanner reads the mask from the code itself.
use crate::qr_protocol::Error;
use fast_qr::Version::{
    V01, V02, V03, V04, V05, V06, V07, V08, V09, V10, V11, V12, V13, V14, V15, V16, V17,
    V18, V19, V20, V21, V22, V23, V24, V25, V26, V27, V28, V29, V30, V31, V32, V33, V34,
    V35, V36, V37, V38, V39, V40,
};
use vstd::prelude::*;

verus! {

/// Most bytes that a version-40 code at level L can carry.
pub const QR_MAX_BYTES: usize = 2953;

/// Byte-mode capacity of QR versions 1 to 40 at error-correction level L
/// (ISO/IEC 18004, table 7). Index `i` is the capacity of version `i + 1`.
pub const QR_BYTE_CAPACITY_L: [usize; 40] = [
    17, 32, 53, 78, 106, 134, 154, 192, 230, 271, 321, 367, 425, 458, 520, 586, 644, 718, 792, 858,
    929, 1003, 1091, 1171, 1273, 1367, 1465, 1528, 1628, 1732, 1840, 1952, 2068, 2188, 2303, 2431,
    2563, 2699, 2809, 2953,
];

/// Byte-mode capacity of QR version `version` at error-correction level L.
pub open spec fn capacity(version: int) -> int {
    QR_BYTE_CAPACITY_L@[version - 1] as int
}

/// `version` is the smallest QR version that holds `len` bytes.
pub open spec fn is_min_version(version: int, len: int) -> bool {
    &&& 1 <= version <= 40
    &&& len <= capacity(version)
    &&& forall|v: int| 1 <= v < version ==> #[trigger] capacity(v) < len
}

/// Modules per side of a QR version.
pub open spec fn side(version: int) -> int {
    17 + 4 * version
}

/// Smallest QR version whose byte-mode capacity at level L holds `len` bytes,
/// or `None` if even version 40 does not.
pub fn min_version_for(len: usize) -> (version: Option<u8>)
    ensures
        match version {
            Some(v) => len <= QR_MAX_BYTES && is_min_version(v as int, len as int),
            None => len > QR_MAX_BYTES,
        },
{
    let mut i: usize = 0;
    while i < 40
        invariant
            i <= 40,
            forall|v: int| 1 <= v <= i ==> #[trigger] capacity(v) < len,
        decreases 40 - i,
    {
        if QR_BYTE_CAPACITY_L[i] >= len {
            assert(capacity(i + 1) >= len);
            return Some((i + 1) as u8);
        }
        i = i + 1;
    }
    assert(capacity(40) < len);
    None
}

/// Frames of one length all render at one version.
pub proof fn law_same_length_same_version(v: int, w: int, len: int)
    requires
        is_min_version(v, len),
        is_min_version(w, len),
    ensures
        v == w,
{
    if v < w {
        assert(capacity(v) < len);
    } else if w < v {
        assert(capacity(w) < len);
    }
}

/// A rendered QR code: its modules row by row, and its side length.
#[derive(Debug)]
pub struct QrMatrix {
    /// `true` is a dark module.
    pub modules: Vec<bool>,
    /// Modules per side.
    pub size: usize,
}

impl Clone for QrMatrix {
    fn clone(&self) -> (matrix: Self)
        ensures
            matrix.modules@ == self.modules@,
            matrix.size == self.size,
    {
        let mut modules: Vec<bool> = Vec::new();
        modules.extend_from_slice(&self.modules);
        assert(modules@ =~= self.modules@);
        QrMatrix { modules, size: self.size }
    }
}

impl QrMatrix {
    /// The module in column `x` of row `y`.
    pub fn get(&self, x: usize, y: usize) -> (dark: bool)
        requires
            y * self.size + x < self.modules@.len(),
        ensures
            dark == self.modules@[y * self.size + x],
    {
        assert(0 <= y * self.size) by (nonlinear_arith);
        assert(self.modules.len() <= usize::MAX);
        self.modules[y * self.size + x]
    }
}

/// `fast_qr::Version`, a QR version.
#[verifier::external_type_specification]
#[verifier::external_body]
pub struct ExVersion(fast_qr::Version);

/// The number of a QR version, from 1 to 40.
pub uninterp spec fn version_number(version: fast_qr::Version) -> int;

/// The variants of `fast_qr::Version` in the order of their numbers.
#[verifier::external_body]
fn qr_version(index: usize) -> (version: fast_qr::Version)
    requires
        index < 40,
    ensures
        version_number(version) == index + 1,
{
    [
        V01, V02, V03, V04, V05, V06, V07, V08, V09, V10, V11, V12, V13, V14,
        V15, V16, V17, V18, V19, V20, V21, V22, V23, V24, V25, V26, V27, V28,
        V29, V30, V31, V32, V33, V34, V35, V36, V37, V38, V39, V40,
    ][index]
}

/// The modules that the generator lays out for `data` at a QR version, in byte
/// mode, at level L and with mask 0. Only the leading `side * side` modules
/// belong to the code.
pub uninterp spec fn qr_modules(data: Seq<u8>, version: int) -> Seq<bool>;

/// `fast_qr::QRBuilder::build` in byte mode, at level L and with mask 0. It
/// accepts a version exactly where its capacity holds the data, and gives the
/// side length and the modules, of which there are as many as in the largest
/// code.
#[verifier::external_body]
fn build_qr(data: &[u8], version: fast_qr::Version) -> (code: Option<(usize, Vec<bool>)>)
    requires
        1 <= version_number(version) <= 40,
    ensures
        code is Some <==> data@.len() <= capacity(version_number(version)),
        code matches Some((size, modules)) ==> size == side(version_number(version)) && modules@
            == qr_modules(data@, version_number(version)) && modules@.len() == 177 * 177,
{
    let mut builder = fast_qr::QRBuilder::new(data);
    builder.mode(fast_qr::Mode::Byte).ecl(fast_qr::ECL::L).version(version);
    match builder.mask(fast_qr::Mask::Checkerboard).build() {
        Ok(code) => Some((code.size, code.data.iter().map(|m| m.value()).collect())),
        Err(_) => None,
    }
}

/// The smallest QR version that holds `len` bytes.
pub open spec fn version_for(len: int) -> int {
    choose|version: int| is_min_version(version, len)
}

/// The modules of the QR code of `data`, row by row.
pub open spec fn rendered(data: Seq<u8>) -> Seq<bool> {
    let version = version_for(data.len() as int);
    qr_modules(data, version).take(side(version) * side(version))
}

/// Encode `data` into the smallest QR version at level L that holds it.
///
/// Starts at the version that the capacity table suggests and walks up to
/// version 40 where the generator refuses one.
pub fn encode(data: &[u8]) -> (r: Result<QrMatrix, Error>)
    ensures
        match r {
            Ok(matrix) => {
                &&& data@.len() <= QR_MAX_BYTES
                &&& is_min_version(version_for(data@.len() as int), data@.len() as int)
                &&& matrix.size == side(version_for(data@.len() as int))
                &&& matrix.modules@ == rendered(data@)
                &&& matrix.modules@.len() == matrix.size * matrix.size
            },
            Err(e) => data@.len() > QR_MAX_BYTES && e == (Error::BufferTooShort {
                need: QR_MAX_BYTES,
                have: data@.len() as usize,
            }),
        },
{
    let start: u8 = match min_version_for(data.len()) {
        Some(v) => v,
        None => {
            return Err(Error::BufferTooShort { need: QR_MAX_BYTES, have: data.len() });
        },
    };
    proof {
        law_same_length_same_version(
            start as int,
            version_for(data@.len() as int),
            data@.len() as int,
        );
    }
    let mut v: u8 = start;
    while v <= 40
        invariant
            1 <= v <= 41,
            data@.len() <= QR_MAX_BYTES,
            is_min_version(start as int, data@.len() as int),
            start == version_for(data@.len() as int),
            v == start,
        decreases 41 - v,
    {
        let version = qr_version((v - 1) as usize);
        match build_qr(data, version) {
            Some((size, mut modules)) => {
                assert(size * size <= 177 * 177) by (nonlinear_arith)
                    requires
                        size <= 177,
                ;
                modules.truncate(size * size);
                return Ok(QrMatrix { modules, size });
            },
            None => {
                v = v + 1;
            },
        }
    }
    Err(Error::BufferTooShort { need: QR_MAX_BYTES, have: data.len() })
}

} // verus!
