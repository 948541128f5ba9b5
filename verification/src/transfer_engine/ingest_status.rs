//! The status word that hosts get for every frame.
//!
//! - bit 0: the object is complete
//! - bit 1: the frame brought a new symbol
//! - bits 8 to 23: frames of another session in a row, at most 65535
//! - bits 32 to 63: distinct symbols received
use vstd::prelude::*;

verus! {

/// The status of a frame that fails its checks: no flag, and a symbol count that
/// no session reaches.
pub const INGEST_ERROR: u64 = 0xFFFF_FFFF_0000_0000;

/// The streak as far as its field holds it.
pub open spec fn clamped_streak(streak: u32) -> u64 {
    if streak > 0xFFFF {
        0xFFFF
    } else {
        streak as u64
    }
}

/// The status word of its fields.
pub open spec fn packed(complete: bool, accepted: bool, streak: u32, received: u32) -> u64 {
    ((if complete {
        1int
    } else {
        0
    }) + (if accepted {
        2int
    } else {
        0
    }) + clamped_streak(streak) * 256 + received * 0x1_0000_0000) as u64
}

/// Pack a status word.
pub fn pack(
    complete: bool,
    accepted: bool,
    session_mismatch_streak: u32,
    received_symbols: u32,
) -> (status: u64)
    ensures
        status == packed(complete, accepted, session_mismatch_streak, received_symbols),
{
    let streak: u64 = if session_mismatch_streak > 0xFFFF {
        0xFFFF
    } else {
        session_mismatch_streak as u64
    };
    let complete_bit: u64 = if complete {
        1
    } else {
        0
    };
    let accepted_bit: u64 = if accepted {
        2
    } else {
        0
    };
    complete_bit + accepted_bit + streak * 256 + received_symbols as u64 * 0x1_0000_0000
}

/// A host reads every field back from its bits, and no status of a session that
/// received fewer than 2^32 - 1 symbols is the error status.
pub proof fn law_status_fields_read_back(
    complete: bool,
    accepted: bool,
    streak: u32,
    received: u32,
)
    ensures
        ({
            let status = packed(complete, accepted, streak, received);
            &&& status & 1 == if complete {
                1u64
            } else {
                0
            }
            &&& (status >> 1) & 1 == if accepted {
                1u64
            } else {
                0
            }
            &&& (status >> 8) & 0xFFFF == clamped_streak(streak)
            &&& status >> 32 == received
            &&& received < u32::MAX ==> status != INGEST_ERROR
        }),
{
    let status = packed(complete, accepted, streak, received);
    let c: u64 = if complete {
        1
    } else {
        0
    };
    let a: u64 = if accepted {
        1
    } else {
        0
    };
    let k = clamped_streak(streak);
    let r = received as u64;
    assert(status & 1 == c && (status >> 1) & 1 == a && (status >> 8) & 0xFFFF == k && status >> 32
        == r) by (bit_vector)
        requires
            status == c + a * 2 + k * 256 + r * 0x1_0000_0000,
            c <= 1,
            a <= 1,
            k <= 0xFFFF,
            r <= 0xFFFF_FFFF,
    ;
}

} // verus!
