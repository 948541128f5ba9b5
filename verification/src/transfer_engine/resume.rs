//! Resume state.
//!
//! A receiver can persist its progress, so that it recognises the same session
//! after a restart. The codec's state is rebuilt by feeding saved symbols into
//! a fresh decoder: a symbol id without its bytes is not replayable and must not
//! suppress a retransmission.
use crate::qr_protocol::frame::SessionIdRaw;
use crate::raptorq_core::codec;
use crate::raptorq_core::meta::MetaView;
use crate::raptorq_core::{ObjectMeta, MAX_OBJECT_BYTES};
use std::collections::HashSet;
use vstd::prelude::*;

verus! {

broadcast use vstd::std_specs::hash::group_hash_axioms;

/// Ceiling on the serialized form of a resume state.
pub const MAX_RESUME_JSON_BYTES: usize = 128 * 1024 * 1024;

/// Most symbol records in a resume state.
pub const MAX_RESUME_SYMBOLS: u64 = 1_048_576;

/// Receiver state that can be persisted.
#[derive(Debug, Clone)]
pub struct ResumeState {
    pub session_id: SessionIdRaw,
    pub meta: ObjectMeta,
    /// Per block, the ids of the symbols that can be replayed. Ids without a
    /// matching item in `symbols` are ignored.
    pub received: Vec<HashSet<u32>>,
    /// Stored symbols: block, id and bytes.
    pub symbols: Vec<(u32, u32, Vec<u8>)>,
}

/// What a [`ResumeState`] stands for.
#[verifier::ext_equal]
pub struct ResumeView {
    pub session_id: SessionIdRaw,
    pub meta: MetaView,
    pub received: Seq<Set<u32>>,
    pub symbols: Seq<(u32, u32, Seq<u8>)>,
}

/// What a stored symbol stands for.
pub open spec fn symbol_view(s: (u32, u32, Vec<u8>)) -> (u32, u32, Seq<u8>) {
    (s.0, s.1, s.2@)
}

impl View for ResumeState {
    type V = ResumeView;

    open spec fn view(&self) -> ResumeView {
        ResumeView {
            session_id: self.session_id,
            meta: self.meta@,
            received: self.received@.map_values(|s: HashSet<u32>| s@),
            symbols: self.symbols@.map_values(|s: (u32, u32, Vec<u8>)| symbol_view(s)),
        }
    }
}

/// Ids in all of `sets`.
pub open spec fn total_ids(sets: Seq<Set<u32>>) -> nat
    decreases sets.len(),
{
    if sets.len() == 0 {
        0
    } else {
        total_ids(sets.drop_last()) + sets.last().len()
    }
}

/// Every id in `set` fits in 24 bits.
pub open spec fn small_ids(set: Set<u32>) -> bool {
    forall|esi: u32| #[trigger] set.contains(esi) ==> esi < codec::ESI_LIMIT
}

impl ResumeView {
    /// Ceiling on the bytes of the stored symbols.
    pub open spec fn byte_budget(self) -> int {
        MAX_OBJECT_BYTES * 2 + self.meta.symbol_size * self.meta.blocks.len()
    }

    /// The id sets are within the budget.
    pub open spec fn received_ok(self) -> bool {
        &&& total_ids(self.received) <= MAX_RESUME_SYMBOLS
        &&& forall|i: int| 0 <= i < self.received.len() ==> small_ids(#[trigger] self.received[i])
    }

    /// Stored symbol `i` has coordinates and a size of the object.
    pub open spec fn symbol_ok(self, i: int) -> bool {
        &&& self.symbols[i].0 < self.meta.blocks.len()
        &&& self.symbols[i].1 < codec::ESI_LIMIT
        &&& self.symbols[i].2.len() == self.meta.symbol_size
    }

    /// A state that a receiver may be restored from.
    pub open spec fn valid(self) -> bool {
        &&& self.meta.valid()
        &&& self.received.len() <= self.meta.blocks.len()
        &&& self.received_ok()
        &&& self.symbols.len() <= MAX_RESUME_SYMBOLS
        &&& self.symbols.len() * self.meta.symbol_size <= self.byte_budget()
        &&& forall|i: int| 0 <= i < self.symbols.len() ==> #[trigger] self.symbol_ok(i)
    }

    /// Why the stored symbols are rejected from symbol `i` on, if they are.
    pub open spec fn symbol_rejection(self, i: int) -> Option<Seq<char>>
        decreases self.symbols.len() - i,
    {
        if i < 0 || i >= self.symbols.len() {
            None
        } else if self.symbols[i].0 >= self.meta.blocks.len() || self.symbols[i].1
            >= codec::ESI_LIMIT {
            Some("stored resume symbol coordinate out of range"@)
        } else if self.symbols[i].2.len() != self.meta.symbol_size {
            Some("stored resume symbol has wrong size"@)
        } else if (i + 1) * self.meta.symbol_size > self.byte_budget() {
            Some("stored resume symbols exceed byte budget"@)
        } else {
            self.symbol_rejection(i + 1)
        }
    }

    /// Why the state is rejected, if it is: the first of the checks, in their
    /// order, that fails.
    pub open spec fn rejection(self) -> Option<Seq<char>> {
        if self.meta.rejection() is Some {
            self.meta.rejection()
        } else if self.received.len() > self.meta.blocks.len() {
            Some("too many received block sets"@)
        } else if !self.received_ok() {
            Some("received ESI set exceeds resume budget"@)
        } else if self.symbols.len() > MAX_RESUME_SYMBOLS {
            Some("too many stored resume symbols"@)
        } else {
            self.symbol_rejection(0)
        }
    }
}

/// A state is valid exactly where its metadata is, its id sets and its symbols are
/// of the object's blocks, ids have 24 bits, symbols have the object's size, and
/// there are no more than twice as many as an object may have.
pub proof fn law_state_is_valid_exactly(v: ResumeView)
    ensures
        v.valid() <==> {
            &&& v.meta.valid()
            &&& v.received.len() <= v.meta.blocks.len()
            &&& total_ids(v.received) <= 1_048_576
            &&& forall|i: int, esi: u32|
                0 <= i < v.received.len() && #[trigger] v.received[i].contains(esi) ==> esi
                    < 0x100_0000
            &&& v.symbols.len() <= 1_048_576
            &&& v.symbols.len() * v.meta.symbol_size <= 67_108_864 + v.meta.symbol_size
                * v.meta.blocks.len()
            &&& forall|i: int|
                0 <= i < v.symbols.len() ==> (#[trigger] v.symbols[i]).0 < v.meta.blocks.len()
                    && v.symbols[i].1 < 0x100_0000 && v.symbols[i].2.len() == v.meta.symbol_size
        },
{
    if v.valid() {
        assert forall|i: int, esi: u32|
            0 <= i < v.received.len() && #[trigger] v.received[i].contains(esi) implies esi
            < 0x100_0000 by {
            assert(small_ids(v.received[i]));
        }
        assert forall|i: int| 0 <= i < v.symbols.len() implies (#[trigger] v.symbols[i]).0
            < v.meta.blocks.len() && v.symbols[i].1 < 0x100_0000 && v.symbols[i].2.len()
            == v.meta.symbol_size by {
            assert(v.symbol_ok(i));
        }
    }
}

/// Ids are counted set by set.
pub proof fn law_ids_add_up(sets: Seq<Set<u32>>, set: Set<u32>)
    ensures
        total_ids(Seq::<Set<u32>>::empty()) == 0,
        total_ids(sets.push(set)) == total_ids(sets) + set.len(),
{
    assert(sets.push(set).drop_last() =~= sets);
}

/// A set of 32-bit ids has at most 2^32 of them.
pub proof fn lemma_id_set_len(set: Set<u32>)
    ensures
        set.finite(),
        set.len() <= 0x1_0000_0000,
{
    let range = vstd::set_lib::set_int_range(0, 0x1_0000_0000);
    vstd::set_lib::lemma_int_range(0, 0x1_0000_0000);
    let ints = set.map(|id: u32| id as int);
    assert(ints.subset_of(range));
    vstd::set_lib::lemma_len_subset(ints, range);
    let back = ints.map(|i: int| i as u32);
    assert(back =~= set) by {
        assert forall|id: u32| set.contains(id) implies #[trigger] back.contains(id) by {
            assert(ints.contains(id as int));
            assert((id as int) as u32 == id);
        }
        assert forall|id: u32| #[trigger] back.contains(id) implies set.contains(id) by {
            let i = choose|i: int| ints.contains(i) && i as u32 == id;
            let orig = choose|x: u32| set.contains(x) && x as int == i;
            assert(orig == id);
        }
    }
    ints.lemma_map_finite(|i: int| i as u32);
    vstd::set_lib::lemma_map_size_bound(ints, back, |i: int| i as u32);
}

/// Whether every id in `set` fits in 24 bits.
fn all_small(set: &HashSet<u32>) -> (small: bool)
    ensures
        small == small_ids(set@),
{
    let mut small: bool = true;
    let ghost mut seen: Seq<u32> = Seq::empty();
    for esi in it: set.iter()
        invariant
            it.seq().unref().to_set() == set@,
            seen == it.seq().unref().take(it.index() as int),
            it.index() == it.seq().len() ==> seen.to_set() == set@,
            small == forall|i: int| 0 <= i < seen.len() ==> #[trigger] seen[i] < codec::ESI_LIMIT,
    {
        proof {
            let before = seen;
            seen = seen.push(*esi);
            assert(seen =~= it.seq().unref().take(it.index() + 1));
            assert(it.seq().unref().take(it.seq().len() as int) =~= it.seq().unref());
            assert forall|i: int| 0 <= i < before.len() implies before[i] == #[trigger] seen[i] by {}
            assert(seen[before.len() as int] == *esi);
        }
        if *esi >= codec::ESI_LIMIT {
            small = false;
        }
    }
    proof {
        assert forall|id: u32| #[trigger] set@.contains(id) implies seen.contains(id) by {}
        assert forall|i: int| 0 <= i < seen.len() implies set@.contains(#[trigger] seen[i]) by {
            assert(seen.to_set().contains(seen[i]));
        }
    }
    small
}

/// The first sets have no more ids than all of them.
proof fn lemma_total_ids_prefix(sets: Seq<Set<u32>>, n: int)
    requires
        0 <= n <= sets.len(),
    ensures
        total_ids(sets.take(n)) <= total_ids(sets),
    decreases sets.len(),
{
    if n == sets.len() {
        assert(sets.take(n) =~= sets);
    } else {
        lemma_total_ids_prefix(sets.drop_last(), n);
        assert(sets.drop_last().take(n) =~= sets.take(n));
    }
}

/// The stored symbols pass from symbol `i` on exactly where each is of the
/// object and the last one stays within the byte budget.
proof fn lemma_symbol_rejection(s: ResumeView, i: int)
    requires
        0 <= i <= s.symbols.len(),
        i * s.meta.symbol_size <= s.byte_budget(),
    ensures
        s.symbol_rejection(i) is None <==> s.symbols.len() * s.meta.symbol_size <= s.byte_budget()
            && forall|j: int| i <= j < s.symbols.len() ==> #[trigger] s.symbol_ok(j),
    decreases s.symbols.len() - i,
{
    let t = s.meta.symbol_size as int;
    let n = s.symbols.len() as int;
    if i < n {
        if (i + 1) * t <= s.byte_budget() {
            lemma_symbol_rejection(s, i + 1);
            if s.symbol_ok(i) {
                assert(s.symbol_rejection(i) == s.symbol_rejection(i + 1));
            }
        } else {
            assert((i + 1) * t <= n * t) by (nonlinear_arith)
                requires
                    i + 1 <= n,
                    t >= 0,
            ;
            assert(s.symbol_rejection(i) is Some);
        }
        if s.symbol_rejection(i) is None {
            assert(s.symbol_ok(i));
        }
    }
}

impl ResumeState {
    /// Check the id sets against the budget.
    fn check_received(&self) -> (ok: bool)
        requires
            self.received@.len() <= u8::MAX,
        ensures
            ok == self@.received_ok(),
    {
        let mut received_count: u64 = 0;
        let mut i: usize = 0;
        while i < self.received.len()
            invariant
                i <= self.received@.len() <= u8::MAX,
                received_count == total_ids(self@.received.take(i as int)),
                received_count <= MAX_RESUME_SYMBOLS,
                forall|j: int| 0 <= j < i ==> small_ids(#[trigger] self@.received[j]),
            decreases self.received@.len() - i,
        {
            let set = &self.received[i];
            proof {
                assert(self@.received[i as int] == set@);
                lemma_id_set_len(set@);
                assert(self@.received.take(i + 1).drop_last() =~= self@.received.take(i as int));
                assert(self@.received.take(i + 1).last() == set@);
                lemma_total_ids_prefix(self@.received, i + 1);
            }
            received_count = received_count + set.len() as u64;
            if received_count > MAX_RESUME_SYMBOLS || !all_small(set) {
                return false;
            }
            i = i + 1;
        }
        assert(self@.received.take(i as int) =~= self@.received);
        true
    }

    /// Check the stored symbols.
    fn check_symbols(&self) -> (r: Result<(), &'static str>)
        requires
            self@.meta.valid(),
            self.symbols@.len() <= MAX_RESUME_SYMBOLS,
        ensures
            r is Ok <==> self@.symbol_rejection(0) is None,
            r matches Err(reason) ==> self@.symbol_rejection(0) == Some(reason@),
    {
        let t: u64 = self.meta.symbol_size as u64;
        let blocks: usize = self.meta.blocks.len();
        assert(t * blocks <= 65_528 * 255) by (nonlinear_arith)
            requires
                t <= 65_528,
                blocks <= 255,
        ;
        let max_symbol_bytes: u64 = MAX_OBJECT_BYTES * 2 + t * blocks as u64;
        let mut symbol_bytes: u64 = 0;
        let mut i: usize = 0;
        assert(0 * t == 0) by (nonlinear_arith);
        while i < self.symbols.len()
            invariant
                i <= self.symbols@.len() <= MAX_RESUME_SYMBOLS,
                blocks == self.meta.blocks@.len(),
                t == self.meta.symbol_size <= 65_528,
                max_symbol_bytes == self@.byte_budget(),
                symbol_bytes == i * t <= max_symbol_bytes <= 0x1000_0000,
                self@.symbol_rejection(0) == self@.symbol_rejection(i as int),
            decreases self.symbols@.len() - i,
        {
            assert(self@.symbols[i as int] == symbol_view(self.symbols@[i as int]));
            let s = &self.symbols[i];
            if s.0 as usize >= blocks || s.1 >= codec::ESI_LIMIT {
                return Err("stored resume symbol coordinate out of range");
            }
            if s.2.len() != self.meta.symbol_size as usize {
                return Err("stored resume symbol has wrong size");
            }
            assert((i + 1) * t == i * t + t) by (nonlinear_arith);
            symbol_bytes = symbol_bytes + s.2.len() as u64;
            if symbol_bytes > max_symbol_bytes {
                return Err("stored resume symbols exceed byte budget");
            }
            i = i + 1;
        }
        Ok(())
    }

    /// Validate a state before a receiver is restored from it, whatever format
    /// it came in.
    pub fn validate(&self) -> (r: Result<(), &'static str>)
        ensures
            r is Ok <==> self@.valid(),
            match r {
                Ok(_) => self@.rejection() is None,
                Err(reason) => self@.rejection() == Some(reason@),
            },
    {
        match self.meta.validate() {
            Ok(_) => {},
            Err(reason) => {
                return Err(reason);
            },
        }
        if self.received.len() > self.meta.blocks.len() {
            return Err("too many received block sets");
        }
        if !self.check_received() {
            return Err("received ESI set exceeds resume budget");
        }
        if self.symbols.len() as u64 > MAX_RESUME_SYMBOLS {
            return Err("too many stored resume symbols");
        }
        proof {
            assert(0 * self.meta.symbol_size == 0) by (nonlinear_arith);
            assert(0 <= self.meta.symbol_size * self.meta.blocks@.len()) by (nonlinear_arith);
            lemma_symbol_rejection(self@, 0);
        }
        self.check_symbols()
    }
}

/// Whether `more` bytes may follow `have` bytes of a serialized state, and how
/// many there are then.
pub fn admit_json_bytes(have: usize, more: usize) -> (r: Result<usize, &'static str>)
    ensures
        match r {
            Ok(total) => total == have + more && total <= MAX_RESUME_JSON_BYTES,
            Err(reason) => have + more > MAX_RESUME_JSON_BYTES && reason@ == if have + more
                > usize::MAX {
                "resume JSON size overflow"@
            } else {
                "resume JSON exceeds local byte budget"@
            },
        },
{
    match have.checked_add(more) {
        None => Err("resume JSON size overflow"),
        Some(total) => if total > MAX_RESUME_JSON_BYTES {
            Err("resume JSON exceeds local byte budget")
        } else {
            Ok(total)
        },
    }
}

} // verus!
