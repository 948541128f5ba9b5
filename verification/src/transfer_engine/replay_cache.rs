//! Symbols that arrive before the descriptor.
use crate::transfer_engine::resume;
use std::collections::HashSet;
use vstd::prelude::*;

verus! {

broadcast use vstd::std_specs::hash::group_hash_axioms;

/// Symbols by block and id, each once, in the order of their arrival.
pub struct ReplayCache {
    entries: Vec<(u32, u32, Vec<u8>)>,
    /// The keys of the entries.
    index: HashSet<u64>,
}

/// Block and id in one number.
pub open spec fn cache_key(sbn: u32, esi: u32) -> u64 {
    (sbn * 0x1_0000_0000 + esi) as u64
}

/// `entries` have a symbol of this block and id.
pub open spec fn holds(entries: Seq<(u32, u32, Seq<u8>)>, sbn: u32, esi: u32) -> bool {
    exists|i: int| 0 <= i < entries.len() && (#[trigger] entries[i]).0 == sbn && entries[i].1 == esi
}

/// No two of `entries` have the same block and id.
pub open spec fn distinct(entries: Seq<(u32, u32, Seq<u8>)>) -> bool {
    forall|i: int, j: int|
        0 <= i < j < entries.len() ==> !((#[trigger] entries[i]).0 == (#[trigger] entries[j]).0
            && entries[i].1 == entries[j].1)
}

impl View for ReplayCache {
    type V = Seq<(u32, u32, Seq<u8>)>;

    closed spec fn view(&self) -> Seq<(u32, u32, Seq<u8>)> {
        self.entries@.map_values(|s: (u32, u32, Vec<u8>)| resume::symbol_view(s))
    }
}

impl ReplayCache {
    /// The index has the keys of the entries and no others.
    pub closed spec fn inner_wf(self) -> bool {
        &&& forall|sbn: u32, esi: u32|
            #[trigger] self.index@.contains(cache_key(sbn, esi)) <==> holds(self@, sbn, esi)
    }

    /// The entries are distinct and indexed.
    pub open spec fn wf(self) -> bool {
        self.inner_wf() && distinct(self@)
    }

    /// A cache that holds nothing.
    pub fn new() -> (cache: Self)
        ensures
            cache.wf(),
            cache@ == Seq::<(u32, u32, Seq<u8>)>::empty(),
    {
        let cache = ReplayCache { entries: Vec::new(), index: HashSet::new() };
        assert(cache@ =~= Seq::<(u32, u32, Seq<u8>)>::empty());
        cache
    }

    /// Number of symbols held.
    pub fn len(&self) -> (n: usize)
        ensures
            n == self@.len(),
    {
        self.entries.len()
    }

    /// Whether a symbol of this block and id is held.
    pub fn contains(&self, sbn: u32, esi: u32) -> (held: bool)
        requires
            self.wf(),
        ensures
            held == holds(self@, sbn, esi),
    {
        let key: u64 = sbn as u64 * 0x1_0000_0000 + esi as u64;
        assert(key == cache_key(sbn, esi));
        self.index.contains(&key)
    }

    /// Hold one more symbol.
    pub fn insert(&mut self, sbn: u32, esi: u32, data: Vec<u8>)
        requires
            old(self).wf(),
            !holds(old(self)@, sbn, esi),
        ensures
            final(self).wf(),
            final(self)@ == old(self)@.push((sbn, esi, data@)),
    {
        let ghost before = self@;
        let key: u64 = sbn as u64 * 0x1_0000_0000 + esi as u64;
        assert(key == cache_key(sbn, esi));
        let ghost index = self.index@;
        self.index.insert(key);
        self.entries.push((sbn, esi, data));
        proof {
            let after = self@;
            assert(after =~= before.push((sbn, esi, data@)));
            assert forall|a: u32, b: u32|
                #[trigger] self.index@.contains(cache_key(a, b)) <==> holds(after, a, b) by {
                assert(self.index@ == index.insert(key));
                assert(index.contains(cache_key(a, b)) <==> holds(before, a, b));
                assert(cache_key(a, b) == key ==> a == sbn && b == esi);
                if holds(before, a, b) {
                    let i = choose|i: int|
                        0 <= i < before.len() && (#[trigger] before[i]).0 == a && before[i].1 == b;
                    assert(after[i] == before[i]);
                }
                if a == sbn && b == esi {
                    assert(after[before.len() as int].0 == a);
                }
                if holds(after, a, b) {
                    let i = choose|i: int|
                        0 <= i < after.len() && (#[trigger] after[i]).0 == a && after[i].1 == b;
                    if i < before.len() {
                        assert(before[i] == after[i]);
                    }
                }
            }
            assert forall|i: int, j: int| 0 <= i < j < after.len() implies !((
            #[trigger] after[i]).0 == (#[trigger] after[j]).0 && after[i].1 == after[j].1) by {
                assert(after[i] == before[i]);
                if j < before.len() {
                    assert(after[j] == before[j]);
                }
            }
        }
    }

    /// The symbols held.
    pub fn entries(&self) -> (entries: &Vec<(u32, u32, Vec<u8>)>)
        ensures
            entries@.map_values(|s: (u32, u32, Vec<u8>)| resume::symbol_view(s)) == self@,
    {
        &self.entries
    }

    /// Give up the symbols held, in the order of their arrival.
    pub fn into_entries(self) -> (entries: Vec<(u32, u32, Vec<u8>)>)
        ensures
            entries@.map_values(|s: (u32, u32, Vec<u8>)| resume::symbol_view(s)) == self@,
    {
        self.entries
    }
}

} // verus!
