//! RaptorQ symbols.
use crate::wire;
use vstd::prelude::*;

verus! {

/// Identity of a symbol within an object: its source block number and its
/// encoding symbol id. Source symbols have ids below K, repair symbols ids from
/// K on.
#[derive(Debug, Clone, Copy, PartialEq, Eq, Hash, Structural)]
pub struct SymbolId {
    pub sbn: u32,
    pub esi: u32,
}

impl SymbolId {
    pub fn new(sbn: u32, esi: u32) -> (id: Self)
        ensures
            id == (SymbolId { sbn, esi }),
    {
        SymbolId { sbn, esi }
    }
}

/// A symbol: its identity and its bytes.
#[derive(Debug, PartialEq, Eq)]
pub struct Symbol {
    pub id: SymbolId,
    pub data: Vec<u8>,
}

impl Clone for Symbol {
    fn clone(&self) -> (symbol: Self)
        ensures
            symbol.id == self.id,
            symbol.data@ == self.data@,
    {
        Symbol { id: self.id, data: wire::copy_of(&self.data) }
    }
}

impl Symbol {
    pub fn new(sbn: u32, esi: u32, data: Vec<u8>) -> (symbol: Self)
        ensures
            symbol.id == (SymbolId { sbn, esi }),
            symbol.data@ == data@,
    {
        Symbol { id: SymbolId::new(sbn, esi), data }
    }
}

} // verus!
