//! The symbol table: label names mapped to absolute image addresses, kept
//! in insertion order.  Lookup returns the first match; the parser rejects
//! a second definition of a name, so names are unique.

use vstd::prelude::*;
use crate::parser::{sym_contains, sym_lookup};

verus! {

/// One table entry.
#[derive(Debug, Clone, PartialEq, Eq)]
pub struct SymEntry {
    pub name: Vec<u8>,
    pub addr: usize,
}

/// The symbol table.
#[derive(Debug, Clone, PartialEq, Eq)]
pub struct SymbolTable {
    pub entries: Vec<SymEntry>,
}

impl View for SymbolTable {
    type V = Seq<(Seq<u8>, int)>;

    open spec fn view(&self) -> Seq<(Seq<u8>, int)> {
        Seq::new(self.entries@.len(), |i: int| (self.entries@[i].name@, self.entries@[i].addr as int))
    }
}

/// Whether two byte vectors hold the same bytes.
pub fn bytes_eq(a: &Vec<u8>, b: &Vec<u8>) -> (r: bool)
    ensures
        r == (a@ == b@),
{
    if a.len() != b.len() {
        return false;
    }
    let n = a.len();
    let mut k: usize = 0;
    while k < n
        invariant
            n == a@.len() == b@.len(),
            k <= n,
            forall|m: int| 0 <= m < k ==> a@[m] == b@[m],
        decreases n - k,
    {
        if a[k] != b[k] {
            return false;
        }
        k = k + 1;
    }
    proof {
        assert(a@ =~= b@);
    }
    true
}

impl SymbolTable {
    /// An empty table.
    pub fn new() -> (t: SymbolTable)
        ensures
            t@ == Seq::<(Seq<u8>, int)>::empty(),
    {
        let t = SymbolTable { entries: Vec::new() };
        proof {
            assert(t@ =~= Seq::<(Seq<u8>, int)>::empty());
        }
        t
    }

    /// The address of a name, if defined.
    pub fn get(&self, name: &Vec<u8>) -> (r: Option<usize>)
        ensures
            match r {
                Some(a) => sym_lookup(self@, name@) == Some(a as int),
                None => sym_lookup(self@, name@) == None::<int>,
            },
    {
        let n = self.entries.len();
        proof {
            assert(self@.skip(0) =~= self@);
        }
        let mut k: usize = 0;
        while k < n
            invariant
                n == self.entries@.len(),
                k <= n,
                sym_lookup(self@, name@) == sym_lookup(self@.skip(k as int), name@),
            decreases n - k,
        {
            proof {
                assert(self@.skip(k as int)[0] == self@[k as int]);
                assert(self@.skip(k as int).skip(1) =~= self@.skip(k + 1));
            }
            if bytes_eq(&self.entries[k].name, name) {
                return Some(self.entries[k].addr);
            }
            k = k + 1;
        }
        proof {
            assert(self@.skip(n as int) =~= Seq::<(Seq<u8>, int)>::empty());
        }
        None
    }

    /// Whether a name is defined.
    pub fn contains(&self, name: &Vec<u8>) -> (r: bool)
        ensures
            r == sym_contains(self@, name@),
    {
        match self.get(name) {
            Some(_) => true,
            None => false,
        }
    }

    /// Records a new name at an address.
    pub fn insert(&mut self, name: Vec<u8>, addr: usize)
        ensures
            final(self)@ == old(self)@.push((name@, addr as int)),
    {
        let ghost nv = name@;
        self.entries.push(SymEntry { name, addr });
        proof {
            assert(self@ =~= old(self)@.push((nv, addr as int)));
        }
    }
}

} // verus!
