//! String interning: repeated strings collapse to cheap symbols.
//!
//! Two strings with the same hash share a symbol, so the interner
//! deduplicates by hash value.

use vstd::prelude::*;
use std::collections::HashMap;
use crate::hash::fx_hash_of;
use crate::hash::fx_hash_str;

verus! {

/// An interned string symbol: cheap to copy and compare.
#[derive(Debug, Clone, Copy, PartialEq, Eq, Hash)]
pub struct Symbol(pub u32);

impl Symbol {
    /// The symbol's index into the interner's string table.
    pub fn index(self) -> (r: u32)
        ensures
            r == self.0,
    {
        self.0
    }
}

/// A string interner: a table of interned strings, with a hash-keyed map
/// from string hash to symbol.
pub struct StringInterner {
    strings: Vec<String>,
    map: HashMap<u64, Symbol>,
}

impl StringInterner {
    /// Every mapped symbol points into the string table.
    pub closed spec fn wf(self) -> bool {
        &&& forall|h: u64|
            self.map@.contains_key(h) ==> ((#[trigger] self.map@[h]).0 as int)
                < self.strings@.len()
        &&& self.strings@.len() <= u32::MAX
    }

    /// The interned strings, as character sequences.
    pub closed spec fn table(self) -> Seq<Seq<char>> {
        self.strings@.map_values(|x: String| x@)
    }

    /// The hash-to-symbol view.
    pub closed spec fn symbols(self) -> Map<u64, Symbol> {
        self.map@
    }

    /// Create a new string interner.
    pub fn new() -> (r: Self)
        ensures
            r.wf(),
            r.table().len() == 0,
            r.symbols() == Map::<u64, Symbol>::empty(),
    {
        StringInterner { strings: Vec::with_capacity(64), map: HashMap::new() }
    }

    /// Create a new string interner with pre-allocated capacity.
    pub fn with_capacity(capacity: usize) -> (r: Self)
        ensures
            r.wf(),
            r.table().len() == 0,
            r.symbols() == Map::<u64, Symbol>::empty(),
    {
        StringInterner { strings: Vec::with_capacity(capacity), map: HashMap::new() }
    }

    /// Intern a string: hand back the symbol already mapped to its hash, or
    /// append the string to the table under a fresh symbol.
    pub fn intern(&mut self, s: &str) -> (r: Symbol)
        requires
            old(self).wf(),
            old(self).table().len() < u32::MAX,
        ensures
            final (self).wf(),
            final (self).symbols() == old(self).symbols().insert(fx_hash_of(s@), r),
            old(self).symbols().contains_key(fx_hash_of(s@)) ==> *final (self) == *old(self) && r
                == old(self).symbols()[fx_hash_of(s@)],
            !old(self).symbols().contains_key(fx_hash_of(s@)) ==> final (self).table() == old(
                self,
            ).table().push(s@) && r.0 as int == old(self).table().len(),
            (r.0 as int) < final (self).table().len(),
            final (self).table()[r.0 as int] == s@ || old(self).symbols().contains_key(
                fx_hash_of(s@),
            ),
    {
        let hash = fx_hash_str(s);
        match self.map.get(&hash) {
            Some(symbol) => {
                let sym = *symbol;
                proof {
                    assert(self.symbols() =~= self.symbols().insert(fx_hash_of(s@), sym));
                }
                sym
            },
            None => {
                let index = self.strings.len() as u32;
                let owned: String = s.to_owned();
                self.strings.push(owned);
                let symbol = Symbol(index);
                self.map.insert(hash, symbol);
                proof {
                    assert(self.table() =~= old(self).table().push(s@));
                }
                symbol
            },
        }
    }

    /// The string for a symbol, if the symbol is in range.
    pub fn get(&self, symbol: Symbol) -> (r: Option<String>)
        ensures
            match r {
                Some(x) => (symbol.0 as int) < self.table().len() && x@ == self.table()[(
                symbol.0) as int],
                None => (symbol.0 as int) >= self.table().len(),
            },
    {
        let i = symbol.0 as usize;
        if i < self.strings.len() {
            Some(self.strings[i].clone())
        } else {
            None
        }
    }

    /// The string slice for a symbol, if the symbol is in range.
    pub fn get_str(&self, symbol: Symbol) -> (r: Option<&str>)
        ensures
            match r {
                Some(x) => (symbol.0 as int) < self.table().len() && x@ == self.table()[(
                symbol.0) as int],
                None => (symbol.0 as int) >= self.table().len(),
            },
    {
        let i = symbol.0 as usize;
        if i < self.strings.len() {
            Some(self.strings[i].as_str())
        } else {
            None
        }
    }

    /// Number of interned strings.
    pub fn len(&self) -> (r: usize)
        ensures
            r == self.table().len(),
    {
        self.strings.len()
    }

    /// Whether the interner holds no strings.
    pub fn is_empty(&self) -> (r: bool)
        ensures
            r == (self.table().len() == 0),
    {
        self.strings.is_empty()
    }

    /// Clear all interned strings.
    pub fn clear(&mut self)
        ensures
            final (self).wf(),
            final (self).table().len() == 0,
            final (self).symbols() == Map::<u64, Symbol>::empty(),
    {
        self.strings.clear();
        self.map.clear();
        proof {
            assert(self.table() =~= Seq::<Seq<char>>::empty());
        }
    }
}

impl Default for StringInterner {
    /// A fresh, empty interner.
    fn default() -> (r: Self)
        ensures
            r.wf(),
            r.table().len() == 0,
            r.symbols() == Map::<u64, Symbol>::empty(),
    {
        Self::new()
    }
}

/// Intern a batch of strings, returning one symbol per input in order.
pub fn intern_batch(interner: &mut StringInterner, strings: &[&str]) -> (r: Vec<Symbol>)
    requires
        old(interner).wf(),
        old(interner).table().len() + strings@.len() < u32::MAX,
    ensures
        final (interner).wf(),
        r@.len() == strings@.len(),
        forall|i: int|
            0 <= i < strings@.len() ==> final (interner).symbols().contains_key(
                fx_hash_of((#[trigger] strings@[i])@),
            ),
        forall|i: int|
            0 <= i < strings@.len() ==> r@[i] == final (interner).symbols()[fx_hash_of(
                (#[trigger] strings@[i])@,
            )],
        forall|i: int|
            0 <= i < r@.len() ==> ((#[trigger] r@[i]).0 as int) < final (interner).table().len(),
{
    let n = strings.len();
    let mut out: Vec<Symbol> = Vec::new();
    for i in 0..n
        invariant
            n == strings@.len(),
            interner.wf(),
            interner.table().len() + (n - i) < u32::MAX,
            out@.len() == i,
            forall|j: int|
                0 <= j < i ==> interner.symbols().contains_key(
                    fx_hash_of((#[trigger] strings@[j])@),
                ),
            forall|j: int|
                0 <= j < i ==> out@[j] == interner.symbols()[fx_hash_of(
                    (#[trigger] strings@[j])@,
                )],
            forall|j: int|
                0 <= j < i ==> ((#[trigger] out@[j]).0 as int) < interner.table().len(),
    {
        let ghost pre = interner.symbols();
        let sym = interner.intern(strings[i]);
        out.push(sym);
        proof {
            assert(interner.symbols().contains_key(fx_hash_of(strings@[i as int]@)));
            let h = fx_hash_of(strings@[i as int]@);
            assert(interner.symbols()[h] == sym);
            assert forall|j: int| 0 <= j < i + 1 implies out@[j] == interner.symbols()[fx_hash_of(
                (#[trigger] strings@[j])@,
            )] by {
                if j < i as int {
                    let hj = fx_hash_of(strings@[j]@);
                    if hj == h {
                        assert(pre.contains_key(h));
                        assert(sym == pre[h]);
                    }
                    assert(interner.symbols() == pre.insert(h, sym));
                }
            }
        }
    }
    out
}

} // verus!
