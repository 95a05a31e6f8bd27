//! Append-only interning of names into integer ids.
use vstd::prelude::*;

verus! {

/// Bidirectional interning table: the id of a name is its position.
#[derive(Clone, Debug)]
pub struct SymbolTable {
    pub symbols: Vec<String>,
}

/// Failure to find a name for an id.
#[derive(Clone, Debug, PartialEq, Eq)]
pub enum SymbolError {
    UnknownSymbol(u64),
}

impl View for SymbolTable {
    type V = Seq<Seq<char>>;

    open spec fn view(&self) -> Seq<Seq<char>> {
        self.symbols@.map_values(|s: String| s@)
    }
}

impl SymbolTable {
    /// No name is interned twice.
    pub open spec fn wf(&self) -> bool {
        forall|i: int, j: int|
            0 <= i < self@.len() && 0 <= j < self@.len() && i != j ==> #[trigger] self@[i]
                != #[trigger] self@[j]
    }

    /// An empty table.
    pub fn new() -> (r: SymbolTable)
        ensures
            r@ == Seq::<Seq<char>>::empty(),
            r.wf(),
    {
        SymbolTable { symbols: Vec::new() }
    }

    /// Decides [`SymbolTable::wf`]: whether no name is interned twice.
    pub fn is_well_formed(&self) -> (r: bool)
        ensures
            r == self.wf(),
    {
        let mut i: usize = 0;
        while i < self.symbols.len()
            invariant
                i <= self.symbols.len(),
                forall|a: int, b: int|
                    0 <= a < i && 0 <= b < self@.len() && a != b ==> #[trigger] self@[a]
                        != #[trigger] self@[b],
            decreases self.symbols.len() - i,
        {
            let mut j: usize = 0;
            while j < self.symbols.len()
                invariant
                    i < self.symbols.len(),
                    j <= self.symbols.len(),
                    forall|a: int, b: int|
                        0 <= a < i && 0 <= b < self@.len() && a != b ==> #[trigger] self@[a]
                            != #[trigger] self@[b],
                    forall|b: int| 0 <= b < j && b != i ==> self@[i as int] != #[trigger] self@[b],
                decreases self.symbols.len() - j,
            {
                if j != i && self.symbols[i] == self.symbols[j] {
                    assert(self@[i as int] == self@[j as int]);
                    return false;
                }
                j = j + 1;
            }
            i = i + 1;
        }
        true
    }

    /// Number of interned names.
    pub fn len(&self) -> (r: usize)
        ensures
            r == self@.len(),
    {
        self.symbols.len()
    }

    /// The id of `name`, if it is interned.
    pub fn get(&self, name: &str) -> (r: Option<u64>)
        requires
            self.wf(),
        ensures
            match r {
                Some(id) => id < self@.len() && self@[id as int] == name@,
                None => !self@.contains(name@),
            },
    {
        let owned = name.to_owned();
        let mut i: usize = 0;
        while i < self.symbols.len()
            invariant
                i <= self.symbols.len(),
                owned@ == name@,
                forall|k: int| 0 <= k < i ==> self@[k] != name@,
            decreases self.symbols.len() - i,
        {
            if self.symbols[i] == owned {
                return Some(i as u64);
            }
            i = i + 1;
        }
        None
    }

    /// Interns `name`: returns its existing id, or appends it and returns the
    /// new id. Existing ids never change.
    pub fn insert(&mut self, name: &str) -> (r: u64)
        requires
            old(self).wf(),
            old(self)@.len() < u64::MAX,
        ensures
            final(self).wf(),
            old(self)@.contains(name@) ==> final(self)@ == old(self)@,
            !old(self)@.contains(name@) ==> final(self)@ == old(self)@.push(name@),
            r < final(self)@.len(),
            final(self)@[r as int] == name@,
    {
        match self.get(name) {
            Some(id) => id,
            None => {
                let id = self.symbols.len() as u64;
                self.symbols.push(name.to_owned());
                assert(self@ =~= old(self)@.push(name@));
                id
            },
        }
    }

    /// The name interned under `id`.
    pub fn resolve(&self, id: u64) -> (r: Result<String, SymbolError>)
        ensures
            id < self@.len() ==> (r matches Ok(s) && s@ == self@[id as int]),
            id >= self@.len() ==> r == Err::<String, SymbolError>(SymbolError::UnknownSymbol(id)),
    {
        if id < self.symbols.len() as u64 {
            Ok(self.symbols[id as usize].clone())
        } else {
            Err(SymbolError::UnknownSymbol(id))
        }
    }

    /// Splits off the names from position `start` on, which a block introduced.
    pub fn split_off(&mut self, start: usize) -> (r: SymbolTable)
        requires
            start <= old(self)@.len(),
        ensures
            final(self)@ == old(self)@.subrange(0, start as int),
            r@ == old(self)@.subrange(start as int, old(self)@.len() as int),
    {
        let tail = self.symbols.split_off(start);
        assert(self@ =~= old(self)@.subrange(0, start as int));
        assert(tail@.map_values(|s: String| s@) =~= old(self)@.subrange(start as int, old(self)@.len() as int));
        SymbolTable { symbols: tail }
    }

    /// Appends the names of a block's slice after this table's names; ids are
    /// never renumbered.
    pub fn extend(&mut self, other: &SymbolTable)
        ensures
            final(self)@ == old(self)@ + other@,
    {
        let mut i: usize = 0;
        while i < other.symbols.len()
            invariant
                i <= other.symbols.len(),
                self@ == old(self)@ + other@.subrange(0, i as int),
            decreases other.symbols.len() - i,
        {
            let name = other.symbols[i].clone();
            assert(name@ == other@[i as int]);
            let ghost before = self@;
            self.symbols.push(name);
            assert(self@ =~= before.push(name@));
            assert(other@.subrange(0, i + 1) =~= other@.subrange(0, i as int).push(other@[i as int]));
            assert(self@ =~= old(self)@ + other@.subrange(0, i + 1));
            i = i + 1;
        }
        assert(other@.subrange(0, other@.len() as int) =~= other@);
    }
}

} // verus!
