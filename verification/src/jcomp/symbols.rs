//! Per-class and per-subroutine symbol tables: each entry gets a dense
//! index per kind, assigned in insertion order from zero.
use crate::keymap::{find_in, key_in, lemma_find_in_key, KeyMap};
use vstd::prelude::*;

verus! {

/// The type of a variable.
#[derive(Debug, Clone, PartialEq, Eq)]
pub enum VarType {
    Int,
    Bool,
    Char,
    Instance(Vec<char>),
}

/// The storage kind of a variable.
#[derive(Debug, Clone, Copy, PartialEq, Eq, Structural)]
pub enum VarKind {
    Static,
    Field,
    Local,
    Argument,
}

/// One symbol: its type, kind, and dense per-kind index.
#[derive(Debug, Clone)]
pub struct Symbol {
    pub var_type: VarType,
    pub var_kind: VarKind,
    pub number: u32,
}

/// A symbol table with unique names.
pub struct SymbolTable {
    pub table: KeyMap<Symbol>,
}

/// How many entries of `kind` the table holds.
pub open spec fn kind_count(entries: Seq<(Vec<char>, Symbol)>, kind: VarKind) -> int
    decreases entries.len(),
{
    if entries.len() == 0 {
        0
    } else {
        kind_count(entries.drop_last(), kind) + if entries.last().1.var_kind == kind {
            1int
        } else {
            0int
        }
    }
}

proof fn lemma_kind_count_bound(entries: Seq<(Vec<char>, Symbol)>, kind: VarKind)
    ensures
        0 <= kind_count(entries, kind) <= entries.len(),
    decreases entries.len(),
{
    if entries.len() > 0 {
        lemma_kind_count_bound(entries.drop_last(), kind);
    }
}

impl SymbolTable {
    /// Unique names.
    pub open spec fn wf(&self) -> bool {
        self.table.wf()
    }

    /// The entries, in insertion order.
    pub open spec fn entries(&self) -> Seq<(Vec<char>, Symbol)> {
        self.table.entries@
    }

    /// An empty table.
    pub fn new() -> (t: SymbolTable)
        ensures
            t.wf(),
            t.entries().len() == 0,
    {
        SymbolTable { table: KeyMap::new() }
    }

    /// Binds a new name with the next dense index of its kind; an already
    /// bound name is an error and leaves the table alone.
    pub fn insert(&mut self, name: Vec<char>, var_type: VarType, var_kind: VarKind) -> (r: Result<
        u32,
        (),
    >)
        requires
            old(self).wf(),
            old(self).entries().len() < 0xffff_ffff,
        ensures
            final(self).wf(),
            match r {
                Ok(number) => {
                    &&& !key_in(old(self).entries(), name@)
                    &&& number as int == kind_count(old(self).entries(), var_kind)
                    &&& final(self).entries() == old(self).entries().push(
                        (name, Symbol { var_type, var_kind, number }),
                    )
                },
                Err(()) => key_in(old(self).entries(), name@) && final(self).entries() == old(
                    self,
                ).entries(),
            },
    {
        proof {
            lemma_find_in_key(self.table.entries@, name@);
        }
        if self.table.contains_key(name.as_slice()) {
            return Err(());
        }
        let n = self.table.entries.len();
        let mut count: u32 = 0;
        let mut i: usize = 0;
        while i < n
            invariant
                i <= n == self.entries().len(),
                n < 0xffff_ffff,
                count as int == kind_count(self.entries().take(i as int), var_kind),
                count <= i,
            decreases n - i,
        {
            proof {
                assert(self.entries().take(i + 1).drop_last() =~= self.entries().take(i as int));
                assert(self.entries().take(i + 1).last() == self.entries()[i as int]);
            }
            if self.table.entries[i].1.var_kind == var_kind {
                count = count + 1;
            }
            i = i + 1;
        }
        proof {
            assert(self.entries().take(n as int) =~= self.entries());
        }
        let number = count;
        self.table.insert(name, Symbol { var_type, var_kind, number });
        Ok(number)
    }

    /// Looks a name up.
    pub fn get(&self, name: &[char]) -> (r: Option<&Symbol>)
        ensures
            match r {
                Some(sym) => find_in(self.entries(), name@) == Some(*sym),
                None => find_in(self.entries(), name@) is None,
            },
    {
        self.table.get(name)
    }

    /// How many symbols of `kind` the table holds.
    pub fn get_count(&self, kind: VarKind) -> (r: u32)
        requires
            self.entries().len() < 0xffff_ffff,
        ensures
            r as int == kind_count(self.entries(), kind),
    {
        let n = self.table.entries.len();
        let mut count: u32 = 0;
        let mut i: usize = 0;
        while i < n
            invariant
                i <= n == self.entries().len(),
                n < 0xffff_ffff,
                count as int == kind_count(self.entries().take(i as int), kind),
                count <= i,
            decreases n - i,
        {
            proof {
                assert(self.entries().take(i + 1).drop_last() =~= self.entries().take(i as int));
                assert(self.entries().take(i + 1).last() == self.entries()[i as int]);
            }
            if self.table.entries[i].1.var_kind == kind {
                count = count + 1;
            }
            i = i + 1;
        }
        proof {
            assert(self.entries().take(n as int) =~= self.entries());
        }
        count
    }
}

} // verus!
