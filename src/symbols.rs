//! Symbol tables of the rule compiler: what an identifier stands for, in
//! tables that can be stacked so that inner scopes hide outer ones.
use std::collections::VecDeque;
use std::sync::Arc;

use vstd::prelude::*;

verus! {

/// Types in which identifiers are looked up.
pub trait SymbolLookup {
    /// The state in which a lookup may be made.
    spec fn lookup_ready(&self) -> bool;

    /// The symbol that `ident` stands for, if any.
    fn lookup(&self, ident: &str) -> Option<&Symbol>
        requires
            self.lookup_ready(),
    ;
}

/// Types whose items are reached by position.
pub trait SymbolIndex {
    /// The symbol at `index`, if any.
    fn index(&self, index: usize) -> Option<&Symbol>;
}

/// The type of a symbol.
#[derive(Clone, Copy, Debug, PartialEq, Eq)]
pub enum Type {
    Unknown,
    Integer,
    Float,
    Bool,
    String,
    Struct,
    Array,
}

/// The value of a symbol, where it is known at compile time.
pub enum Value {
    Unknown,
    Integer(i64),
    Bool(bool),
    String(Vec<u8>),
    /// A structure, whose fields are looked up in its own symbol table.
    Struct(Arc<SymbolTable>),
}

/// Where a symbol lives at run time.
#[derive(Clone, Copy, Debug, PartialEq, Eq)]
pub enum Location {
    Unassigned,
    /// An offset in the memory of the scanner.
    Memory(i32),
}

/// What an identifier stands for: a type, possibly a value, and where it
/// lives.
pub struct Symbol {
    ty: Type,
    value: Value,
    location: Location,
}

impl Symbol {
    pub closed spec fn spec_ty(&self) -> Type {
        self.ty
    }

    pub closed spec fn spec_value(&self) -> Value {
        self.value
    }

    pub closed spec fn spec_location(&self) -> Location {
        self.location
    }

    /// A symbol of type `ty` with `value` and no location.
    pub fn new(ty: Type, value: Value) -> (r: Self)
        ensures
            r.spec_ty() == ty,
            r.spec_value() == value,
            r.spec_location() == Location::Unassigned,
    {
        Self { ty, value, location: Location::Unassigned }
    }

    /// A structure whose fields are the symbols of `symbol_table`.
    pub fn new_struct(symbol_table: Arc<SymbolTable>) -> (r: Self)
        ensures
            r.spec_ty() == Type::Struct,
            r.spec_value() == Value::Struct(symbol_table),
            r.spec_location() == Location::Unassigned,
    {
        Self { ty: Type::Struct, value: Value::Struct(symbol_table), location: Location::Unassigned }
    }

    /// The same symbol at `location`.
    pub fn set_location(self, location: Location) -> (r: Self)
        ensures
            r.spec_ty() == self.spec_ty(),
            r.spec_value() == self.spec_value(),
            r.spec_location() == location,
    {
        let mut s = self;
        s.location = location;
        s
    }

    /// Where the symbol lives.
    pub fn location(&self) -> (r: &Location)
        ensures
            *r == self.spec_location(),
    {
        &self.location
    }

    /// The memory offset of the symbol, if it lives in memory.
    pub fn mem_location(&self) -> (r: Option<i32>)
        ensures
            r == match self.spec_location() {
                Location::Memory(m) => Some(m),
                Location::Unassigned => None,
            },
    {
        if let Location::Memory(m) = self.location {
            Some(m)
        } else {
            None
        }
    }

    /// The value of the symbol.
    pub fn value(&self) -> (r: &Value)
        ensures
            *r == self.spec_value(),
    {
        &self.value
    }

    /// The type of the symbol.
    pub fn ty(&self) -> (r: Type)
        ensures
            r == self.spec_ty(),
    {
        self.ty
    }
}

impl From<Type> for Symbol {
    /// A symbol of type `ty` whose value is unknown.
    fn from(ty: Type) -> (r: Self)
        ensures
            r.spec_ty() == ty,
            r.spec_value() == Value::Unknown,
            r.spec_location() == Location::Unassigned,
    {
        Symbol::new(ty, Value::Unknown)
    }
}

impl vstd::std_specs::convert::FromSpecImpl<Type> for Symbol {
    open spec fn obeys_from_spec() -> bool {
        false
    }

    open spec fn from_spec(ty: Type) -> Self {
        arbitrary()
    }
}

/// The field tables of a symbol that is a structure are well formed.
pub open spec fn fields_ready(symbol: Option<Symbol>) -> bool {
    symbol matches Some(s) ==> (s.spec_value() matches Value::Struct(t) ==> t.wf())
}

/// The field `ident` of `symbol`, where `symbol` is a structure; `None`
/// where there is no symbol, it is not a structure, or it has no such
/// field. Lookups chain: `lookup_field(lookup_field(s, "a"), "b")`.
pub fn lookup_field<'a>(symbol: Option<&'a Symbol>, ident: &str) -> (r: Option<&'a Symbol>)
    requires
        fields_ready(match symbol { Some(s) => Some(*s), None => None }),
    ensures
        match symbol {
            Some(s) => match s.spec_value() {
                Value::Struct(t) => match r {
                    Some(f) => t.map().contains_key(ident@) && *f == t.map()[ident@],
                    None => !t.map().contains_key(ident@),
                },
                _ => r is None,
            },
            None => r is None,
        },
{
    match symbol {
        Some(s) => match s.value() {
            Value::Struct(t) => {
                let table: &SymbolTable = t;
                table.lookup(ident)
            },
            _ => None,
        },
        None => None,
    }
}

/// A map from identifiers to symbols.
pub struct SymbolTable {
    entries: Vec<(String, Symbol)>,
    contents: Ghost<Map<Seq<char>, Symbol>>,
}

impl SymbolTable {
    /// The symbol of each identifier in the table.
    pub closed spec fn map(&self) -> Map<Seq<char>, Symbol> {
        self.contents@
    }

    /// Each identifier is stored once, and the stored entries are exactly
    /// the map.
    pub closed spec fn wf(&self) -> bool {
        &&& forall|i: int, j: int|
            0 <= i < self.entries@.len() && 0 <= j < self.entries@.len() && i != j
                ==> self.entries@[i].0@ != self.entries@[j].0@
        &&& forall|i: int|
            0 <= i < self.entries@.len() ==> #[trigger] self.contents@.contains_key(self.entries@[i].0@)
                && self.contents@[self.entries@[i].0@] == self.entries@[i].1
        &&& forall|k: Seq<char>|
            #[trigger] self.contents@.contains_key(k) ==> exists|i: int|
                0 <= i < self.entries@.len() && self.entries@[i].0@ == k
    }

    /// Creates an empty table.
    pub fn new() -> (r: Self)
        ensures
            r.wf(),
            r.map() == Map::<Seq<char>, Symbol>::empty(),
    {
        Self { entries: Vec::new(), contents: Ghost(Map::empty()) }
    }

    /// The index of the entry for `ident`, if any.
    fn find(&self, ident: &String) -> (r: Option<usize>)
        requires
            self.wf(),
        ensures
            match r {
                Some(i) => i < self.entries@.len() && self.entries@[i as int].0@ == ident@,
                None => !self.map().contains_key(ident@),
            },
    {
        let mut i: usize = 0;
        while i < self.entries.len()
            invariant
                self.wf(),
                i <= self.entries@.len(),
                forall|j: int| 0 <= j < i ==> self.entries@[j].0@ != ident@,
            decreases self.entries@.len() - i,
        {
            if self.entries[i].0 == *ident {
                return Some(i);
            }
            i = i + 1;
        }
        None
    }

    /// Inserts `symbol` under `ident`, and returns the symbol that `ident`
    /// stood for before, if any.
    pub fn insert(&mut self, ident: &str, symbol: Symbol) -> (r: Option<Symbol>)
        requires
            old(self).wf(),
        ensures
            final(self).wf(),
            final(self).map() == old(self).map().insert(ident@, symbol),
            r == (if old(self).map().contains_key(ident@) {
                Some(old(self).map()[ident@])
            } else {
                None
            }),
    {
        let key = ident.to_owned();
        let ghost old_map = self.contents@;
        let ghost old_entries = self.entries@;
        assert(key@ == ident@);
        match self.find(&key) {
            Some(i) => {
                let mut old_entry = (key, symbol);
                std::mem::swap(&mut old_entry, &mut self.entries[i]);
                self.contents = Ghost(old_map.insert(ident@, symbol));
                proof {
                    let e = self.entries@;
                    let m = self.contents@;
                    assert(e == old_entries.update(i as int, e[i as int]));
                    assert(e[i as int].0@ == ident@);
                    assert forall|j: int| 0 <= j < e.len() implies #[trigger] m.contains_key(e[j].0@)
                        && m[e[j].0@] == e[j].1 by {
                        if j != i {
                            assert(e[j] == old_entries[j]);
                            assert(old_map.contains_key(old_entries[j].0@));
                        }
                    }
                    assert forall|k: Seq<char>| #[trigger] m.contains_key(k) implies exists|j: int|
                        0 <= j < e.len() && e[j].0@ == k by {
                        if k == ident@ {
                            assert(e[i as int].0@ == k);
                        } else {
                            assert(old_map.contains_key(k));
                            let j = choose|j: int| 0 <= j < old_entries.len() && old_entries[j].0@ == k;
                            assert(e[j] == old_entries[j]);
                        }
                    }
                    assert forall|a: int, b: int| 0 <= a < e.len() && 0 <= b < e.len() && a != b implies e[a].0@ != e[b].0@ by {
                        if a != i && b != i {
                            assert(e[a] == old_entries[a] && e[b] == old_entries[b]);
                        } else if a == i {
                            assert(e[b] == old_entries[b]);
                            assert(old_entries[b].0@ != old_entries[i as int].0@);
                        } else {
                            assert(e[a] == old_entries[a]);
                            assert(old_entries[a].0@ != old_entries[i as int].0@);
                        }
                    }
                    assert(old_map.contains_key(ident@));
                }
                Some(old_entry.1)
            },
            None => {
                self.entries.push((key, symbol));
                self.contents = Ghost(old_map.insert(ident@, symbol));
                proof {
                    let e = self.entries@;
                    let m = self.contents@;
                    let n = old_entries.len() as int;
                    assert forall|j: int| 0 <= j < e.len() implies #[trigger] m.contains_key(e[j].0@)
                        && m[e[j].0@] == e[j].1 by {
                        if j < n {
                            assert(e[j] == old_entries[j]);
                            assert(old_map.contains_key(old_entries[j].0@));
                        }
                    }
                    assert forall|k: Seq<char>| #[trigger] m.contains_key(k) implies exists|j: int|
                        0 <= j < e.len() && e[j].0@ == k by {
                        if k == ident@ {
                            assert(e[n].0@ == k);
                        } else {
                            assert(old_map.contains_key(k));
                            let j = choose|j: int| 0 <= j < old_entries.len() && old_entries[j].0@ == k;
                            assert(e[j] == old_entries[j]);
                        }
                    }
                    assert forall|a: int, b: int| 0 <= a < e.len() && 0 <= b < e.len() && a != b implies e[a].0@ != e[b].0@ by {
                        if a < n && b < n {
                            assert(e[a] == old_entries[a] && e[b] == old_entries[b]);
                        } else if a == n {
                            assert(e[b] == old_entries[b]);
                            assert(old_map.contains_key(old_entries[b].0@));
                        } else {
                            assert(e[a] == old_entries[a]);
                            assert(old_map.contains_key(old_entries[a].0@));
                        }
                    }
                }
                None
            },
        }
    }

    /// The symbol that `ident` stands for, if any.
    pub fn lookup(&self, ident: &str) -> (r: Option<&Symbol>)
        requires
            self.wf(),
        ensures
            match r {
                Some(s) => self.map().contains_key(ident@) && *s == self.map()[ident@],
                None => !self.map().contains_key(ident@),
            },
    {
        let key = ident.to_owned();
        match self.find(&key) {
            Some(i) => Some(&self.entries[i].1),
            None => None,
        }
    }
}

impl Default for SymbolTable {
    fn default() -> (r: Self)
        ensures
            r.wf(),
            r.map() == Map::<Seq<char>, Symbol>::empty(),
    {
        SymbolTable::new()
    }
}

impl SymbolLookup for SymbolTable {
    open spec fn lookup_ready(&self) -> bool {
        self.wf()
    }

    fn lookup(&self, ident: &str) -> Option<&Symbol> {
        SymbolTable::lookup(self, ident)
    }
}

/// The symbol of `ident` in a stack of tables, the last one on top: the
/// topmost table that holds `ident` decides.
pub open spec fn stacked_lookup(tables: Seq<Arc<SymbolTable>>, ident: Seq<char>) -> Option<Symbol>
    decreases tables.len(),
{
    if tables.len() == 0 {
        None
    } else if tables.last().map().contains_key(ident) {
        Some(tables.last().map()[ident])
    } else {
        stacked_lookup(tables.drop_last(), ident)
    }
}

/// Symbol tables stacked one on top of the other. A lookup starts at the
/// top and goes down until a table holds the identifier, so an identifier
/// in an upper table hides the same identifier further down.
pub struct StackedSymbolTable {
    stack: VecDeque<Arc<SymbolTable>>,
}

impl StackedSymbolTable {
    /// The tables, from the bottom of the stack to its top.
    pub closed spec fn tables(&self) -> Seq<Arc<SymbolTable>> {
        self.stack@
    }

    /// Every table of the stack is well formed.
    pub open spec fn wf(&self) -> bool {
        forall|i: int| 0 <= i < self.tables().len() ==> (#[trigger] self.tables()[i]).wf()
    }

    /// Creates an empty stack.
    pub fn new() -> (r: Self)
        ensures
            r.tables() == Seq::<Arc<SymbolTable>>::empty(),
    {
        Self { stack: VecDeque::new() }
    }

    /// Pushes `symbol_table` on top of the stack.
    pub fn push(&mut self, symbol_table: Arc<SymbolTable>)
        ensures
            final(self).tables() == old(self).tables().push(symbol_table),
    {
        self.stack.push_back(symbol_table);
    }

    /// Takes the table on top of the stack off it.
    pub fn pop(&mut self) -> (r: Option<Arc<SymbolTable>>)
        ensures
            old(self).tables().len() == 0 ==> r is None && final(self).tables() == old(self).tables(),
            old(self).tables().len() > 0 ==> r == Some(old(self).tables().last())
                && final(self).tables() == old(self).tables().drop_last(),
    {
        self.stack.pop_back()
    }

    /// The symbol of `ident` in the topmost table that holds it.
    pub fn lookup(&self, ident: &str) -> (r: Option<&Symbol>)
        requires
            self.wf(),
        ensures
            match r {
                Some(s) => stacked_lookup(self.tables(), ident@) == Some(*s),
                None => stacked_lookup(self.tables(), ident@) is None,
            },
    {
        let mut i: usize = self.stack.len();
        assert(self.stack@.take(i as int) =~= self.stack@);
        while i > 0
            invariant
                self.wf(),
                i <= self.stack@.len(),
                stacked_lookup(self.stack@.take(i as int), ident@) == stacked_lookup(self.stack@, ident@),
            decreases i,
        {
            i = i - 1;
            assert(self.stack@.take(i + 1 as int).drop_last() =~= self.stack@.take(i as int));
            assert(self.stack@[i as int].wf());
            let table: &SymbolTable = &self.stack[i];
            match table.lookup(ident) {
                Some(s) => {
                    return Some(s);
                },
                None => {},
            }
        }
        None
    }
}

impl SymbolLookup for StackedSymbolTable {
    open spec fn lookup_ready(&self) -> bool {
        self.wf()
    }

    fn lookup(&self, ident: &str) -> Option<&Symbol> {
        StackedSymbolTable::lookup(self, ident)
    }
}

} // verus!
