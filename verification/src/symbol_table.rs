//! The symbol table: declared names with their kind and the nesting level at
//! which they were declared.

use crate::text::{decimal, decimal_text};
use vstd::prelude::*;

verus! {

/// One declared name.
#[derive(Debug)]
pub struct SymbolTableEntry {
    pub vname: String,
    pub vtype: String,
    pub array_size: u32,
    pub level: u32,
}

/// The table of declared names and the current nesting level.
#[derive(Debug)]
pub struct SymbolTable {
    pub table: Vec<SymbolTableEntry>,
    pub curr_level: u32,
}

/// The mathematical value of an entry.
pub struct EntryView {
    pub name: Seq<char>,
    pub kind: Seq<char>,
    pub array_size: nat,
    pub level: nat,
}

/// The mathematical value of a table: its entries in order of declaration
/// and the current nesting level.
pub struct TableView {
    pub entries: Seq<EntryView>,
    pub level: nat,
}

impl EntryView {
    /// Whether the entry declares a scalar.
    pub open spec fn is_scalar(self) -> bool {
        self.kind == "int"@
    }

    /// Whether the entry declares an array.
    pub open spec fn is_array(self) -> bool {
        self.kind == "arr"@
    }

    /// Whether a reference to `name` at nesting level `level` sees this entry.
    pub open spec fn visible(self, name: Seq<char>, level: nat) -> bool {
        self.name == name && self.level <= level
    }
}

/// The first entry of `entries` that a reference to `name` at `level` sees.
pub open spec fn first_visible(entries: Seq<EntryView>, name: Seq<char>, level: nat) -> Option<
    EntryView,
>
    decreases entries.len(),
{
    if entries.len() == 0 {
        None
    } else if entries[0].visible(name, level) {
        Some(entries[0])
    } else {
        first_visible(entries.skip(1), name, level)
    }
}

impl TableView {
    /// The table with one more entry, declared at the current level.
    pub open spec fn declare(self, name: Seq<char>, kind: Seq<char>, array_size: nat) -> TableView {
        TableView {
            entries: self.entries.push(
                EntryView { name, kind, array_size, level: self.level },
            ),
            level: self.level,
        }
    }

    /// The table one level deeper.
    pub open spec fn enter(self) -> TableView {
        TableView { entries: self.entries, level: self.level + 1 }
    }

    /// The table one level up.
    pub open spec fn leave(self) -> TableView
        recommends
            self.level > 0,
    {
        TableView { entries: self.entries, level: (self.level - 1) as nat }
    }

    /// The table back at the outermost level.
    pub open spec fn at_top(self) -> TableView {
        TableView { entries: self.entries, level: 0 }
    }

    /// The entry that a reference to `name` resolves to, if any.
    pub open spec fn lookup(self, name: Seq<char>) -> Option<EntryView> {
        first_visible(self.entries, name, self.level)
    }
}

/// The line that describes an entry: its name, its kind and its level.
pub open spec fn entry_text(entry: EntryView) -> Seq<char> {
    "Symbol: "@ + entry.name + ", Type: "@ + entry.kind + ", Level: "@ + decimal_text(entry.level)
        + "\n"@
}

/// The lines that describe the entries, in order.
pub open spec fn entries_text(entries: Seq<EntryView>) -> Seq<char>
    decreases entries.len(),
{
    if entries.len() == 0 {
        Seq::empty()
    } else {
        entries_text(entries.drop_last()) + entry_text(entries.last())
    }
}

/// The description of a table: the current level, then one line for each
/// entry.
pub open spec fn table_text(table: TableView) -> Seq<char> {
    "Current level: "@ + decimal_text(table.level) + "\n"@ + entries_text(table.entries)
}

impl View for SymbolTableEntry {
    type V = EntryView;

    open spec fn view(&self) -> EntryView {
        EntryView {
            name: self.vname@,
            kind: self.vtype@,
            array_size: self.array_size as nat,
            level: self.level as nat,
        }
    }
}

impl Clone for SymbolTableEntry {
    fn clone(&self) -> (copy: Self)
        ensures
            copy@ == self@,
    {
        SymbolTableEntry {
            vname: self.vname.clone(),
            vtype: self.vtype.clone(),
            array_size: self.array_size,
            level: self.level,
        }
    }
}

impl SymbolTableEntry {
    /// The declared name.
    pub fn name(&self) -> (name: &String)
        ensures
            *name == self.vname,
            name@ == self@.name,
    {
        &self.vname
    }

    /// The declared kind: `int` for a scalar, `arr` for an array.
    pub fn kind(&self) -> (kind: &String)
        ensures
            *kind == self.vtype,
            kind@ == self@.kind,
    {
        &self.vtype
    }

    /// The declared length, zero for a scalar.
    pub fn length(&self) -> (length: u32)
        ensures
            length == self.array_size,
            length == self@.array_size,
    {
        self.array_size
    }

    /// The nesting level of the declaration.
    pub fn level(&self) -> (level: u32)
        ensures
            level == self.level,
            level == self@.level,
    {
        self.level
    }
}

impl View for SymbolTable {
    type V = TableView;

    open spec fn view(&self) -> TableView {
        TableView {
            entries: Seq::new(self.table@.len(), |i: int| self.table@[i]@),
            level: self.curr_level as nat,
        }
    }
}

impl SymbolTable {
    /// An empty table at the outermost level.
    pub fn new() -> (table: Self)
        ensures
            table.table@.len() == 0,
            table@.entries == Seq::<EntryView>::empty(),
            table@.level == 0,
    {
        let table = SymbolTable { table: Vec::new(), curr_level: 0 };
        assert(table@.entries =~= Seq::<EntryView>::empty());
        table
    }

    /// Declares `var` at the current level.
    pub fn add_to_table(&mut self, var: String, var_type: String, array_size: u32)
        ensures
            final(self)@ == old(self)@.declare(var@, var_type@, array_size as nat),
            final(self).table@.len() == old(self).table@.len() + 1,
            final(self).table@.drop_last() == old(self).table@,
            final(self).table@.last().vname == var,
            final(self).table@.last().vtype == var_type,
            final(self).table@.last().array_size == array_size,
            final(self).table@.last().level == old(self).curr_level,
            final(self).curr_level == old(self).curr_level,
    {
        self.table.push(
            SymbolTableEntry { vname: var, vtype: var_type, level: self.curr_level, array_size },
        );
        assert(self@.entries =~= old(self)@.declare(var@, var_type@, array_size as nat).entries);
    }

    /// Goes back to the outermost level.
    pub fn reset_level(&mut self)
        ensures
            final(self)@ == old(self)@.at_top(),
            final(self).table == old(self).table,
            final(self).curr_level == 0,
    {
        self.curr_level = 0;
        assert(self@.entries =~= old(self)@.entries);
    }

    /// Leaves the innermost block.
    pub fn down(&mut self)
        requires
            old(self)@.level > 0,
        ensures
            final(self)@ == old(self)@.leave(),
            final(self).table == old(self).table,
            final(self).curr_level == old(self).curr_level - 1,
    {
        self.curr_level -= 1;
        assert(self@.entries =~= old(self)@.entries);
    }

    /// Enters a nested block.
    pub fn up(&mut self)
        requires
            old(self)@.level < u32::MAX,
        ensures
            final(self)@ == old(self)@.enter(),
            final(self).table == old(self).table,
            final(self).curr_level == old(self).curr_level + 1,
    {
        self.curr_level += 1;
        assert(self@.entries =~= old(self)@.entries);
    }

    /// The current nesting level.
    pub fn level(&self) -> (level: u32)
        ensures
            level == self.curr_level,
            level == self@.level,
    {
        self.curr_level
    }

    /// The number of entries.
    pub fn len(&self) -> (n: usize)
        ensures
            n == self.table@.len(),
            n == self@.entries.len(),
    {
        self.table.len()
    }

    /// The entry at position `index`, in order of declaration.
    pub fn entry(&self, index: usize) -> (entry: &SymbolTableEntry)
        requires
            index < self@.entries.len(),
        ensures
            *entry == self.table@[index as int],
            entry@ == self@.entries[index as int],
    {
        &self.table[index]
    }

    /// The description of the table: the current level, then one line for
    /// each entry with its name, its kind and its level.
    pub fn describe(&self) -> (text: String)
        ensures
            text@ == table_text(self@),
    {
        let mut text = String::from_str("Current level: ");
        text.append(decimal(self.curr_level as usize).as_str());
        text.append("\n");
        let ghost head = text@;
        let mut i: usize = 0;
        proof {
            assert(self@.entries.take(0) =~= Seq::<EntryView>::empty());
            assert(head + entries_text(self@.entries.take(0)) == head);
        }
        while i < self.table.len()
            invariant
                i <= self.table@.len(),
                text@ == head + entries_text(self@.entries.take(i as int)),
            decreases self.table@.len() - i,
        {
            let symbol = &self.table[i];
            let ghost before = entries_text(self@.entries.take(i as int));
            proof {
                assert(self@.entries.take(i + 1).drop_last() =~= self@.entries.take(i as int));
                assert(self@.entries.take(i + 1).last() == symbol@);
            }
            text.append("Symbol: ");
            text.append(symbol.vname.as_str());
            text.append(", Type: ");
            text.append(symbol.vtype.as_str());
            text.append(", Level: ");
            text.append(decimal(symbol.level as usize).as_str());
            text.append("\n");
            proof {
                assert(text@ == head + (before + entry_text(symbol@)));
            }
            i += 1;
        }
        proof {
            assert(self@.entries.take(i as int) =~= self@.entries);
        }
        text
    }

    /// Resolves a reference to `var`: the first entry of that name declared
    /// at the current level or an enclosing one.
    pub fn check_table(&self, var: String) -> (found: Option<&SymbolTableEntry>)
        ensures
            match found {
                Some(entry) => self@.lookup(var@) == Some(entry@),
                None => self@.lookup(var@).is_none(),
            },
            found matches Some(entry) ==> exists|i: int|
                0 <= i < self.table@.len() && #[trigger] self.table@[i] == *entry,
    {
        let mut i: usize = 0;
        assert(self@.entries.skip(0) == self@.entries);
        while i < self.table.len()
            invariant
                i <= self.table.len(),
                self@.lookup(var@) == first_visible(
                    self@.entries.skip(i as int),
                    var@,
                    self@.level,
                ),
            decreases self.table.len() - i,
        {
            let symbol = &self.table[i];
            if symbol.vname == var && symbol.level <= self.curr_level {
                return Some(symbol);
            }
            assert(self@.entries.skip(i as int).skip(1) == self@.entries.skip(i + 1));
            i += 1;
        }
        None
    }
}

/// A name that is visible among some entries is visible among them at any
/// deeper level, and with any entries declared after them.
pub proof fn lemma_first_visible_stays(
    entries: Seq<EntryView>,
    later: Seq<EntryView>,
    name: Seq<char>,
    level: nat,
    deeper: nat,
)
    requires
        level <= deeper,
        first_visible(entries, name, level).is_some(),
    ensures
        first_visible(entries + later, name, deeper).is_some(),
    decreases entries.len(),
{
    let all = entries + later;
    assert(all[0] == entries[0]);
    if !entries[0].visible(name, level) {
        assert(all.skip(1) == entries.skip(1) + later);
        lemma_first_visible_stays(entries.skip(1), later, name, level, deeper);
    }
}

/// Among entries of which none has the name, the name is not visible.
pub proof fn lemma_first_visible_needs_entry(entries: Seq<EntryView>, name: Seq<char>, level: nat)
    requires
        forall|i: int| 0 <= i < entries.len() ==> (#[trigger] entries[i]).name != name,
    ensures
        first_visible(entries, name, level).is_none(),
    decreases entries.len(),
{
    if entries.len() > 0 {
        assert forall|i: int| 0 <= i < entries.skip(1).len() implies (#[trigger] entries.skip(
            1,
        )[i]).name != name by {
            assert(entries.skip(1)[i] == entries[i + 1]);
        }
        lemma_first_visible_needs_entry(entries.skip(1), name, level);
    }
}

/// The entry that a name resolves to has that name and is declared at the
/// level of the reference or above it.
pub proof fn lemma_first_visible_is_visible(entries: Seq<EntryView>, name: Seq<char>, level: nat)
    ensures
        match first_visible(entries, name, level) {
            Some(entry) => entry.visible(name, level),
            None => true,
        },
    decreases entries.len(),
{
    if entries.len() > 0 && !entries[0].visible(name, level) {
        lemma_first_visible_is_visible(entries.skip(1), name, level);
    }
}

/// A name resolves once it is declared: at the level of its declaration
/// right away.
pub proof fn lemma_declared_resolves(
    table: TableView,
    name: Seq<char>,
    kind: Seq<char>,
    array_size: nat,
)
    ensures
        table.declare(name, kind, array_size).lookup(name).is_some(),
    decreases table.entries.len(),
{
    let declared = table.declare(name, kind, array_size);
    if table.entries.len() == 0 {
        assert(declared.entries[0].visible(name, table.level));
    } else if !table.entries[0].visible(name, table.level) {
        let shorter = TableView { entries: table.entries.skip(1), level: table.level };
        assert(declared.entries[0] == table.entries[0]);
        assert(declared.entries.skip(1) == shorter.declare(name, kind, array_size).entries);
        lemma_declared_resolves(shorter, name, kind, array_size);
    } else {
        assert(declared.entries[0] == table.entries[0]);
    }
}

/// A name that resolves keeps resolving in every block nested in the one
/// where it does, and after any further declarations.
pub proof fn lemma_resolved_stays(table: TableView, later: TableView, name: Seq<char>)
    requires
        table.lookup(name).is_some(),
        table.level <= later.level,
        table.entries.len() <= later.entries.len(),
        later.entries.take(table.entries.len() as int) == table.entries,
    ensures
        later.lookup(name).is_some(),
{
    let count = table.entries.len() as int;
    assert(later.entries == table.entries + later.entries.skip(count));
    lemma_first_visible_stays(
        table.entries,
        later.entries.skip(count),
        name,
        table.level,
        later.level,
    );
}

/// A name that was never declared does not resolve.
pub proof fn lemma_undeclared_unresolved(table: TableView, name: Seq<char>)
    requires
        forall|i: int| 0 <= i < table.entries.len() ==> (#[trigger] table.entries[i]).name != name,
    ensures
        table.lookup(name).is_none(),
{
    lemma_first_visible_needs_entry(table.entries, name, table.level);
}

} // verus!
