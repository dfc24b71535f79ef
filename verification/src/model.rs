//! The in-memory document model: a format variant, one main string table, and
//! zero or more named auxiliary tables.  The parser produces it, the compiler
//! consumes it; it carries no behaviour beyond construction and lookup.

use vstd::prelude::*;
use crate::format::GXTFileFormat;
use crate::strutil::str_eq;

verus! {

/// An ordered mapping from display names to string values.  The key is the
/// string's name (or its `#XXXXXXXX` hash literal), the value is the string
/// itself, mapped to UTF-8.  Names are unique within a table; the stored order
/// is meaningful and is preserved by compilation.
#[derive(Debug, PartialEq)]
pub struct GXTStringTable {
    /// The entries, in table order: pairs of name and value.
    pub data: Vec<(String, String)>,
}

/// The value of the first entry named `name`, if any.
pub open spec fn spec_table_find(entries: Seq<(String, String)>, name: Seq<char>) -> Option<
    Seq<char>,
>
    decreases entries.len(),
{
    if entries.len() == 0 {
        None
    } else if entries[0].0@ == name {
        Some(entries[0].1@)
    } else {
        spec_table_find(entries.drop_first(), name)
    }
}

/// Whether some entry is named `name`.
pub open spec fn spec_table_contains(entries: Seq<(String, String)>, name: Seq<char>) -> bool {
    spec_table_find(entries, name) is Some
}

/// Entries after inserting `name = value`: an existing entry with that name is
/// replaced in place, keeping its position; a new name is appended.
pub open spec fn spec_table_insert(
    entries: Seq<(String, String)>,
    name: String,
    value: String,
) -> Seq<(String, String)>
    decreases entries.len(),
{
    if entries.len() == 0 {
        seq![(name, value)]
    } else if entries[0].0@ == name@ {
        seq![(name, value)] + entries.drop_first()
    } else {
        seq![entries[0]] + spec_table_insert(entries.drop_first(), name, value)
    }
}

/// Inserting a fresh name appends it.
proof fn lemma_table_insert_miss(entries: Seq<(String, String)>, name: String, value: String)
    requires
        forall|j: int| 0 <= j < entries.len() ==> (#[trigger] entries[j]).0@ != name@,
    ensures
        spec_table_insert(entries, name, value) == entries.push((name, value)),
    decreases entries.len(),
{
    if entries.len() == 0 {
        assert(seq![(name, value)] =~= entries.push((name, value)));
    } else {
        lemma_table_insert_miss(entries.drop_first(), name, value);
        assert(seq![entries[0]] + entries.drop_first().push((name, value)) =~= entries.push(
            (name, value),
        ));
    }
}

/// Inserting an existing name replaces its entry in place.
proof fn lemma_table_insert_hit(
    entries: Seq<(String, String)>,
    name: String,
    value: String,
    i: int,
)
    requires
        0 <= i < entries.len(),
        entries[i].0@ == name@,
        forall|j: int| 0 <= j < i ==> (#[trigger] entries[j]).0@ != name@,
    ensures
        spec_table_insert(entries, name, value) == entries.update(i, (name, value)),
    decreases i,
{
    if i == 0 {
        assert(seq![(name, value)] + entries.drop_first() =~= entries.update(0, (name, value)));
    } else {
        lemma_table_insert_hit(entries.drop_first(), name, value, i - 1);
        assert(seq![entries[0]] + entries.drop_first().update(i - 1, (name, value))
            =~= entries.update(i, (name, value)));
    }
}

impl GXTStringTable {
    /// Names are unique within a table.
    pub open spec fn wf(&self) -> bool {
        forall|i: int, j: int|
            0 <= i < j < self.data@.len() ==> (#[trigger] self.data@[i]).0@ != (
            #[trigger] self.data@[j]).0@
    }

    /// Creates an empty table.
    pub fn new() -> (r: GXTStringTable)
        ensures
            r.data@.len() == 0,
            r.wf(),
    {
        GXTStringTable { data: Vec::new() }
    }

    /// The number of entries.
    pub fn len(&self) -> (r: usize)
        ensures
            r == self.data@.len(),
    {
        self.data.len()
    }

    /// The value stored under `name`, if any.
    pub fn get(&self, name: &str) -> (r: Option<&String>)
        ensures
            match r {
                Some(v) => spec_table_find(self.data@, name@) == Some(v@),
                None => spec_table_find(self.data@, name@) is None,
            },
    {
        let n = self.data.len();
        let mut i: usize = 0;
        proof {
            assert(self.data@.skip(0) =~= self.data@);
        }
        while i < n
            invariant
                n == self.data@.len(),
                i <= n,
                spec_table_find(self.data@.skip(i as int), name@) == spec_table_find(
                    self.data@,
                    name@,
                ),
            decreases n - i,
        {
            let entry = &self.data[i];
            proof {
                assert(self.data@.skip(i as int)[0] == self.data@[i as int]);
                assert(self.data@.skip(i as int).drop_first() =~= self.data@.skip(i as int + 1));
            }
            if str_eq(entry.0.as_str(), name) {
                return Some(&entry.1);
            }
            i = i + 1;
        }
        proof {
            assert(self.data@.skip(n as int) =~= Seq::<(String, String)>::empty());
        }
        None
    }

    /// The index of the first entry named `name`, or the table length when
    /// there is none.
    fn find_index(&self, name: &str) -> (r: usize)
        ensures
            r <= self.data@.len(),
            forall|j: int| 0 <= j < r ==> (#[trigger] self.data@[j]).0@ != name@,
            r < self.data@.len() ==> self.data@[r as int].0@ == name@,
    {
        let n = self.data.len();
        let mut i: usize = 0;
        while i < n
            invariant
                n == self.data@.len(),
                i <= n,
                forall|j: int| 0 <= j < i ==> (#[trigger] self.data@[j]).0@ != name@,
            decreases n - i,
        {
            if str_eq(self.data[i].0.as_str(), name) {
                return i;
            }
            i = i + 1;
        }
        n
    }

    /// Inserts `name = value`: replaces the value of an existing entry in
    /// place, or appends a new entry.  Preserves uniqueness of names.
    pub fn insert(&mut self, name: String, value: String)
        ensures
            final(self).data@ == spec_table_insert(old(self).data@, name, value),
            old(self).wf() ==> final(self).wf(),
    {
        let ghost od = self.data@;
        let n = self.data.len();
        let idx = self.find_index(name.as_str());
        if idx < n {
            proof {
                lemma_table_insert_hit(od, name, value, idx as int);
            }
            self.data[idx] = (name, value);
            proof {
                assert(self.data@ =~= od.update(idx as int, (name, value)));
                if old(self).wf() {
                    assert forall|a: int, b: int|
                        0 <= a < b < self.data@.len() implies (#[trigger] self.data@[a]).0@ != (
                    #[trigger] self.data@[b]).0@ by {
                        assert(od[a].0@ != od[b].0@);
                        if a == idx {
                            assert(self.data@[a].0@ == name@ && name@ == od[a].0@);
                        }
                        if b == idx {
                            assert(self.data@[b].0@ == name@ && name@ == od[b].0@);
                        }
                    }
                }
            }
        } else {
            proof {
                lemma_table_insert_miss(od, name, value);
            }
            self.data.push((name, value));
            proof {
                if old(self).wf() {
                    assert forall|a: int, b: int|
                        0 <= a < b < self.data@.len() implies (#[trigger] self.data@[a]).0@ != (
                    #[trigger] self.data@[b]).0@ by {
                        if b < od.len() {
                            assert(od[a].0@ != od[b].0@);
                        } else {
                            assert(od[a].0@ != name@);
                        }
                    }
                }
            }
        }
    }
}

/// A GXT document: the format variant it was read from or will be compiled
/// to, the main table, and the named auxiliary tables.
#[derive(Debug, PartialEq)]
pub struct GXTFile {
    /// Specifies the format used when decompiling or compiling the GXT file.
    pub format: GXTFileFormat,
    /// The "main" table.  In the single-table variant this is the only table;
    /// in all other variants it is the first table in the file.
    pub main_table: GXTStringTable,
    /// The "auxiliary" tables, in table-of-contents order, each with its name.
    /// This container must be empty for the single-table variant.
    pub aux_tables: Vec<(String, GXTStringTable)>,
}

impl GXTFile {
    /// The document invariant: every table has unique names, auxiliary table
    /// names are unique, and the single-table variant has no auxiliary tables.
    pub open spec fn wf(&self) -> bool {
        &&& self.main_table.wf()
        &&& forall|k: int|
            0 <= k < self.aux_tables@.len() ==> (#[trigger] self.aux_tables@[k]).1.wf()
        &&& forall|i: int, j: int|
            0 <= i < j < self.aux_tables@.len() ==> (#[trigger] self.aux_tables@[i]).0@ != (
            #[trigger] self.aux_tables@[j]).0@
        &&& self.format == GXTFileFormat::Three ==> self.aux_tables@.len() == 0
    }
}

} // verus!
