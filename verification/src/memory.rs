//! A store that keeps its tables in memory.

use crate::api::{apply_change, apply_changes, bytes_of, change_table, changes_fit};
use crate::api::{is_prefix_scan, Change, Contents, Entries, ScanItem};
use crate::api::{PrefixIterator, PrefixResult, StorageBackend, StorageLockedView};
use crate::api::{StorageReadView, StoreError, WriteBatch, WriteOp};
use crate::batch::lemma_apply_keeps_tables;
use crate::bytes::{before, has_prefix, lemma_before_asymmetric};
use crate::ordered::{found_at, in_order, ByteMap, ByteScan};
use crate::scan::{confined, lemma_confined_is_scan};
use crate::tables::{same_name, TABLES};
use vstd::prelude::*;
use vstd::slice::slice_to_vec;

verus! {

/// One table and its name.
pub type NamedTable = (&'static str, ByteMap<Vec<u8>>);

/// The entries of a table.
pub open spec fn entries_of(map: Map<Seq<u8>, Vec<u8>>) -> Entries {
    map.map_values(|value: Vec<u8>| value@)
}

/// The table at position `i` has this name.
pub open spec fn named(tables: Seq<NamedTable>, name: Seq<char>, i: int) -> bool {
    0 <= i < tables.len() && tables[i].0@ == name
}

/// No two tables have the same name.
pub open spec fn distinct_names(tables: Seq<NamedTable>) -> bool {
    forall|i: int, j: int|
        0 <= i < j < tables.len() ==> (#[trigger] tables[i]).0@ != (#[trigger] tables[j]).0@
}

/// What tables with different names hold.
pub open spec fn contents_of(tables: Seq<NamedTable>) -> Contents {
    Map::new(
        |name: Seq<char>| exists|i: int| named(tables, name, i),
        |name: Seq<char>| entries_of(tables[choose|i: int| named(tables, name, i)].1@),
    )
}

/// A store that keeps its tables in memory and never fails.
pub struct InMemoryBackend {
    tables: Vec<NamedTable>,
}

proof fn lemma_named_once(tables: Seq<NamedTable>, name: Seq<char>, i: int)
    requires
        distinct_names(tables),
        named(tables, name, i),
    ensures
        contents_of(tables).contains_key(name),
        contents_of(tables)[name] == entries_of(tables[i].1@),
{
    let j = choose|j: int| named(tables, name, j);
    assert(named(tables, name, j));
    if i < j {
        assert(tables[i].0@ != tables[j].0@);
    } else if j < i {
        assert(tables[j].0@ != tables[i].0@);
    }
}

/// Replacing the entries of one table.
proof fn lemma_table_replaced(
    tables: Seq<NamedTable>,
    tables1: Seq<NamedTable>,
    i: int,
)
    requires
        distinct_names(tables),
        0 <= i < tables.len(),
        tables1.len() == tables.len(),
        tables1[i].0@ == tables[i].0@,
        forall|j: int| 0 <= j < tables.len() && j != i ==> #[trigger] tables1[j] == tables[j],
    ensures
        distinct_names(tables1),
        contents_of(tables1) == contents_of(tables).insert(
            tables[i].0@,
            entries_of(tables1[i].1@),
        ),
{
    assert forall|a: int, b: int| 0 <= a < b < tables1.len() implies (#[trigger] tables1[a]).0@
        != (#[trigger] tables1[b]).0@ by {
        assert(tables[a].0@ != tables[b].0@);
    }
    let before = contents_of(tables);
    let after = contents_of(tables1);
    let target = before.insert(tables[i].0@, entries_of(tables1[i].1@));
    assert forall|name: Seq<char>| #[trigger] after.dom().contains(name) == target.dom().contains(
        name,
    ) && (after.dom().contains(name) ==> after[name] == target[name]) by {
        if after.contains_key(name) {
            let j = choose|j: int| named(tables1, name, j);
            assert(named(tables, name, j));
            lemma_named_once(tables1, name, j);
            lemma_named_once(tables, name, j);
            if j != i {
                if j < i {
                    assert(tables[j].0@ != tables[i].0@);
                } else {
                    assert(tables[i].0@ != tables[j].0@);
                }
            }
        }
        if target.contains_key(name) {
            if name == tables[i].0@ {
                assert(named(tables1, name, i));
            } else {
                let j = choose|j: int| named(tables, name, j);
                assert(named(tables1, name, j));
            }
        }
    }
    assert(after =~= target);
}

impl InMemoryBackend {
    #[verifier::type_invariant]
    spec fn distinct(self) -> bool {
        distinct_names(self.tables@)
    }

    /// A store with every table, all empty.
    pub fn open() -> (r: Self)
        ensures
            r.contents() == empty_tables(TABLES@),
    {
        Self::open_with_tables(TABLES.as_slice())
    }

    /// A store with these tables, all empty.
    pub fn open_with_tables(tables: &[&'static str]) -> (r: Self)
        ensures
            r.contents() == empty_tables(tables@),
    {
        let mut opened: Vec<NamedTable> = Vec::new();
        let mut i: usize = 0;
        assert(contents_of(opened@) =~= empty_tables(tables@.subrange(0, 0)));
        while i < tables.len()
            invariant
                i <= tables@.len(),
                distinct_names(opened@),
                contents_of(opened@) == empty_tables(tables@.subrange(0, i as int)),
            decreases tables@.len() - i,
        {
            let ghost names = tables@.subrange(0, i as int);
            let name = tables[i];
            i += 1;
            proof {
                assert(tables@.subrange(0, i as int) =~= names.push(name));
                lemma_one_more_name(names, name);
            }
            match find_table(&opened, name) {
                Some(at) => {
                    assert(contents_of(opened@).insert(name@, Map::empty()) =~= contents_of(
                        opened@,
                    ));
                },
                None => {
                    let ghost before = opened@;
                    opened.push((name, ByteMap::new()));
                    proof {
                        assert(opened@.drop_last() =~= before);
                        lemma_table_added(before, opened@);
                        assert(entries_of(opened@.last().1@) =~= Map::empty());
                    }
                },
            }
        }
        assert(tables@.subrange(0, i as int) =~= tables@);
        InMemoryBackend { tables: opened }
    }
}

/// The contents of a store whose tables have these names and no entries.
pub open spec fn empty_tables(names: Seq<&'static str>) -> Contents {
    Map::new(
        |name: Seq<char>| exists|i: int| 0 <= i < names.len() && (#[trigger] names[i])@ == name,
        |name: Seq<char>| Map::empty(),
    )
}

proof fn lemma_one_more_name(names: Seq<&'static str>, name: &'static str)
    ensures
        empty_tables(names.push(name)) == empty_tables(names).insert(name@, Map::empty()),
{
    let after = empty_tables(names.push(name));
    let target = empty_tables(names).insert(name@, Map::empty());
    assert forall|n: Seq<char>| #[trigger] after.dom().contains(n) == target.dom().contains(n) by {
        if after.contains_key(n) {
            let i = choose|i: int|
                0 <= i < names.push(name).len() && (#[trigger] names.push(name)[i])@ == n;
            if i < names.len() {
                assert(names[i]@ == n);
            }
        }
        if target.contains_key(n) {
            if n == name@ {
                assert(names.push(name)[names.len() as int]@ == n);
            } else {
                let i = choose|i: int| 0 <= i < names.len() && (#[trigger] names[i])@ == n;
                assert(names.push(name)[i]@ == n);
            }
        }
    }
    assert(after =~= target);
}

proof fn lemma_table_added(tables: Seq<NamedTable>, tables1: Seq<NamedTable>)
    requires
        distinct_names(tables),
        tables1.len() == tables.len() + 1,
        tables1.drop_last() == tables,
        !contents_of(tables).contains_key(tables1.last().0@),
    ensures
        distinct_names(tables1),
        contents_of(tables1) == contents_of(tables).insert(
            tables1.last().0@,
            entries_of(tables1.last().1@),
        ),
{
    let n = tables.len() as int;
    assert forall|i: int| 0 <= i < n implies #[trigger] tables1[i] == tables[i] by {
        assert(tables1.drop_last()[i] == tables[i]);
    }
    assert forall|i: int, j: int| 0 <= i < j < tables1.len() implies (#[trigger] tables1[i]).0@
        != (#[trigger] tables1[j]).0@ by {
        if j == n {
            assert(named(tables, tables[i].0@, i));
            lemma_named_once(tables, tables[i].0@, i);
        } else {
            assert(tables[i].0@ != tables[j].0@);
        }
    }
    let after = contents_of(tables1);
    let target = contents_of(tables).insert(tables1[n].0@, entries_of(tables1[n].1@));
    assert forall|name: Seq<char>| #[trigger] after.dom().contains(name) == target.dom().contains(
        name,
    ) && (after.dom().contains(name) ==> after[name] == target[name]) by {
        if after.contains_key(name) {
            let j = choose|j: int| named(tables1, name, j);
            lemma_named_once(tables1, name, j);
            if j < n {
                assert(named(tables, name, j));
                lemma_named_once(tables, name, j);
            }
        }
        if target.contains_key(name) {
            if name == tables1[n].0@ {
                assert(named(tables1, name, n));
            } else {
                let j = choose|j: int| named(tables, name, j);
                assert(named(tables1, name, j));
            }
        }
    }
    assert(after =~= target);
}

/// The position of the table with this name.
fn find_table(tables: &Vec<NamedTable>, name: &'static str) -> (r: Option<usize>)
    requires
        distinct_names(tables@),
    ensures
        match r {
            Some(i) => named(tables@, name@, i as int) && contents_of(tables@).contains_key(name@)
                && contents_of(tables@)[name@] == entries_of(tables@[i as int].1@),
            None => !contents_of(tables@).contains_key(name@),
        },
{
    let mut i: usize = 0;
    while i < tables.len()
        invariant
            i <= tables@.len(),
            distinct_names(tables@),
            forall|j: int| 0 <= j < i ==> (#[trigger] tables@[j]).0@ != name@,
        decreases tables@.len() - i,
    {
        if same_name(tables[i].0, name) {
            proof {
                assert(named(tables@, name@, i as int));
                lemma_named_once(tables@, name@, i as int);
            }
            return Some(i);
        }
        i += 1;
    }
    None
}

/// Reads over a store in memory.
pub struct MemoryReadView<'a> {
    store: &'a InMemoryBackend,
}

/// Reads over one table in memory.
pub struct MemoryLockedView<'a> {
    table: &'a ByteMap<Vec<u8>>,
}

/// A scan of a table in memory.
pub struct MemoryIterator<'a> {
    scan: ByteScan<'a, Vec<u8>>,
}

impl<'a> PrefixIterator for MemoryIterator<'a> {
    closed spec fn remaining(&self) -> Seq<ScanItem> {
        self.scan.rest().map_values(|pair: (Vec<u8>, Vec<u8>)| ScanItem::Entry(pair.0@, pair.1@))
    }

    fn next(&mut self) -> (r: Option<PrefixResult>) {
        match self.scan.next() {
            Some(pair) => {
                assert(self.remaining() =~= old(self).remaining().skip(1));
                Some(Ok((slice_to_vec(pair.0.as_slice()), slice_to_vec(pair.1.as_slice()))))
            },
            None => None,
        }
    }
}

/// The value under `key` of a table in memory.
fn read_table(table: &ByteMap<Vec<u8>>, key: &[u8]) -> (r: Option<Vec<u8>>)
    ensures
        bytes_of(r) == (if entries_of(table@).contains_key(key@) {
            Some(entries_of(table@)[key@])
        } else {
            None
        }),
{
    match table.get(key) {
        Some(value) => Some(slice_to_vec(value.as_slice())),
        None => None,
    }
}

impl<'a> StorageReadView for MemoryReadView<'a> {
    type Iter = MemoryIterator<'a>;

    closed spec fn contents(&self) -> Contents {
        contents_of(self.store.tables@)
    }

    open spec fn infallible(&self) -> bool {
        true
    }

    open spec fn bounded_scans(&self) -> bool {
        true
    }

    open spec fn reports(&self, e: StoreError) -> bool {
        e matches StoreError::TableNotFound(name) && !self.contents().contains_key(name@)
    }

    fn get(&self, table: &'static str, key: &[u8]) -> (r: Result<Option<Vec<u8>>, StoreError>)
        ensures
            r matches Err(e) ==> (e matches StoreError::TableNotFound(name) && name@ == table@),
    {
        proof {
            use_type_invariant(self.store);
        }
        match find_table(&self.store.tables, table) {
            Some(i) => Ok(read_table(&self.store.tables[i].1, key)),
            None => Err(StoreError::TableNotFound(table)),
        }
    }

    fn prefix_iterator(&self, table: &'static str, prefix: &[u8]) -> (r: Result<
        MemoryIterator<'a>,
        StoreError,
    >)
        ensures
            r matches Ok(iter) ==> confined(iter.remaining(), prefix@),
            r matches Ok(iter) ==> forall|i: int, j: int|
                0 <= i < j < iter.remaining().len() ==> before(
                    (#[trigger] iter.remaining()[i])->Entry_0,
                    (#[trigger] iter.remaining()[j])->Entry_0,
                ),
            r matches Err(e) ==> (e matches StoreError::TableNotFound(name) && name@ == table@),
    {
        proof {
            use_type_invariant(self.store);
        }
        match find_table(&self.store.tables, table) {
            Some(i) => {
                let scan = self.store.tables[i].1.scan(prefix);
                let iter = MemoryIterator { scan };
                proof {
                    lemma_memory_scan(self.store.tables@[i as int].1@, scan.rest(), prefix@);
                }
                Ok(iter)
            },
            None => Err(StoreError::TableNotFound(table)),
        }
    }
}

/// The entries under a prefix, in key order, are a scan.
proof fn lemma_memory_scan(
    map: Map<Seq<u8>, Vec<u8>>,
    pairs: Seq<(Vec<u8>, Vec<u8>)>,
    prefix: Seq<u8>,
)
    requires
        in_order(pairs),
        forall|i: int|
            0 <= i < pairs.len() ==> {
                let key = (#[trigger] pairs[i]).0@;
                has_prefix(key, prefix) && map.contains_key(key) && map[key] == pairs[i].1
            },
        forall|key: Seq<u8>| #[trigger]
            map.contains_key(key) && has_prefix(key, prefix) ==> exists|i: int|
                found_at(pairs, key, i),
    ensures
        ({
            let items = pairs.map_values(
                |pair: (Vec<u8>, Vec<u8>)| ScanItem::Entry(pair.0@, pair.1@),
            );
            confined(items, prefix) && is_prefix_scan(entries_of(map), prefix, items)
        }),
{
    let items = pairs.map_values(|pair: (Vec<u8>, Vec<u8>)| ScanItem::Entry(pair.0@, pair.1@));
    let entries = entries_of(map);
    assert forall|i: int, j: int| 0 <= i < j < items.len() implies (#[trigger] items[i])->Entry_0
        != (#[trigger] items[j])->Entry_0 by {
        lemma_before_asymmetric(pairs[i].0@, pairs[j].0@);
    }
    assert forall|k: Seq<u8>| #[trigger] entries.contains_key(k) && has_prefix(
        k,
        prefix,
    ) implies exists|i: int| 0 <= i < items.len() && (#[trigger] items[i])->Entry_0 == k by {
        assert(map.contains_key(k));
        let i = choose|i: int| found_at(pairs, k, i);
        assert(items[i]->Entry_0 == k);
    }
    assert forall|i: int| 0 <= i < items.len() implies entries.contains_key(
        (#[trigger] items[i])->Entry_0,
    ) && entries[items[i]->Entry_0] == items[i]->Entry_1 by {
        assert(map.contains_key(pairs[i].0@));
    }
    lemma_confined_is_scan(entries, items, prefix);
}

impl<'a> StorageLockedView for MemoryLockedView<'a> {
    closed spec fn entries(&self) -> Entries {
        entries_of(self.table@)
    }

    open spec fn infallible(&self) -> bool {
        true
    }

    open spec fn reports(&self, e: StoreError) -> bool {
        false
    }

    fn get(&self, key: &[u8]) -> (r: Result<Option<Vec<u8>>, StoreError>) {
        Ok(read_table(self.table, key))
    }
}

/// Makes one change to tables in memory.
fn apply_op(tables: &mut Vec<NamedTable>, op: &WriteOp)
    requires
        distinct_names(old(tables)@),
        contents_of(old(tables)@).contains_key(change_table(op@)),
    ensures
        distinct_names(final(tables)@),
        contents_of(final(tables)@) == apply_change(contents_of(old(tables)@), op@),
{
    let ghost before = tables@;
    match op {
        WriteOp::Put { table, key, value } => {
            if let Some(i) = find_table(tables, table) {
                let ghost map = tables@[i as int].1@;
                tables[i].1.insert(slice_to_vec(key.as_slice()), slice_to_vec(value.as_slice()));
                proof {
                    lemma_table_replaced(before, tables@, i as int);
                    assert(entries_of(tables@[i as int].1@) =~= entries_of(map).insert(
                        key@,
                        value@,
                    ));
                }
            }
        },
        WriteOp::Delete { table, key } => {
            if let Some(i) = find_table(tables, table) {
                let ghost map = tables@[i as int].1@;
                tables[i].1.remove(key.as_slice());
                proof {
                    lemma_table_replaced(before, tables@, i as int);
                    assert(entries_of(tables@[i as int].1@) =~= entries_of(map).remove(key@));
                }
            }
        },
    }
}

impl InMemoryBackend {
    /// Finds a table that the changes name and the store does not have.
    fn missing_table(&self, ops: &Vec<WriteOp>) -> (r: Option<&'static str>)
        ensures
            match r {
                Some(name) => !self.contents().contains_key(name@) && exists|i: int|
                    0 <= i < ops@.len() && change_table((#[trigger] ops@[i])@) == name@,
                None => forall|i: int|
                    0 <= i < ops@.len() ==> self.contents().contains_key(
                        change_table((#[trigger] ops@[i])@),
                    ),
            },
    {
        proof {
            use_type_invariant(self);
        }
        let mut i: usize = 0;
        while i < ops.len()
            invariant
                i <= ops@.len(),
                distinct_names(self.tables@),
                forall|j: int|
                    0 <= j < i ==> self.contents().contains_key(change_table((#[trigger] ops@[j])@)),
            decreases ops@.len() - i,
        {
            let name: &'static str = match &ops[i] {
                WriteOp::Put { table, .. } => table,
                WriteOp::Delete { table, .. } => table,
            };
            assert(change_table(ops@[i as int]@) == name@);
            if find_table(&self.tables, name).is_none() {
                return Some(name);
            }
            i += 1;
        }
        None
    }
}

impl StorageBackend for InMemoryBackend {
    type ReadView<'a> = MemoryReadView<'a>;

    type LockedView<'a> = MemoryLockedView<'a>;

    closed spec fn contents(&self) -> Contents {
        contents_of(self.tables@)
    }

    open spec fn infallible(&self) -> bool {
        true
    }

    open spec fn reports(&self, e: StoreError) -> bool {
        e matches StoreError::TableNotFound(name) && !self.contents().contains_key(name@)
    }

    fn clear_table(&mut self, table: &'static str) -> (r: Result<(), StoreError>)
        ensures
            r matches Err(e) ==> final(self).contents() == old(self).contents() && (
            e matches StoreError::TableNotFound(name) && name@ == table@),
    {
        proof {
            use_type_invariant(&*self);
        }
        match find_table(&self.tables, table) {
            Some(i) => {
                let mut tables: Vec<NamedTable> = Vec::new();
                std::mem::swap(&mut tables, &mut self.tables);
                let ghost before = tables@;
                tables[i].1 = ByteMap::new();
                proof {
                    lemma_table_replaced(before, tables@, i as int);
                    assert(entries_of(tables@[i as int].1@) =~= Map::empty());
                }
                self.tables = tables;
                Ok(())
            },
            None => Err(StoreError::TableNotFound(table)),
        }
    }

    fn begin_read<'a>(&'a self) -> (r: Result<MemoryReadView<'a>, StoreError>) {
        Ok(MemoryReadView { store: self })
    }

    fn begin_write(&self) -> (r: Result<WriteBatch, StoreError>) {
        Ok(WriteBatch::new())
    }

    fn commit(&mut self, batch: WriteBatch) -> (r: Result<(), StoreError>)
        ensures
            r matches Err(e) ==> final(self).contents() == old(self).contents() && (
            e matches StoreError::TableNotFound(name) && !old(self).contents().contains_key(name@)),
    {
        if let Some(name) = self.missing_table(&batch.ops) {
            proof {
                let i = choose|i: int|
                    0 <= i < batch.ops@.len() && change_table((#[trigger] batch.ops@[i])@) == name@;
                assert(change_table(batch@[i]) == name@);
            }
            return Err(StoreError::TableNotFound(name));
        }
        proof {
            use_type_invariant(&*self);
            assert(changes_fit(self.contents(), batch@)) by {
                assert forall|i: int| 0 <= i < batch@.len() implies self.contents().contains_key(
                    change_table(#[trigger] batch@[i]),
                ) by {
                    assert(batch@[i] == batch.ops@[i]@);
                }
            }
        }
        let mut tables: Vec<NamedTable> = Vec::new();
        std::mem::swap(&mut tables, &mut self.tables);
        let ghost before = contents_of(tables@);
        let mut i: usize = 0;
        assert(batch@.subrange(0, 0) =~= Seq::<Change>::empty());
        while i < batch.ops.len()
            invariant
                i <= batch.ops@.len(),
                changes_fit(before, batch@),
                distinct_names(tables@),
                contents_of(tables@) == apply_changes(before, batch@.subrange(0, i as int)),
            decreases batch.ops@.len() - i,
        {
            proof {
                let done = batch@.subrange(0, i as int);
                assert(changes_fit(before, done)) by {
                    assert forall|j: int| 0 <= j < done.len() implies before.contains_key(
                        change_table(#[trigger] done[j]),
                    ) by {
                        assert(done[j] == batch@[j]);
                    }
                }
                lemma_apply_keeps_tables(before, done);
                assert(batch@[i as int] == batch.ops@[i as int]@);
                assert(before.contains_key(change_table(batch@[i as int])));
                assert(contents_of(tables@).dom().contains(change_table(batch@[i as int])));
                assert(batch@.subrange(0, i + 1).drop_last() =~= done);
            }
            apply_op(&mut tables, &batch.ops[i]);
            i += 1;
        }
        assert(batch@.subrange(0, i as int) =~= batch@);
        self.tables = tables;
        proof {
            lemma_apply_keeps_tables(before, batch@);
            assert(self.contents().dom() == old(self).contents().dom());
        }
        Ok(())
    }

    fn begin_locked<'a>(&'a self, table: &'static str) -> (r: Result<
        MemoryLockedView<'a>,
        StoreError,
    >)
        ensures
            r matches Err(e) ==> (e matches StoreError::TableNotFound(name) && name@ == table@),
    {
        proof {
            use_type_invariant(self);
        }
        match find_table(&self.tables, table) {
            Some(i) => Ok(MemoryLockedView { table: &self.tables[i].1 }),
            None => Err(StoreError::TableNotFound(table)),
        }
    }
}

} // verus!
