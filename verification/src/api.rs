//! What a key-value store offers: reads over a fixed state, and batches of
//! changes that are committed together.

use crate::bytes::{has_prefix, has_suffix};
use vstd::prelude::*;

verus! {

/// The entries of one table.
pub type Entries = Map<Seq<u8>, Seq<u8>>;

/// The entries of a store, by table name.
pub type Contents = Map<Seq<char>, Entries>;

/// Why a store could not do what it was asked.
#[derive(Debug, PartialEq, Eq)]
pub enum StoreError {
    /// The store has no table of this name.
    TableNotFound(&'static str),
    /// Any other failure, in words.
    Custom(String),
}

/// One step of a scan: an entry, or the failure to read it.
pub type PrefixResult = Result<(Vec<u8>, Vec<u8>), StoreError>;

/// What one step of a scan stands for.
pub enum ScanItem {
    Entry(Seq<u8>, Seq<u8>),
    Failure(StoreError),
}

/// The steps of a scan.
pub type ScanItems = Seq<ScanItem>;

/// What a step of a scan stands for.
pub open spec fn scan_item(r: PrefixResult) -> ScanItem {
    match r {
        Ok(entry) => ScanItem::Entry(entry.0@, entry.1@),
        Err(e) => ScanItem::Failure(e),
    }
}

/// The value under `key` of `table`, if there is one.
pub open spec fn lookup(contents: Contents, table: Seq<char>, key: Seq<u8>) -> Option<Seq<u8>> {
    if contents.contains_key(table) && contents[table].contains_key(key) {
        Some(contents[table][key])
    } else {
        None
    }
}

/// The bytes of a value, if there is one.
pub open spec fn bytes_of(v: Option<Vec<u8>>) -> Option<Seq<u8>> {
    match v {
        Some(bytes) => Some(bytes@),
        None => None,
    }
}

/// The entries whose keys begin with `prefix`.
pub open spec fn with_prefix(entries: Entries, prefix: Seq<u8>) -> Entries {
    entries.restrict(Set::new(|k: Seq<u8>| has_prefix(k, prefix)))
}

/// The entries whose keys end with `suffix`.
pub open spec fn with_suffix(entries: Entries, suffix: Seq<u8>) -> Entries {
    entries.restrict(Set::new(|k: Seq<u8>| has_suffix(k, suffix)))
}

/// The entries of a scan up to the first item that is not an entry under `prefix`.
pub open spec fn leading_entries(items: Seq<ScanItem>, prefix: Seq<u8>) -> Entries
    decreases items.len(),
{
    if items.len() == 0 {
        Map::empty()
    } else {
        match items[0] {
            ScanItem::Entry(k, v) => if has_prefix(k, prefix) {
                leading_entries(items.skip(1), prefix).insert(k, v)
            } else {
                Map::empty()
            },
            ScanItem::Failure(_) => Map::empty(),
        }
    }
}

/// The failure that ends the leading entries of a scan, if one does.
pub open spec fn leading_failure(items: Seq<ScanItem>, prefix: Seq<u8>) -> Option<StoreError>
    decreases items.len(),
{
    if items.len() == 0 {
        None
    } else {
        match items[0] {
            ScanItem::Entry(k, _) => if has_prefix(k, prefix) {
                leading_failure(items.skip(1), prefix)
            } else {
                None
            },
            ScanItem::Failure(e) => Some(e),
        }
    }
}

/// `items` is a scan of `entries` under `prefix`: it yields entries of the table,
/// each once, those under the prefix first and without omission unless a read
/// fails among them. Past them a scan may run on into the rest of the table.
pub open spec fn is_prefix_scan(entries: Entries, prefix: Seq<u8>, items: Seq<ScanItem>) -> bool {
    &&& forall|i: int|
        0 <= i < items.len() ==> match #[trigger] items[i] {
            ScanItem::Entry(k, v) => entries.contains_key(k) && entries[k] == v,
            ScanItem::Failure(_) => true,
        }
    &&& forall|i: int, j: int|
        0 <= i < j < items.len() && #[trigger] items[i] is Entry && #[trigger] items[j] is Entry
            ==> items[i]->Entry_0 != items[j]->Entry_0
    &&& leading_failure(items, prefix) is None ==> leading_entries(items, prefix) == with_prefix(
        entries,
        prefix,
    )
}

/// A scan in progress.
pub trait PrefixIterator {
    /// The items that are still to come.
    spec fn remaining(&self) -> ScanItems;

    /// Hands out the next item.
    fn next(&mut self) -> (r: Option<PrefixResult>)
        ensures
            old(self).remaining().len() == 0 ==> r is None && final(self).remaining()
                == old(self).remaining(),
            old(self).remaining().len() > 0 ==> r is Some && scan_item(r->0) == old(
                self,
            ).remaining()[0] && final(self).remaining() == old(self).remaining().skip(1),
    ;
}

/// Reads over one state of a store.
pub trait StorageReadView {
    type Iter: PrefixIterator;

    /// The state that is read.
    spec fn contents(&self) -> Contents;

    /// No read of a table that the store has fails.
    spec fn infallible(&self) -> bool;

    /// No scan runs past the entries under its prefix.
    spec fn bounded_scans(&self) -> bool;

    /// The failures that reads may report.
    spec fn reports(&self, e: StoreError) -> bool;

    /// The value under `key` of `table`, if there is one.
    fn get(&self, table: &'static str, key: &[u8]) -> (r: Result<Option<Vec<u8>>, StoreError>)
        ensures
            r matches Ok(v) ==> self.contents().contains_key(table@) && bytes_of(v) == lookup(
                self.contents(),
                table@,
                key@,
            ),
            r matches Err(e) ==> self.reports(e),
            self.infallible() && self.contents().contains_key(table@) ==> r is Ok,
    ;

    /// A scan of the entries of `table` whose keys begin with `prefix`.
    fn prefix_iterator(&self, table: &'static str, prefix: &[u8]) -> (r: Result<
        Self::Iter,
        StoreError,
    >)
        ensures
            r matches Ok(iter) ==> self.contents().contains_key(table@) && is_prefix_scan(
                self.contents()[table@],
                prefix@,
                iter.remaining(),
            ),
            self.infallible() && self.contents().contains_key(table@) ==> r is Ok,
            self.infallible() ==> (r matches Ok(iter) ==> forall|i: int|
                0 <= i < iter.remaining().len() ==> #[trigger] iter.remaining()[i] is Entry),
            self.bounded_scans() ==> (r matches Ok(iter) ==> forall|i: int|
                0 <= i < iter.remaining().len() && (#[trigger] iter.remaining()[i]) is Entry
                    ==> has_prefix(iter.remaining()[i]->Entry_0, prefix@)),
            r matches Err(e) ==> self.reports(e),
            r matches Ok(iter) ==> forall|i: int|
                0 <= i < iter.remaining().len() && (#[trigger] iter.remaining()[i]) is Failure
                    ==> self.reports(iter.remaining()[i]->Failure_0),
    ;
}

/// Reads over one table of a store.
pub trait StorageLockedView {
    /// The table that is read.
    spec fn entries(&self) -> Entries;

    /// No read fails.
    spec fn infallible(&self) -> bool;

    /// The failures that reads may report.
    spec fn reports(&self, e: StoreError) -> bool;

    /// The value under `key`, if there is one.
    fn get(&self, key: &[u8]) -> (r: Result<Option<Vec<u8>>, StoreError>)
        ensures
            r matches Ok(v) ==> bytes_of(v) == (if self.entries().contains_key(key@) {
                Some(self.entries()[key@])
            } else {
                None
            }),
            r matches Err(e) ==> self.reports(e),
            self.infallible() ==> r is Ok,
    ;
}

/// One change of a batch.
#[derive(Debug)]
pub enum WriteOp {
    Put { table: &'static str, key: Vec<u8>, value: Vec<u8> },
    Delete { table: &'static str, key: Vec<u8> },
}

/// What one change of a batch stands for.
pub enum Change {
    Put(Seq<char>, Seq<u8>, Seq<u8>),
    Delete(Seq<char>, Seq<u8>),
}

impl View for WriteOp {
    type V = Change;

    open spec fn view(&self) -> Change {
        match self {
            WriteOp::Put { table, key, value } => Change::Put(table@, key@, value@),
            WriteOp::Delete { table, key } => Change::Delete(table@, key@),
        }
    }
}

/// The table that a change is about.
pub open spec fn change_table(change: Change) -> Seq<char> {
    match change {
        Change::Put(table, _, _) => table,
        Change::Delete(table, _) => table,
    }
}

/// The state after one change.
pub open spec fn apply_change(contents: Contents, change: Change) -> Contents {
    match change {
        Change::Put(table, key, value) => contents.insert(
            table,
            contents[table].insert(key, value),
        ),
        Change::Delete(table, key) => contents.insert(table, contents[table].remove(key)),
    }
}

/// The state after all changes, in their order.
pub open spec fn apply_changes(contents: Contents, changes: Seq<Change>) -> Contents
    decreases changes.len(),
{
    if changes.len() == 0 {
        contents
    } else {
        apply_change(apply_changes(contents, changes.drop_last()), changes.last())
    }
}

/// The store has every table that the changes name.
pub open spec fn changes_fit(contents: Contents, changes: Seq<Change>) -> bool {
    forall|i: int|
        0 <= i < changes.len() ==> contents.contains_key(change_table(#[trigger] changes[i]))
}

/// Changes that take effect together when the batch is committed.
#[derive(Debug)]
pub struct WriteBatch {
    pub ops: Vec<WriteOp>,
}

impl View for WriteBatch {
    type V = Seq<Change>;

    open spec fn view(&self) -> Seq<Change> {
        self.ops@.map_values(|op: WriteOp| op@)
    }
}

/// A store of tables.
pub trait StorageBackend: Sized {
    type ReadView<'a>: StorageReadView where Self: 'a;

    type LockedView<'a>: StorageLockedView where Self: 'a;

    /// What the store holds.
    spec fn contents(&self) -> Contents;

    /// No operation on a table that the store has fails.
    spec fn infallible(&self) -> bool;

    /// The failures that operations may report.
    spec fn reports(&self, e: StoreError) -> bool;

    /// Removes every entry of `table`. When that fails, the other tables are as before.
    fn clear_table(&mut self, table: &'static str) -> (r: Result<(), StoreError>)
        ensures
            r is Ok ==> old(self).contents().contains_key(table@) && final(self).contents() == old(
                self,
            ).contents().insert(table@, Map::empty()),
            r is Err ==> final(self).contents().remove(table@) == old(self).contents().remove(
                table@,
            ),
            r matches Err(e) ==> old(self).reports(e),
            forall|e: StoreError|
                #![trigger final(self).reports(e)]
                final(self).reports(e) ==> old(self).reports(e),
            old(self).infallible() ==> final(self).infallible(),
            old(self).infallible() && old(self).contents().contains_key(table@) ==> r is Ok,
    ;

    /// Opens a read over the present state.
    fn begin_read<'a>(&'a self) -> (r: Result<Self::ReadView<'a>, StoreError>)
        ensures
            r matches Ok(view) ==> view.contents() == self.contents(),
            r matches Err(e) ==> self.reports(e),
            r matches Ok(view) ==> forall|e: StoreError|
                #![trigger view.reports(e)]
                view.reports(e) ==> self.reports(e),
            self.infallible() ==> (r matches Ok(view) && view.infallible()),
    ;

    /// Opens a batch without changes.
    fn begin_write(&self) -> (r: Result<WriteBatch, StoreError>)
        ensures
            r matches Ok(batch) ==> batch@ == Seq::<Change>::empty(),
            r matches Err(e) ==> self.reports(e),
            self.infallible() ==> r is Ok,
    ;

    /// Makes the changes of a batch, all of them or none. When it fails, either may
    /// have happened.
    fn commit(&mut self, batch: WriteBatch) -> (r: Result<(), StoreError>)
        ensures
            r is Ok ==> changes_fit(old(self).contents(), batch@) && final(self).contents()
                == apply_changes(old(self).contents(), batch@),
            r is Err ==> final(self).contents() == old(self).contents() || (changes_fit(
                old(self).contents(),
                batch@,
            ) && final(self).contents() == apply_changes(old(self).contents(), batch@)),
            r matches Err(e) ==> old(self).reports(e),
            forall|e: StoreError|
                #![trigger final(self).reports(e)]
                final(self).reports(e) ==> old(self).reports(e),
            old(self).infallible() ==> final(self).infallible(),
            old(self).infallible() && changes_fit(old(self).contents(), batch@) ==> r is Ok,
    ;

    /// Opens a read of one table.
    fn begin_locked<'a>(&'a self, table: &'static str) -> (r: Result<
        Self::LockedView<'a>,
        StoreError,
    >)
        ensures
            r matches Ok(view) ==> self.contents().contains_key(table@) && view.entries()
                == self.contents()[table@],
            r matches Err(e) ==> self.reports(e),
            r matches Ok(view) ==> forall|e: StoreError|
                #![trigger view.reports(e)]
                view.reports(e) ==> self.reports(e),
            self.infallible() && self.contents().contains_key(table@) ==> (r matches Ok(view)
                && view.infallible()),
    ;
}

} // verus!
