//! The store made of a hot and a cold tier.

use crate::api::{apply_changes, bytes_of, changes_fit, is_prefix_scan, lookup};
use crate::api::{Change, Contents, Entries, ScanItem};
use crate::api::{PrefixIterator, StorageBackend, StorageLockedView, StorageReadView};
use crate::api::{StoreError, WriteBatch};
use crate::chained::{chained, law_chained_is_scan_of_both, merged, ChainedIterator};
use crate::migration::MigrationWorker;
use crate::scan::confined;
use crate::tables::{is_warm_table, warm, WARM_TABLES};
use crate::tiers::{law_migration_keeps_reads, safely_moved, tiered_lookup};
use vstd::prelude::*;

verus! {

/// Number of recent blocks that stay hot unless something else is asked for.
pub const DEFAULT_HOT_BLOCKS: u64 = 100_000;

/// Least number of recent blocks that stay hot, well above the 128 blocks whose state
/// changes are kept in memory.
pub const MIN_HOT_BLOCKS: u64 = 1_024;

/// Reads that try the hot tier first and, for warm tables, fall through to the cold one.
pub struct TieredReadView<H: StorageReadView, C: StorageReadView> {
    pub hot: H,
    pub cold: C,
}

impl<H: StorageReadView, C: StorageReadView> TieredReadView<H, C> {
    /// The value under `key` of `table`, from the hot tier or, for a warm table that has
    /// no such entry there, from the cold one. Other tables are never looked for in the
    /// cold tier.
    pub fn get(&self, table: &'static str, key: &[u8]) -> (r: Result<Option<Vec<u8>>, StoreError>)
        ensures
            exists|found: Result<Option<Vec<u8>>, StoreError>|
                {
                    &&& #[trigger] call_ensures(H::get, (&self.hot, table, key), found)
                    &&& if found matches Ok(None) {
                        if warm(table@) {
                            call_ensures(C::get, (&self.cold, table, key), r)
                        } else {
                            r matches Ok(None)
                        }
                    } else {
                        r == found
                    }
                },
            r matches Ok(v) ==> bytes_of(v) == tiered_lookup(
                self.hot.contents(),
                self.cold.contents(),
                table@,
                key@,
            ),
            r matches Err(e) ==> self.hot.reports(e) || (warm(table@) && self.cold.reports(e)),
            r is Ok ==> self.hot.contents().contains_key(table@),
            ({
                let in_hot = lookup(self.hot.contents(), table@, key@) is Some;
                &&& r is Ok && !in_hot && warm(table@) ==> self.cold.contents().contains_key(
                    table@,
                )
                &&& self.hot.infallible() && self.hot.contents().contains_key(table@) && (in_hot
                    || !warm(table@) || (self.cold.infallible()
                    && self.cold.contents().contains_key(table@))) ==> r is Ok
            }),
    {
        if let Some(value) = self.hot.get(table, key)? {
            return Ok(Some(value));
        }
        if is_warm_table(table) {
            return self.cold.get(table, key);
        }
        Ok(None)
    }

    /// A scan of the entries of `table` whose keys begin with `prefix`: of a warm table
    /// the hot ones and then the cold ones under other keys, of any other table the hot
    /// ones.
    pub fn prefix_iterator(&self, table: &'static str, prefix: &[u8]) -> (r: Result<
        ChainedIterator<H::Iter, C::Iter>,
        StoreError,
    >)
        ensures
            exists|hot_scan: Result<H::Iter, StoreError>|
                {
                    &&& #[trigger] call_ensures(
                        H::prefix_iterator,
                        (&self.hot, table, prefix),
                        hot_scan,
                    )
                    &&& match hot_scan {
                        Err(e) => r == Err::<ChainedIterator<H::Iter, C::Iter>, StoreError>(e),
                        Ok(hot_iter) => if warm(table@) {
                            exists|cold_scan: Result<C::Iter, StoreError>|
                                {
                                    &&& #[trigger] call_ensures(
                                        C::prefix_iterator,
                                        (&self.cold, table, prefix),
                                        cold_scan,
                                    )
                                    &&& match cold_scan {
                                        Err(e) => r == Err::<
                                            ChainedIterator<H::Iter, C::Iter>,
                                            StoreError,
                                        >(e),
                                        Ok(cold_iter) => r matches Ok(iter) && iter.remaining()
                                            == chained(hot_iter.remaining(), cold_iter.remaining()),
                                    }
                                }
                        } else {
                            r matches Ok(iter) && iter.remaining() == hot_iter.remaining()
                        },
                    }
                },
            r matches Ok(iter) ==> {
                let hot = self.hot.contents();
                let cold = self.cold.contents();
                &&& hot.contains_key(table@)
                &&& !warm(table@) ==> is_prefix_scan(hot[table@], prefix@, iter.remaining())
                &&& !warm(table@) && self.hot.infallible() ==> forall|i: int|
                    0 <= i < iter.remaining().len() ==> #[trigger] iter.remaining()[i] is Entry
                &&& !warm(table@) && self.hot.infallible() && self.hot.bounded_scans()
                    ==> confined(iter.remaining(), prefix@)
                &&& warm(table@) ==> cold.contains_key(table@) && exists|
                    hot_items: Seq<ScanItem>,
                    cold_items: Seq<ScanItem>,
                |
                    {
                        &&& is_prefix_scan(hot[table@], prefix@, hot_items)
                        &&& is_prefix_scan(cold[table@], prefix@, cold_items)
                        &&& iter.remaining() == #[trigger] chained(hot_items, cold_items)
                    }
                &&& warm(table@) && self.hot.infallible() && self.cold.infallible()
                    && self.hot.bounded_scans() && self.cold.bounded_scans() ==> confined(
                    iter.remaining(),
                    prefix@,
                ) && is_prefix_scan(
                    merged(hot[table@], cold[table@]),
                    prefix@,
                    iter.remaining(),
                )
            },
            r matches Err(e) ==> self.hot.reports(e) || (warm(table@) && self.cold.reports(e)),
            self.hot.infallible() && self.hot.contents().contains_key(table@) && (!warm(table@) || (
            self.cold.infallible() && self.cold.contents().contains_key(table@))) ==> r is Ok,
    {
        if is_warm_table(table) {
            let hot_iter = self.hot.prefix_iterator(table, prefix)?;
            let cold_iter = self.cold.prefix_iterator(table, prefix)?;
            proof {
                let hot_items = hot_iter.remaining();
                let cold_items = cold_iter.remaining();
                if confined(hot_items, prefix@) {
                    law_chained_is_scan_of_both(
                        self.hot.contents()[table@],
                        self.cold.contents()[table@],
                        prefix@,
                        hot_items,
                        cold_items,
                    );
                }
            }
            return Ok(ChainedIterator::new(hot_iter, Some(cold_iter)));
        }
        let hot_iter = self.hot.prefix_iterator(table, prefix)?;
        Ok(ChainedIterator::new(hot_iter, None))
    }
}

/// Opens a store that has only the warm tables.
pub fn open_cold_db<P, B, F: FnOnce(P, Vec<&'static str>) -> Result<B, StoreError>>(
    path: P,
    open_with_tables: F,
) -> (r: Result<B, StoreError>)
    requires
        forall|tables: Vec<&'static str>|
            tables@ == WARM_TABLES@ ==> #[trigger] call_requires(open_with_tables, (path, tables)),
    ensures
        cold_opens(path, open_with_tables, r),
{
    let mut tables: Vec<&'static str> = Vec::new();
    let mut i: usize = 0;
    while i < WARM_TABLES.len()
        invariant
            i <= WARM_TABLES@.len(),
            tables@ == WARM_TABLES@.subrange(0, i as int),
        decreases WARM_TABLES@.len() - i,
    {
        tables.push(WARM_TABLES[i]);
        i += 1;
        assert(tables@ =~= WARM_TABLES@.subrange(0, i as int));
    }
    assert(tables@ =~= WARM_TABLES@);
    open_with_tables(path, tables)
}

/// Two-tier store that keeps recent data in a fast hot store and historical block data
/// in a separate cold one.
pub struct TieredBackend<H: StorageBackend, C: StorageBackend> {
    /// The store with every table.
    pub hot: H,
    /// The store with the warm tables.
    pub cold: C,
    /// Number of recent blocks that stay hot.
    pub hot_blocks: u64,
    /// The latest head block number, 0 until one is known.
    pub head_block: u64,
}

/// The hot window that results from asking for one.
pub open spec fn hot_window(asked: u64) -> u64 {
    if asked < MIN_HOT_BLOCKS {
        MIN_HOT_BLOCKS
    } else {
        asked
    }
}

/// `outcome` may come of opening a store with only the warm tables at `path`.
pub open spec fn cold_opens<P, B, F: FnOnce(P, Vec<&'static str>) -> Result<B, StoreError>>(
    path: P,
    open_with_tables: F,
    outcome: Result<B, StoreError>,
) -> bool {
    exists|tables: Vec<&'static str>|
        tables@ == WARM_TABLES@ && #[trigger] call_ensures(
            open_with_tables,
            (path, tables),
            outcome,
        )
}

impl<H: StorageBackend, C: StorageBackend> TieredBackend<H, C> {
    /// The hot window is not below its least size.
    pub open spec fn wf(&self) -> bool {
        self.hot_blocks >= MIN_HOT_BLOCKS
    }

    /// Opens both stores, the hot one first: the cold one is not touched unless the hot one
    /// has opened. A hot window below the least size is raised to it.
    pub fn open<
        HP,
        CP,
        FH: FnOnce(HP) -> Result<H, StoreError>,
        FC: FnOnce(CP, Vec<&'static str>) -> Result<C, StoreError>,
    >(
        hot_path: HP,
        cold_path: CP,
        hot_blocks: u64,
        open_all: FH,
        open_with_tables: FC,
    ) -> (r: Result<Self, StoreError>)
        requires
            call_requires(open_all, (hot_path,)),
            (exists|hot: H| #[trigger] call_ensures(open_all, (hot_path,), Ok(hot))) ==> forall|
                tables: Vec<&'static str>,
            |
                tables@ == WARM_TABLES@ ==> #[trigger] call_requires(
                    open_with_tables,
                    (cold_path, tables),
                ),
        ensures
            r matches Ok(backend) ==> {
                &&& backend.wf()
                &&& backend.hot_blocks == hot_window(hot_blocks)
                &&& backend.head_block == 0
                &&& call_ensures(open_all, (hot_path,), Ok(backend.hot))
                &&& cold_opens(cold_path, open_with_tables, Ok(backend.cold))
            },
            r matches Err(e) ==> {
                ||| call_ensures(open_all, (hot_path,), Err(e))
                ||| {
                    &&& exists|hot: H| #[trigger] call_ensures(open_all, (hot_path,), Ok(hot))
                    &&& cold_opens(cold_path, open_with_tables, Err(e))
                }
            },
    {
        let hot_blocks = if hot_blocks < MIN_HOT_BLOCKS {
            MIN_HOT_BLOCKS
        } else {
            hot_blocks
        };
        let hot = open_all(hot_path)?;
        let cold = open_cold_db(cold_path, open_with_tables)?;
        Ok(TieredBackend { hot, cold, hot_blocks, head_block: 0 })
    }

    /// Takes note of the current chain head.
    pub fn notify_head(&mut self, block_number: u64)
        ensures
            final(self).head_block == block_number,
            final(self).hot_blocks == old(self).hot_blocks,
            final(self).hot == old(self).hot,
            final(self).cold == old(self).cold,
    {
        self.head_block = block_number;
    }

    /// The configured hot window.
    pub fn hot_blocks(&self) -> (r: u64)
        ensures
            r == self.hot_blocks,
    {
        self.hot_blocks
    }

    /// A worker that migrates what lies below the hot window of the current head, until
    /// `shutdown` tells it to stop.
    pub fn migration_worker<F: Fn(u64) -> bool>(&self, shutdown: F) -> (r: MigrationWorker<F>)
        ensures
            r.hot_blocks == self.hot_blocks,
            r.head_block == self.head_block,
            r.shutdown == shutdown,
    {
        MigrationWorker { hot_blocks: self.hot_blocks, shutdown, head_block: self.head_block }
    }

    /// Removes every entry of `table`, of a warm table from both tiers. When the hot tier
    /// fails, the cold one is left alone.
    pub fn clear_table(&mut self, table: &'static str) -> (r: Result<(), StoreError>)
        ensures
            exists|hot: &mut H, hot_cleared: Result<(), StoreError>|
                {
                    &&& *hot == old(self).hot && *final(hot) == final(self).hot
                    &&& #[trigger] call_ensures(H::clear_table, (hot, table), hot_cleared)
                    &&& match hot_cleared {
                        Err(e) => r == Err::<(), StoreError>(e) && final(self).cold == old(
                            self,
                        ).cold,
                        Ok(_) => if warm(table@) {
                            exists|cold: &mut C|
                                {
                                    &&& *cold == old(self).cold && *final(cold) == final(self).cold
                                    &&& #[trigger] call_ensures(C::clear_table, (cold, table), r)
                                }
                        } else {
                            r is Ok && final(self).cold == old(self).cold
                        },
                    }
                },
            r is Ok ==> {
                &&& old(self).hot.contents().contains_key(table@)
                &&& final(self).hot.contents() == old(self).hot.contents().insert(
                    table@,
                    Map::empty(),
                )
                &&& warm(table@) ==> {
                    &&& old(self).cold.contents().contains_key(table@)
                    &&& final(self).cold.contents() == old(self).cold.contents().insert(
                        table@,
                        Map::empty(),
                    )
                }
                &&& forall|key: Seq<u8>|
                    tiered_lookup(
                        final(self).hot.contents(),
                        final(self).cold.contents(),
                        table@,
                        key,
                    ) is None
            },
            !warm(table@) ==> final(self).cold == old(self).cold,
            final(self).hot.contents().remove(table@) == old(self).hot.contents().remove(table@),
            final(self).cold.contents().remove(table@) == old(self).cold.contents().remove(table@),
            r matches Err(e) ==> {
                ||| old(self).hot.reports(e) && final(self).cold == old(self).cold
                ||| {
                    &&& warm(table@)
                    &&& old(self).cold.reports(e)
                    &&& final(self).hot.contents() == old(self).hot.contents().insert(
                        table@,
                        Map::empty(),
                    )
                }
            },
            old(self).hot.infallible() && old(self).hot.contents().contains_key(table@) && (!warm(
                table@,
            ) || (old(self).cold.infallible() && old(self).cold.contents().contains_key(table@)))
                ==> r is Ok,
            final(self).hot_blocks == old(self).hot_blocks,
            final(self).head_block == old(self).head_block,
    {
        let ghost hot0 = self.hot.contents();
        let ghost cold0 = self.cold.contents();
        let cleared = self.hot.clear_table(table);
        assert(self.hot.contents().remove(table@) =~= hot0.remove(table@));
        cleared?;
        if is_warm_table(table) {
            let cleared = self.cold.clear_table(table);
            assert(self.cold.contents().remove(table@) =~= cold0.remove(table@));
            cleared?;
        }
        Ok(())
    }

    /// Opens a read over both tiers.
    pub fn begin_read<'a>(&'a self) -> (r: Result<
        TieredReadView<H::ReadView<'a>, C::ReadView<'a>>,
        StoreError,
    >)
        ensures
            exists|hot: Result<H::ReadView<'a>, StoreError>|
                {
                    &&& #[trigger] call_ensures(H::begin_read, (&self.hot,), hot)
                    &&& match hot {
                        Err(e) => r matches Err(e1) && e1 == e,
                        Ok(hot) => exists|cold: Result<C::ReadView<'a>, StoreError>|
                            {
                                &&& #[trigger] call_ensures(C::begin_read, (&self.cold,), cold)
                                &&& match cold {
                                    Err(e) => r matches Err(e1) && e1 == e,
                                    Ok(cold) => r matches Ok(view) && view.hot == hot && view.cold
                                        == cold,
                                }
                            },
                    }
                },
            r matches Ok(view) ==> {
                &&& view.hot.contents() == self.hot.contents()
                &&& view.cold.contents() == self.cold.contents()
                &&& forall|e: StoreError| #[trigger] view.hot.reports(e) ==> self.hot.reports(e)
                &&& forall|e: StoreError| #[trigger] view.cold.reports(e) ==> self.cold.reports(e)
                &&& self.hot.infallible() ==> view.hot.infallible()
                &&& self.cold.infallible() ==> view.cold.infallible()
            },
            r matches Err(e) ==> self.hot.reports(e) || self.cold.reports(e),
            self.hot.infallible() && self.cold.infallible() ==> r is Ok,
    {
        let hot = self.hot.begin_read()?;
        let cold = self.cold.begin_read()?;
        Ok(TieredReadView { hot, cold })
    }

    /// Opens a batch without changes, for the hot tier: what comes of it is what the hot
    /// store says.
    pub fn begin_write(&self) -> (r: Result<WriteBatch, StoreError>)
        ensures
            call_ensures(H::begin_write, (&self.hot,), r),
            r matches Ok(batch) ==> batch@ == Seq::<Change>::empty(),
            r matches Err(e) ==> self.hot.reports(e),
            self.hot.infallible() ==> r is Ok,
    {
        self.hot.begin_write()
    }

    /// Makes the changes of a batch in the hot tier: all writes go there.
    pub fn commit(&mut self, batch: WriteBatch) -> (r: Result<(), StoreError>)
        ensures
            exists|hot: &mut H|
                {
                    &&& *hot == old(self).hot && *final(hot) == final(self).hot
                    &&& #[trigger] call_ensures(H::commit, (hot, batch), r)
                },
            final(self).cold == old(self).cold,
            final(self).hot_blocks == old(self).hot_blocks,
            final(self).head_block == old(self).head_block,
            r is Ok ==> {
                &&& changes_fit(old(self).hot.contents(), batch@)
                &&& final(self).hot.contents() == apply_changes(old(self).hot.contents(), batch@)
            },
            r is Err ==> final(self).hot.contents() == old(self).hot.contents() || (changes_fit(
                old(self).hot.contents(),
                batch@,
            ) && final(self).hot.contents() == apply_changes(old(self).hot.contents(), batch@)),
            r matches Err(e) ==> old(self).hot.reports(e),
            old(self).hot.infallible() ==> final(self).hot.infallible(),
            old(self).hot.infallible() && changes_fit(old(self).hot.contents(), batch@) ==> r is Ok,
    {
        self.hot.commit(batch)
    }

    /// Opens a read of one table of the hot tier. Such reads serve trie tables, which are
    /// always hot.
    pub fn begin_locked<'a>(&'a self, table_name: &'static str) -> (r: Result<
        H::LockedView<'a>,
        StoreError,
    >)
        ensures
            call_ensures(H::begin_locked, (&self.hot, table_name), r),
            r matches Ok(view) ==> self.hot.contents().contains_key(table_name@) && view.entries()
                == self.hot.contents()[table_name@],
            r matches Err(e) ==> self.hot.reports(e),
            self.hot.infallible() && self.hot.contents().contains_key(table_name@) ==> (
            r matches Ok(view) && view.infallible()),
    {
        self.hot.begin_locked(table_name)
    }

    /// Makes a checkpoint of the hot tier at `path`.
    pub fn create_checkpoint<P, F: FnOnce(&H, P) -> Result<(), StoreError>>(
        &self,
        path: P,
        checkpoint: F,
    ) -> (r: Result<(), StoreError>)
        requires
            call_requires(checkpoint, (&self.hot, path)),
        ensures
            call_ensures(checkpoint, (&self.hot, path), r),
    {
        checkpoint(&self.hot, path)
    }
}

/// The entries of `table` seen through both tiers: of a warm table the hot ones and, under
/// other keys, the cold ones, of any other table the hot ones.
pub open spec fn tiered_entries(hot: Contents, cold: Contents, table: Seq<char>) -> Entries {
    if warm(table) {
        merged(hot[table], cold[table])
    } else {
        hot[table]
    }
}

/// A scan of a table through both tiers yields what single reads give.
pub proof fn law_scans_agree_with_reads(
    hot: Contents,
    cold: Contents,
    table: Seq<char>,
    key: Seq<u8>,
)
    requires
        hot.contains_key(table),
        warm(table) ==> cold.contains_key(table),
    ensures
        tiered_lookup(hot, cold, table, key) == (if tiered_entries(
            hot,
            cold,
            table,
        ).contains_key(key) {
            Some(tiered_entries(hot, cold, table)[key])
        } else {
            None
        }),
{
}

/// Whether a migration has run to its end or has stopped anywhere on the way, a scan of
/// any table through both tiers yields the entries that it yielded before.
pub proof fn law_migration_keeps_scans(
    hot: Contents,
    cold: Contents,
    hot1: Contents,
    cold1: Contents,
    start: int,
    end: int,
    table: Seq<char>,
)
    requires
        safely_moved(hot, cold, hot1, cold1, start, end),
        hot.contains_key(table),
        warm(table) ==> cold.contains_key(table),
    ensures
        tiered_entries(hot1, cold1, table) == tiered_entries(hot, cold, table),
{
    assert(hot1.contains_key(table));
    assert(warm(table) ==> cold1.contains_key(table));
    law_migration_keeps_reads(hot, cold, hot1, cold1, start, end);
    let left = tiered_entries(hot1, cold1, table);
    let right = tiered_entries(hot, cold, table);
    assert forall|k: Seq<u8>| #[trigger] left.dom().contains(k) == right.dom().contains(k) && (
    left.dom().contains(k) ==> left[k] == right[k]) by {
        assert(tiered_lookup(hot1, cold1, table, k) == tiered_lookup(hot, cold, table, k));
        law_scans_agree_with_reads(hot, cold, table, k);
        law_scans_agree_with_reads(hot1, cold1, table, k);
    }
    assert(left =~= right);
}

} // verus!
