//! What the tiered store and its worker do, in terms of the two stores and of numbers.

use crate::api::{apply_changes, lookup, Contents, PrefixIterator, ScanItem};
use crate::api::{StorageBackend, StorageReadView, StoreError, WriteBatch};
use crate::chained::{chained, ChainedIterator};
use crate::meanings::law_warm_tables;
use crate::tables::{is_warm_table, WARM_TABLES};
use crate::tiered::{hot_window, open_cold_db, TieredBackend, TieredReadView};
use crate::tiered::{DEFAULT_HOT_BLOCKS, MIN_HOT_BLOCKS};
use crate::worker::{after_pass, next_action, Action, Phase, Report};
use vstd::prelude::*;

verus! {

/// The hot window is as long as was asked for, and never shorter than 1024 blocks.
pub proof fn law_hot_window_in_numbers(asked: u64)
    ensures
        asked >= 1024 ==> hot_window(asked) == asked,
        asked < 1024 ==> hot_window(asked) == 1024,
        MIN_HOT_BLOCKS == 1024,
        DEFAULT_HOT_BLOCKS == 100_000,
{
}

/// A tiered store that was opened has the hot window that was asked for, or 1024 blocks
/// where less was asked for, and knows of no head. Its hot store is one that opening the hot
/// path gave. Its cold store is one that opening the cold path with the four warm tables
/// gave.
pub proof fn law_store_opens_as_asked<
    H: StorageBackend,
    C: StorageBackend,
    HP,
    CP,
    FH: FnOnce(HP) -> Result<H, StoreError>,
    FC: FnOnce(CP, Vec<&'static str>) -> Result<C, StoreError>,
>(
    hot_path: HP,
    cold_path: CP,
    asked: u64,
    open_all: FH,
    open_with_tables: FC,
    r: Result<TieredBackend<H, C>, StoreError>,
)
    requires
        call_ensures(
            TieredBackend::<H, C>::open::<HP, CP, FH, FC>,
            (hot_path, cold_path, asked, open_all, open_with_tables),
            r,
        ),
    ensures
        r matches Ok(store) ==> {
            &&& asked >= 1024 ==> store.hot_blocks == asked
            &&& asked < 1024 ==> store.hot_blocks == 1024
            &&& store.head_block == 0
            &&& call_ensures(open_all, (hot_path,), Ok::<H, StoreError>(store.hot))
            &&& exists|tables: Vec<&'static str>|
                {
                    &&& #[trigger] call_ensures(
                        open_with_tables,
                        (cold_path, tables),
                        Ok::<C, StoreError>(store.cold),
                    )
                    &&& tables@.len() == 4
                    &&& tables@[0]@ == "headers"@
                    &&& tables@[1]@ == "bodies"@
                    &&& tables@[2]@ == "receipts"@
                    &&& tables@[3]@ == "transaction_locations"@
                }
        },
        r matches Err(e) ==> {
            ||| call_ensures(open_all, (hot_path,), Err::<H, StoreError>(e))
            ||| exists|tables: Vec<&'static str>|
                {
                    &&& #[trigger] call_ensures(
                        open_with_tables,
                        (cold_path, tables),
                        Err::<C, StoreError>(e),
                    )
                    &&& tables@.len() == 4
                    &&& tables@[0]@ == "headers"@
                    &&& tables@[1]@ == "bodies"@
                    &&& tables@[2]@ == "receipts"@
                    &&& tables@[3]@ == "transaction_locations"@
                }
        },
{
    lemma_warm_list();
}

/// The cold store is opened at the path it is given, with the four warm tables.
pub proof fn law_cold_store_has_the_warm_tables<
    P,
    B,
    F: FnOnce(P, Vec<&'static str>) -> Result<B, StoreError>,
>(path: P, open_with_tables: F, r: Result<B, StoreError>)
    requires
        call_ensures(open_cold_db::<P, B, F>, (path, open_with_tables), r),
    ensures
        exists|tables: Vec<&'static str>|
            {
                &&& #[trigger] call_ensures(open_with_tables, (path, tables), r)
                &&& tables@.len() == 4
                &&& tables@[0]@ == "headers"@
                &&& tables@[1]@ == "bodies"@
                &&& tables@[2]@ == "receipts"@
                &&& tables@[3]@ == "transaction_locations"@
            },
{
    lemma_warm_list();
}

/// The list of the warm tables.
proof fn lemma_warm_list()
    ensures
        WARM_TABLES@.len() == 4,
        WARM_TABLES@[0]@ == "headers"@,
        WARM_TABLES@[1]@ == "bodies"@,
        WARM_TABLES@[2]@ == "receipts"@,
        WARM_TABLES@[3]@ == "transaction_locations"@,
{
}

/// A table is told to be warm exactly when it is one of the four.
pub proof fn law_warm_tables_are_told(table: &str, r: bool)
    requires
        call_ensures(is_warm_table, (table,), r),
    ensures
        r <==> table@ == "headers"@ || table@ == "bodies"@ || table@ == "receipts"@ || table@
            == "transaction_locations"@,
{
    law_warm_tables(table@);
}

/// A read gives what the hot tier says, be it a value or a failure, unless it says that
/// there is nothing. Then, and only for the four warm tables, it gives what the cold tier
/// says.
pub proof fn law_read_asks_hot_then_cold<H: StorageReadView, C: StorageReadView>(
    view: &TieredReadView<H, C>,
    table: &'static str,
    key: &[u8],
    r: Result<Option<Vec<u8>>, StoreError>,
)
    requires
        call_ensures(TieredReadView::<H, C>::get, (view, table, key), r),
    ensures
        exists|found: Result<Option<Vec<u8>>, StoreError>|
            {
                &&& #[trigger] call_ensures(H::get, (&view.hot, table, key), found)
                &&& match found {
                    Err(e) => r == found,
                    Ok(Some(value)) => r == found,
                    Ok(None) => if table@ == "headers"@ || table@ == "bodies"@ || table@
                        == "receipts"@ || table@ == "transaction_locations"@ {
                        call_ensures(C::get, (&view.cold, table, key), r)
                    } else {
                        r == found
                    },
                }
            },
        r matches Ok(value) ==> {
            let in_hot = lookup(view.hot.contents(), table@, key@);
            let in_cold = lookup(view.cold.contents(), table@, key@);
            let is_warm = table@ == "headers"@ || table@ == "bodies"@ || table@ == "receipts"@
                || table@ == "transaction_locations"@;
            &&& in_hot matches Some(bytes) ==> (value matches Some(v) && v@ == bytes)
            &&& in_hot is None && is_warm ==> (in_cold matches Some(bytes) ==> (
            value matches Some(v) && v@ == bytes))
            &&& in_hot is None && is_warm && in_cold is None ==> value is None
            &&& in_hot is None && !is_warm ==> value is None
        },
{
    law_warm_tables(table@);
}

/// A scan of a table that is not warm is the scan of the hot tier. A scan of a warm table
/// has the items of the hot scan and, behind them, those of the cold scan that are failures
/// or entries under keys that the hot scan did not yield, in their order.
pub proof fn law_scan_is_hot_then_cold<H: StorageReadView, C: StorageReadView>(
    view: &TieredReadView<H, C>,
    table: &'static str,
    prefix: &[u8],
    r: Result<ChainedIterator<H::Iter, C::Iter>, StoreError>,
)
    requires
        call_ensures(TieredReadView::<H, C>::prefix_iterator, (view, table, prefix), r),
    ensures
        exists|hot: Result<H::Iter, StoreError>|
            {
                &&& #[trigger] call_ensures(H::prefix_iterator, (&view.hot, table, prefix), hot)
                &&& match hot {
                    Err(e) => r matches Err(e1) && e1 == e,
                    Ok(hot) => if table@ == "headers"@ || table@ == "bodies"@ || table@
                        == "receipts"@ || table@ == "transaction_locations"@ {
                        exists|cold: Result<C::Iter, StoreError>|
                            {
                                &&& #[trigger] call_ensures(
                                    C::prefix_iterator,
                                    (&view.cold, table, prefix),
                                    cold,
                                )
                                &&& match cold {
                                    Err(e) => r matches Err(e1) && e1 == e,
                                    Ok(cold) => r matches Ok(both) && both.remaining() == chained(
                                        hot.remaining(),
                                        cold.remaining(),
                                    ) && both.remaining().len() >= hot.remaining().len()
                                        && both.remaining().take(hot.remaining().len() as int)
                                        == hot.remaining(),
                                }
                            }
                    } else {
                        r matches Ok(scan) && scan.remaining() == hot.remaining()
                    },
                }
            },
{
    law_warm_tables(table@);
    assert forall|hot: Seq<ScanItem>, cold: Seq<ScanItem>| #[trigger]
        chained(hot, cold).len() >= hot.len() && chained(hot, cold).take(hot.len() as int)
            == hot by {
        assert(chained(hot, cold).take(hot.len() as int) =~= hot);
    }
}

/// A change of the tiered store is a change of its hot tier alone, and what it does to the
/// hot tier is what the changes of the batch do, in their order.
pub proof fn law_writes_go_to_hot<H: StorageBackend, C: StorageBackend>(batch: WriteBatch)
    ensures
        forall|store: &mut TieredBackend<H, C>, r: Result<(), StoreError>| #[trigger]
            call_ensures(TieredBackend::<H, C>::commit, (store, batch), r) ==> {
                &&& final(store).cold == store.cold
                &&& final(store).hot_blocks == store.hot_blocks
                &&& final(store).head_block == store.head_block
                &&& r is Ok ==> final(store).hot.contents() == apply_changes(
                    store.hot.contents(),
                    batch@,
                )
            },
{
}

/// Clearing a table empties it in the hot tier and, if it is one of the four warm tables, in
/// the cold tier too. No other table changes in either.
pub proof fn law_clearing_empties_the_table<H: StorageBackend, C: StorageBackend>(
    table: &'static str,
    t: Seq<char>,
    k: Seq<u8>,
)
    ensures
        forall|store: &mut TieredBackend<H, C>, r: Result<(), StoreError>| #[trigger]
            call_ensures(TieredBackend::<H, C>::clear_table, (store, table), r) ==> {
                let is_warm = table@ == "headers"@ || table@ == "bodies"@ || table@ == "receipts"@
                    || table@ == "transaction_locations"@;
                let hot1 = final(store).hot.contents();
                let cold1 = final(store).cold.contents();
                &&& r is Ok && t == table@ ==> lookup(hot1, t, k) is None
                &&& r is Ok && t == table@ && is_warm ==> lookup(cold1, t, k) is None
                &&& t != table@ ==> lookup(hot1, t, k) == lookup(store.hot.contents(), t, k)
                &&& t != table@ || !is_warm ==> lookup(cold1, t, k) == lookup(
                    store.cold.contents(),
                    t,
                    k,
                )
                &&& final(store).hot_blocks == store.hot_blocks
                &&& final(store).head_block == store.head_block
            },
{
    law_warm_tables(table@);
    assert forall|store: &mut TieredBackend<H, C>, r: Result<(), StoreError>| #[trigger]
        call_ensures(TieredBackend::<H, C>::clear_table, (store, table), r) implies {
        let hot1 = final(store).hot.contents();
        let cold1 = final(store).cold.contents();
        &&& t != table@ ==> lookup(hot1, t, k) == lookup(store.hot.contents(), t, k)
        &&& t != table@ ==> lookup(cold1, t, k) == lookup(store.cold.contents(), t, k)
    } by {
        lemma_other_table(store.hot.contents(), final(store).hot.contents(), table@, t, k);
        lemma_other_table(store.cold.contents(), final(store).cold.contents(), table@, t, k);
    }
}

/// Stores that agree but for one table agree on the entries of the others.
proof fn lemma_other_table(
    before: Contents,
    after: Contents,
    table: Seq<char>,
    t: Seq<char>,
    k: Seq<u8>,
)
    requires
        after.remove(table) == before.remove(table),
    ensures
        t != table ==> lookup(after, t, k) == lookup(before, t, k),
{
    if t != table {
        assert(after.remove(table).dom().contains(t) == after.dom().contains(t));
        assert(before.remove(table).dom().contains(t) == before.dom().contains(t));
        if after.dom().contains(t) {
            assert(after.remove(table)[t] == after[t]);
            assert(before.remove(table)[t] == before[t]);
        }
    }
}

/// A head that was notified is the head, and the worker that is made works with it and with
/// the hot window of the store.
pub proof fn law_head_reaches_the_worker<
    H: StorageBackend,
    C: StorageBackend,
    F: Fn(u64) -> bool,
>(head: u64, shutdown: F)
    ensures
        forall|store: &mut TieredBackend<H, C>, r: ()| #[trigger]
            call_ensures(TieredBackend::<H, C>::notify_head, (store, head), r) ==> {
                &&& final(store).head_block == head
                &&& final(store).hot_blocks == store.hot_blocks
                &&& final(store).hot == store.hot
                &&& final(store).cold == store.cold
            },
        forall|store: &TieredBackend<H, C>, worker: crate::migration::MigrationWorker<F>| #[trigger]
            call_ensures(
                TieredBackend::<H, C>::migration_worker::<F>,
                (store, shutdown),
                worker,
            ) ==> worker.head_block == store.head_block && worker.hot_blocks == store.hot_blocks
                && worker.shutdown == shutdown,
        forall|store: &TieredBackend<H, C>, r: u64| #[trigger]
            call_ensures(TieredBackend::<H, C>::hot_blocks, (store,), r) ==> r == store.hot_blocks,
{
}

/// The worker stops as soon as it is told to. Until a head is known it looks for one every
/// five seconds; from then on it runs pass after pass.
pub proof fn law_worker_decides(phase: Phase, shutdown: bool, head: u64, r: (Phase, Action))
    requires
        call_ensures(next_action, (phase, shutdown, head), r),
    ensures
        shutdown <==> r.1 is Stop,
        r.1 is RunPass <==> !shutdown && phase is Migrating,
        !shutdown && phase is AwaitingHead && head == 0 ==> r == (
            Phase::AwaitingHead,
            Action::Sleep(5000),
        ),
        !shutdown && phase is AwaitingHead && head > 0 ==> r == (Phase::Migrating, Action::Look),
        phase is Migrating ==> r.0 is Migrating,
        shutdown ==> r.0 == phase,
{
}

/// After a pass that moved blocks the worker rests a tenth of a second and tells how many
/// were moved and how many remain below the cutoff; after one that found none it rests half
/// a minute, and after one that failed a minute, telling of the failure.
pub proof fn law_worker_rests(
    result: Result<(u64, u64, u64), StoreError>,
    r: (Report, u64),
)
    requires
        call_ensures(after_pass, (result,), r),
    ensures
        result matches Err(e) ==> r == (Report::Failed(e), 60_000u64),
        result matches Ok(pass) ==> pass.0 == 0 ==> r == (Report::Idle, 30_000u64),
        result matches Ok(pass) ==> pass.0 > 0 ==> r.1 == 100 && (r.0 matches Report::Migrated {
            blocks,
            cursor,
            cutoff,
            remaining,
        } && blocks == pass.0 && cursor == pass.1 && cutoff == pass.2 && (cursor <= cutoff
            ==> cursor + remaining == cutoff) && (cursor > cutoff ==> remaining == 0)),
{
}

} // verus!
