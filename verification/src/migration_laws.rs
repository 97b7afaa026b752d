//! What migrating blocks does, entry by entry and in numbers.

use crate::api::{lookup, with_prefix, with_suffix, Change, Contents};
use crate::api::{StorageBackend, StorageReadView, StoreError, WriteBatch};
use crate::batch::deletes;
use crate::bytes::{has_prefix, has_suffix};
use crate::meanings::{law_entries_of_a_block, law_moving_entries};
use crate::migration::{advanced, cursor_change, cursor_key, cursor_of, first_block};
use crate::migration::{is_cursor, law_cursor_is_read_back};
use crate::migration::{migratable, pass_failed, pass_left, pass_length, stopped_at, unrecorded};
use crate::migration::{with_cursor, MigrationWorker, MIGRATION_BATCH_SIZE};
use crate::tables::lemma_table_names;
use crate::tiers::{belongs, block_hash, cold_after, hot_after};
use crate::tiers::{moves, owns, safely_moved};
use vstd::bytes::{spec_u64_from_le_bytes, spec_u64_to_le_bytes};
use vstd::prelude::*;
use vstd::string::StringSliceAdditionalSpecFns;

verus! {

/// The cursor stands in the table of small values under `cold_migration_cursor`. It is
/// there exactly when eight bytes are, and is the number they make, the lowest byte first.
pub proof fn law_cursor_is_eight_bytes(hot: Contents)
    ensures
        ({
            let kept = lookup(hot, "misc_values"@, "cold_migration_cursor".spec_bytes());
            &&& kept is None ==> cursor_of(hot) is None
            &&& kept matches Some(bytes) ==> bytes.len() != 8 ==> cursor_of(hot) is None
            &&& kept matches Some(bytes) ==> bytes.len() == 8 ==> cursor_of(hot) == Some(
                spec_u64_from_le_bytes(bytes),
            )
        }),
{
}

/// Setting the cursor puts eight bytes under its key, the lowest first, and changes nothing
/// else.
pub proof fn law_cursor_is_set_alone(hot: Contents, value: u64, t: Seq<char>, k: Seq<u8>)
    requires
        hot.contains_key("misc_values"@),
    ensures
        cursor_change(value) == Change::Put(
            "misc_values"@,
            "cold_migration_cursor".spec_bytes(),
            spec_u64_to_le_bytes(value),
        ),
        with_cursor(hot, value).dom() == hot.dom(),
        lookup(with_cursor(hot, value), t, k) == (if t == "misc_values"@ && k
            == "cold_migration_cursor".spec_bytes() {
            Some(spec_u64_to_le_bytes(value))
        } else {
            lookup(hot, t, k)
        }),
        is_cursor(t, k) <==> t == "misc_values"@ && k == "cold_migration_cursor".spec_bytes(),
{
    assert(with_cursor(hot, value).dom() =~= hot.dom());
}

/// The migration goes on with the block behind the last one that has been migrated, and
/// begins with block 0 where none has been.
pub proof fn law_next_block(hot: Contents)
    ensures
        cursor_of(hot) is None ==> first_block(hot) == 0,
        cursor_of(hot) matches Some(last) ==> last < 0xffff_ffff_ffff_ffff ==> first_block(hot)
            == last + 1,
        cursor_of(hot) matches Some(last) ==> last == 0xffff_ffff_ffff_ffff ==> first_block(hot)
            == last,
{
}

/// A pass is to move the blocks that wait below the cutoff, all of them where they are no
/// more than 512, and else 512.
pub proof fn law_pass_length_in_numbers(start: int, cutoff: int)
    ensures
        cutoff <= start ==> pass_length(start, cutoff) == 0,
        start < cutoff && cutoff - start <= 512 ==> pass_length(start, cutoff) == cutoff - start,
        cutoff - start >= 512 ==> pass_length(start, cutoff) == 512,
        MIGRATION_BATCH_SIZE == 512,
{
}

/// The stores can be migrated between if the hot one has the canonical hashes, the small
/// values and the four warm tables, and the cold one the four warm tables; no more is asked
/// for.
pub proof fn law_tables_that_a_migration_needs(hot: Contents, cold: Contents)
    ensures
        migratable(hot, cold) <==> {
            &&& hot.contains_key("canonical_block_hashes"@)
            &&& hot.contains_key("misc_values"@)
            &&& hot.contains_key("headers"@)
            &&& hot.contains_key("bodies"@)
            &&& hot.contains_key("receipts"@)
            &&& hot.contains_key("transaction_locations"@)
            &&& cold.contains_key("headers"@)
            &&& cold.contains_key("bodies"@)
            &&& cold.contains_key("receipts"@)
            &&& cold.contains_key("transaction_locations"@)
        },
{
}

/// A pass over blocks inside the hot window does nothing, and says so.
pub proof fn law_hot_window_is_left_alone<
    F: Fn(u64) -> bool,
    H: StorageBackend,
    C: StorageBackend,
>(worker: &MigrationWorker<F>)
    ensures
        forall|hot: &mut H, cold: &mut C, r: Result<(u64, u64, u64), StoreError>| #[trigger]
            call_ensures(
                MigrationWorker::<F>::run_migration_pass::<H, C>,
                (worker, hot, cold),
                r,
            ) && worker.head_block <= worker.hot_blocks ==> {
                &&& r == Ok::<(u64, u64, u64), StoreError>((0, 0, 0))
                &&& final(hot).contents() == hot.contents()
                &&& final(cold).contents() == cold.contents()
            },
{
}

/// A pass begins behind the cursor and moves the blocks below the cutoff, at most 512 of
/// them. It moves fewer only where it saw the signal to stop, and had not seen it before any
/// block that it moved. It tells how many it moved, the next block and the cutoff, and sets
/// the cursor to the last block that it moved, if there is one.
pub proof fn law_pass_moves_a_batch<F: Fn(u64) -> bool, H: StorageBackend, C: StorageBackend>(
    worker: &MigrationWorker<F>,
)
    ensures
        forall|hot: &mut H, cold: &mut C, r: Result<(u64, u64, u64), StoreError>| #[trigger]
            call_ensures(
                MigrationWorker::<F>::run_migration_pass::<H, C>,
                (worker, hot, cold),
                r,
            ) && worker.head_block > worker.hot_blocks ==> (r matches Ok(pass) ==> {
                let cutoff = worker.head_block - worker.hot_blocks;
                let start: int = match cursor_of(hot.contents()) {
                    Some(last) => if last < 0xffff_ffff_ffff_ffff {
                        last + 1
                    } else {
                        last as int
                    },
                    None => 0,
                };
                let wanted: int = if cutoff <= start {
                    0
                } else if cutoff - start <= 512 {
                    cutoff - start
                } else {
                    512
                };
                &&& pass.2 == cutoff
                &&& pass.1 == start + pass.0
                &&& pass.0 <= wanted
                &&& pass.0 < wanted ==> call_ensures(worker.shutdown, (pass.1,), true)
                &&& forall|n: u64|
                    start <= n < pass.1 ==> #[trigger] call_ensures(worker.shutdown, (n,), false)
                &&& (forall|n: u64| !(#[trigger] call_ensures(worker.shutdown, (n,), true)))
                    ==> pass.0 == wanted
                &&& pass.0 == 0 ==> final(hot).contents() == hot.contents()
                    && final(cold).contents() == cold.contents()
                &&& pass.0 > 0 ==> cursor_of(final(hot).contents()) == Some((pass.1 - 1) as u64)
            }),
{
    assert forall|hot: &mut H, cold: &mut C, r: Result<(u64, u64, u64), StoreError>| #[trigger]
        call_ensures(
            MigrationWorker::<F>::run_migration_pass::<H, C>,
            (worker, hot, cold),
            r,
        ) && worker.head_block > worker.hot_blocks implies (r matches Ok(pass) ==> (pass.0 > 0
        ==> cursor_of(final(hot).contents()) == Some((pass.1 - 1) as u64))) by {
        if let Ok(pass) = r {
            let start = first_block(hot.contents()) as int;
            law_cursor_is_read_back(
                hot_after(hot.contents(), start, start + pass.0),
                (pass.1 - 1) as u64,
            );
        }
    }
}

/// A pass that succeeds moves exactly the entries of its blocks: what belongs to one of them
/// is gone from the hot store, and what of it was there is in the cold store with the same
/// value. Every other entry, but for the cursor, is where it was.
pub proof fn law_pass_moves_the_entries_of_its_blocks<
    F: Fn(u64) -> bool,
    H: StorageBackend,
    C: StorageBackend,
>(worker: &MigrationWorker<F>, t: Seq<char>, k: Seq<u8>)
    requires
        !(t == "misc_values"@ && k == "cold_migration_cursor".spec_bytes()),
    ensures
        forall|hot: &mut H, cold: &mut C, r: Result<(u64, u64, u64), StoreError>| #[trigger]
            call_ensures(
                MigrationWorker::<F>::run_migration_pass::<H, C>,
                (worker, hot, cold),
                r,
            ) && worker.head_block > worker.hot_blocks ==> (r matches Ok(pass) ==> {
                let hot0 = hot.contents();
                let cold0 = cold.contents();
                let hot1 = final(hot).contents();
                let cold1 = final(cold).contents();
                let moving = exists|n: u64|
                    pass.1 - pass.0 <= n < pass.1 && (lookup(
                        hot0,
                        "canonical_block_hashes"@,
                        #[trigger] spec_u64_to_le_bytes(n),
                    ) matches Some(hash) && belongs(hash, t, k));
                &&& moving ==> lookup(hot1, t, k) is None
                &&& moving && lookup(hot0, t, k) is Some ==> lookup(
                    cold1,
                    t,
                    k,
                ) == lookup(hot0, t, k)
                &&& moving && lookup(hot0, t, k) is None ==> lookup(cold1, t, k) == lookup(
                    cold0,
                    t,
                    k,
                )
                &&& !moving ==> lookup(hot1, t, k) == lookup(hot0, t, k) && lookup(cold1, t, k)
                    == lookup(cold0, t, k)
            }),
{
    lemma_table_names();
    assert forall|hot: &mut H, cold: &mut C, r: Result<(u64, u64, u64), StoreError>| #[trigger]
        call_ensures(
            MigrationWorker::<F>::run_migration_pass::<H, C>,
            (worker, hot, cold),
            r,
        ) && worker.head_block > worker.hot_blocks implies (r matches Ok(pass) ==> {
        let hot0 = hot.contents();
        let cold0 = cold.contents();
        let hot1 = final(hot).contents();
        let cold1 = final(cold).contents();
        let moving = exists|n: u64|
            pass.1 - pass.0 <= n < pass.1 && (lookup(
                hot0,
                "canonical_block_hashes"@,
                #[trigger] spec_u64_to_le_bytes(n),
            ) matches Some(hash) && belongs(hash, t, k));
        &&& moving ==> lookup(hot1, t, k) is None
        &&& moving && lookup(hot0, t, k) is Some ==> lookup(cold1, t, k)
            == lookup(hot0, t, k)
        &&& moving && lookup(hot0, t, k) is None ==> lookup(cold1, t, k) == lookup(cold0, t, k)
        &&& !moving ==> lookup(hot1, t, k) == lookup(hot0, t, k) && lookup(cold1, t, k) == lookup(
            cold0,
            t,
            k,
        )
    }) by {
        if let Ok(pass) = r {
            let start = first_block(hot.contents());
            let length = pass_length(start as int, worker.head_block - worker.hot_blocks);
            lemma_pass_left_by_entry(
                hot.contents(),
                cold.contents(),
                final(hot).contents(),
                final(cold).contents(),
                start as int,
                start + length,
                t,
                k,
            );
            law_moving_entries(hot.contents(), start, pass.1, t, k);
            assert(pass.1 - pass.0 == start);
        }
    }
}

/// A pass, even one that fails, loses nothing: an entry of the hot store, but for the
/// cursor, is still there, or the cold store has it with the same value. What the hot store
/// did not have stays as it was in both, and the cold store gains only what the hot store
/// had.
pub proof fn law_failed_pass_loses_nothing<
    F: Fn(u64) -> bool,
    H: StorageBackend,
    C: StorageBackend,
>(worker: &MigrationWorker<F>, t: Seq<char>, k: Seq<u8>)
    requires
        !(t == "misc_values"@ && k == "cold_migration_cursor".spec_bytes()),
    ensures
        forall|hot: &mut H, cold: &mut C, r: Result<(u64, u64, u64), StoreError>| #[trigger]
            call_ensures(
                MigrationWorker::<F>::run_migration_pass::<H, C>,
                (worker, hot, cold),
                r,
            ) ==> {
                let hot0 = hot.contents();
                let cold0 = cold.contents();
                let hot1 = final(hot).contents();
                let cold1 = final(cold).contents();
                &&& lookup(hot0, t, k) is Some ==> lookup(hot1, t, k) == lookup(hot0, t, k) || (
                lookup(hot1, t, k) is None && lookup(cold1, t, k) == lookup(hot0, t, k))
                &&& lookup(hot0, t, k) is None ==> lookup(hot1, t, k) is None && lookup(cold1, t, k)
                    == lookup(cold0, t, k)
                &&& lookup(cold1, t, k) == lookup(cold0, t, k) || lookup(cold1, t, k) == lookup(
                    hot0,
                    t,
                    k,
                )
            },
{
    lemma_table_names();
    assert forall|hot: &mut H, cold: &mut C, r: Result<(u64, u64, u64), StoreError>| #[trigger]
        call_ensures(
            MigrationWorker::<F>::run_migration_pass::<H, C>,
            (worker, hot, cold),
            r,
        ) implies {
        let hot0 = hot.contents();
        let cold0 = cold.contents();
        let hot1 = final(hot).contents();
        let cold1 = final(cold).contents();
        &&& lookup(hot0, t, k) is Some ==> lookup(hot1, t, k) == lookup(hot0, t, k) || (lookup(
            hot1,
            t,
            k,
        ) is None && lookup(cold1, t, k) == lookup(hot0, t, k))
        &&& lookup(hot0, t, k) is None ==> lookup(hot1, t, k) is None && lookup(cold1, t, k)
            == lookup(cold0, t, k)
        &&& lookup(cold1, t, k) == lookup(cold0, t, k) || lookup(cold1, t, k) == lookup(hot0, t, k)
    } by {
        if worker.head_block > worker.hot_blocks {
            let start = first_block(hot.contents()) as int;
            let end = start + pass_length(start, worker.head_block - worker.hot_blocks);
            lemma_pass_left_by_entry(
                hot.contents(),
                cold.contents(),
                final(hot).contents(),
                final(cold).contents(),
                start,
                end,
                t,
                k,
            );
        }
    }
}

/// However a pass has left the stores, an entry is where it was or has been copied and then
/// taken away.
proof fn lemma_pass_left_by_entry(
    hot: Contents,
    cold: Contents,
    hot1: Contents,
    cold1: Contents,
    start: int,
    end: int,
    t: Seq<char>,
    k: Seq<u8>,
)
    requires
        pass_left(hot, cold, hot1, cold1, start, end),
        !is_cursor(t, k),
    ensures
        lookup(hot1, t, k) == lookup(hot, t, k) || (lookup(hot1, t, k) is None && lookup(
            cold1,
            t,
            k,
        ) == lookup(hot, t, k)),
        lookup(cold1, t, k) == lookup(cold, t, k) || (lookup(cold1, t, k) == lookup(hot, t, k)
            && lookup(hot, t, k) is Some),
{
    if safely_moved(hot, cold, hot1, cold1, start, end) {
        assert(lookup(hot1, t, k) == lookup(hot1, t, k));
        assert(lookup(cold1, t, k) == lookup(cold1, t, k));
    } else {
        let last = choose|last: u64|
            start <= last < end && #[trigger] advanced(hot, cold, hot1, cold1, start, last);
        let moved = hot_after(hot, start, last + 1);
        assert(lookup(moved, t, k) == lookup(hot1, t, k));
        assert(lookup(cold1, t, k) == lookup(cold1, t, k));
    }
}

/// However a pass has left the stores, it has moved blocks safely and left the cursor, or it
/// has moved all blocks up to the cursor that it has set.
pub proof fn law_cursor_is_set_last(
    hot: Contents,
    cold: Contents,
    hot1: Contents,
    cold1: Contents,
    start: u64,
    end: u64,
)
    requires
        pass_left(hot, cold, hot1, cold1, start as int, end as int),
    ensures
        cursor_of(hot1) == cursor_of(hot) || (cursor_of(hot1) matches Some(last) && start <= last
            < end && forall|t: Seq<char>, k: Seq<u8>|
            #![trigger lookup(hot1, t, k)]
            #![trigger lookup(cold1, t, k)]
            moves(hot, start as int, last + 1, t, k) ==> lookup(hot1, t, k) is None && (lookup(
                hot,
                t,
                k,
            ) is Some ==> lookup(cold1, t, k) == lookup(hot, t, k))),
{
    lemma_table_names();
    if safely_moved(hot, cold, hot1, cold1, start as int, end as int) {
        assert(!moves(hot, start as int, end as int, "misc_values"@, cursor_key()));
        assert(lookup(hot1, "misc_values"@, cursor_key()) == lookup(
            hot,
            "misc_values"@,
            cursor_key(),
        ));
    } else {
        let last = choose|last: u64|
            start <= last < end && #[trigger] advanced(
                hot,
                cold,
                hot1,
                cold1,
                start as int,
                last,
            );
        let moved = hot_after(hot, start as int, last + 1);
        law_cursor_is_read_back(moved, last);
        assert forall|t: Seq<char>, k: Seq<u8>|
            moves(hot, start as int, last + 1, t, k) implies #[trigger] lookup(hot1, t, k) is None
            && (lookup(hot, t, k) is Some ==> lookup(cold1, t, k) == lookup(hot, t, k)) by {
            assert(lookup(moved, t, k) is None);
            assert(lookup(moved, t, k) == lookup(hot, t, k) || lookup(cold1, t, k) == lookup(
                hot,
                t,
                k,
            ));
        }
        assert forall|t: Seq<char>, k: Seq<u8>|
            moves(hot, start as int, last + 1, t, k) implies lookup(hot1, t, k) is None && (lookup(
            hot,
            t,
            k,
        ) is Some ==> #[trigger] lookup(cold1, t, k) == lookup(hot, t, k)) by {
            assert(lookup(hot1, t, k) is None);
        }
    }
}

/// A pass that failed has touched nothing, or has stopped at one block, or has moved blocks
/// without fail and could not record it. In the last case those blocks are in the cold store
/// and gone from the hot one, and nothing else but the cursor can have changed.
pub proof fn law_failed_pass(
    hot: Contents,
    cold: Contents,
    hot1: Contents,
    cold1: Contents,
    start: u64,
    end: u64,
)
    requires
        pass_failed(hot, cold, hot1, cold1, start as int, end as int),
    ensures
        ({
            ||| hot1 == hot && cold1 == cold
            ||| exists|n: int|
                start <= n < end && #[trigger] stopped_at(
                    hot,
                    cold,
                    hot1,
                    cold1,
                    start as int,
                    n,
                )
            ||| exists|last: u64|
                start <= last < end && #[trigger] unrecorded(
                    hot,
                    cold,
                    hot1,
                    cold1,
                    start as int,
                    last,
                )
        }),
        forall|last: u64| #[trigger]
            unrecorded(hot, cold, hot1, cold1, start as int, last) ==> {
                &&& cold1 == cold_after(hot, cold, start as int, last + 1)
                &&& hot1 == hot_after(hot, start as int, last + 1) || cursor_of(hot1) == Some(last)
            },
{
    assert forall|last: u64| #[trigger]
        unrecorded(hot, cold, hot1, cold1, start as int, last) implies {
        &&& cold1 == cold_after(hot, cold, start as int, last + 1)
        &&& hot1 == hot_after(hot, start as int, last + 1) || cursor_of(hot1) == Some(last)
    } by {
        law_cursor_is_read_back(hot_after(hot, start as int, last + 1), last);
    }
}

/// Migrating a block moves the entries under its canonical hash and no others: its header,
/// its body, the receipts whose keys begin with the hash and the transaction locations whose
/// keys end with it are gone from the hot store, and what of them was there is in the cold
/// store with the same value. Without a canonical hash nothing changes.
pub proof fn law_block_moves<F: Fn(u64) -> bool, H: StorageBackend, C: StorageBackend>(
    worker: &MigrationWorker<F>,
    n: u64,
    t: Seq<char>,
    k: Seq<u8>,
)
    ensures
        forall|hot: &mut H, cold: &mut C, r: Result<(), StoreError>| #[trigger]
            call_ensures(
                MigrationWorker::<F>::migrate_block::<H, C>,
                (worker, hot, cold, n),
                r,
            ) && r is Ok ==> {
                let hot0 = hot.contents();
                let cold0 = cold.contents();
                let hot1 = final(hot).contents();
                let cold1 = final(cold).contents();
                match lookup(hot0, "canonical_block_hashes"@, spec_u64_to_le_bytes(n)) {
                    None => hot1 == hot0 && cold1 == cold0,
                    Some(hash) => {
                        let mine = (t == "headers"@ && k == hash) || (t == "bodies"@ && k == hash)
                            || (t == "receipts"@ && has_prefix(k, hash)) || (t
                            == "transaction_locations"@ && has_suffix(k, hash));
                        &&& mine ==> lookup(hot1, t, k) is None
                        &&& mine && lookup(hot0, t, k) is Some ==> lookup(
                            cold1,
                            t,
                            k,
                        ) == lookup(hot0, t, k)
                        &&& mine && lookup(hot0, t, k) is None ==> lookup(cold1, t, k) == lookup(
                            cold0,
                            t,
                            k,
                        )
                        &&& !mine ==> lookup(hot1, t, k) == lookup(hot0, t, k) && lookup(
                            cold1,
                            t,
                            k,
                        ) == lookup(cold0, t, k)
                    },
                }
            },
{
    assert forall|hot: &mut H, cold: &mut C, r: Result<(), StoreError>| #[trigger]
        call_ensures(
            MigrationWorker::<F>::migrate_block::<H, C>,
            (worker, hot, cold, n),
            r,
        ) && r is Ok implies {
        let hot0 = hot.contents();
        let cold0 = cold.contents();
        let hot1 = final(hot).contents();
        let cold1 = final(cold).contents();
        match lookup(hot0, "canonical_block_hashes"@, spec_u64_to_le_bytes(n)) {
            None => hot1 == hot0 && cold1 == cold0,
            Some(hash) => {
                let mine = (t == "headers"@ && k == hash) || (t == "bodies"@ && k == hash) || (t
                    == "receipts"@ && has_prefix(k, hash)) || (t == "transaction_locations"@
                    && has_suffix(k, hash));
                &&& mine ==> lookup(hot1, t, k) is None
                &&& mine && lookup(hot0, t, k) is Some ==> lookup(
                    cold1,
                    t,
                    k,
                ) == lookup(hot0, t, k)
                &&& mine && lookup(hot0, t, k) is None ==> lookup(cold1, t, k) == lookup(
                    cold0,
                    t,
                    k,
                )
                &&& !mine ==> lookup(hot1, t, k) == lookup(hot0, t, k) && lookup(cold1, t, k)
                    == lookup(cold0, t, k)
            },
        }
    } by {
        let hot0 = hot.contents();
        if let Some(hash) = block_hash(hot0, n as int) {
            law_entries_of_a_block(hash, t, k);
            assert(owns(hot0, n as int, t, k) == belongs(hash, t, k));
            assert(moves(hot0, n as int, n + 1, t, k) == belongs(hash, t, k));
        }
    }
}

/// A block that could not be migrated is not lost: an entry of the hot store is still there,
/// or the cold store has it with the same value. The hot store is as it was, or every entry
/// of the block has left it. The cold store has gained at most what the hot store had.
pub proof fn law_failed_block_loses_nothing<
    F: Fn(u64) -> bool,
    H: StorageBackend,
    C: StorageBackend,
>(worker: &MigrationWorker<F>, n: u64, t: Seq<char>, k: Seq<u8>)
    ensures
        forall|hot: &mut H, cold: &mut C, r: Result<(), StoreError>| #[trigger]
            call_ensures(
                MigrationWorker::<F>::migrate_block::<H, C>,
                (worker, hot, cold, n),
                r,
            ) ==> {
                let hot0 = hot.contents();
                let cold0 = cold.contents();
                let hot1 = final(hot).contents();
                let cold1 = final(cold).contents();
                &&& lookup(hot1, t, k) == lookup(hot0, t, k) || (lookup(hot1, t, k) is None
                    && lookup(cold1, t, k) == lookup(hot0, t, k))
                &&& lookup(cold1, t, k) == lookup(cold0, t, k) || (lookup(cold1, t, k) == lookup(
                    hot0,
                    t,
                    k,
                ) && lookup(hot0, t, k) is Some)
                &&& hot1 == hot0 || (lookup(
                    hot0,
                    "canonical_block_hashes"@,
                    spec_u64_to_le_bytes(n),
                ) matches Some(hash) ==> (belongs(hash, t, k) ==> lookup(hot1, t, k) is None))
            },
{
    assert forall|hot: &mut H, cold: &mut C, r: Result<(), StoreError>| #[trigger]
        call_ensures(
            MigrationWorker::<F>::migrate_block::<H, C>,
            (worker, hot, cold, n),
            r,
        ) implies {
        let hot0 = hot.contents();
        let cold0 = cold.contents();
        let hot1 = final(hot).contents();
        let cold1 = final(cold).contents();
        &&& lookup(hot1, t, k) == lookup(hot0, t, k) || (lookup(hot1, t, k) is None && lookup(
            cold1,
            t,
            k,
        ) == lookup(hot0, t, k))
        &&& lookup(cold1, t, k) == lookup(cold0, t, k) || (lookup(cold1, t, k) == lookup(
            hot0,
            t,
            k,
        ) && lookup(hot0, t, k) is Some)
        &&& hot1 == hot0 || (lookup(
            hot0,
            "canonical_block_hashes"@,
            spec_u64_to_le_bytes(n),
        ) matches Some(hash) ==> (belongs(hash, t, k) ==> lookup(hot1, t, k) is None))
    } by {
        let hot0 = hot.contents();
        if let Some(hash) = block_hash(hot0, n as int) {
            assert(owns(hot0, n as int, t, k) == belongs(hash, t, k));
            assert(moves(hot0, n as int, n + 1, t, k) == belongs(hash, t, k));
        }
        assert(lookup(final(hot).contents(), t, k) == lookup(final(hot).contents(), t, k));
        assert(lookup(final(cold).contents(), t, k) == lookup(final(cold).contents(), t, k));
    }
}

/// What is recorded as the cursor is what is read back, and nothing else of the store
/// changes.
pub proof fn law_cursor_is_recorded<F: Fn(u64) -> bool, H: StorageBackend>(
    worker: &MigrationWorker<F>,
    value: u64,
    t: Seq<char>,
    k: Seq<u8>,
)
    ensures
        forall|hot: &mut H, r: Result<(), StoreError>| #[trigger]
            call_ensures(MigrationWorker::<F>::write_cursor::<H>, (worker, hot, value), r) && r is Ok
                ==> {
                &&& cursor_of(final(hot).contents()) == Some(value)
                &&& !(t == "misc_values"@ && k == "cold_migration_cursor".spec_bytes()) ==> lookup(
                    final(hot).contents(),
                    t,
                    k,
                ) == lookup(hot.contents(), t, k)
            },
        forall|hot: &H, r: Result<Option<u64>, StoreError>| #[trigger]
            call_ensures(MigrationWorker::<F>::read_cursor::<H>, (worker, hot), r) ==> (r matches Ok(
                cursor,
            ) ==> cursor == cursor_of(hot.contents())),
{
    assert forall|hot: &mut H, r: Result<(), StoreError>| #[trigger]
        call_ensures(MigrationWorker::<F>::write_cursor::<H>, (worker, hot, value), r)
            && r is Ok implies {
        &&& cursor_of(final(hot).contents()) == Some(value)
        &&& !(t == "misc_values"@ && k == "cold_migration_cursor".spec_bytes()) ==> lookup(
            final(hot).contents(),
            t,
            k,
        ) == lookup(hot.contents(), t, k)
    } by {
        law_cursor_is_read_back(hot.contents(), value);
    }
}

/// Copying puts into the cold store what the hot store has under the key, under the prefix
/// or with the suffix, with the same values, and changes nothing else there.
pub proof fn law_copies_are_exact<F: Fn(u64) -> bool, R: StorageReadView, C: StorageBackend>(
    worker: &MigrationWorker<F>,
    view: &R,
    table: &'static str,
    part: &[u8],
    t: Seq<char>,
    k: Seq<u8>,
)
    ensures
        forall|cold: &mut C, r: Result<(), StoreError>| #[trigger]
            call_ensures(
                MigrationWorker::<F>::copy_entry::<R, C>,
                (worker, cold, view, table, part),
                r,
            ) && r is Ok ==> lookup(final(cold).contents(), t, k) == (if t == table@ && k == part@
                && lookup(view.contents(), t, k) is Some {
                lookup(view.contents(), t, k)
            } else {
                lookup(cold.contents(), t, k)
            }),
        forall|cold: &mut C, r: Result<(), StoreError>| #[trigger]
            call_ensures(
                MigrationWorker::<F>::copy_prefixed_entries::<R, C>,
                (worker, cold, view, table, part),
                r,
            ) && r is Ok ==> lookup(final(cold).contents(), t, k) == (if t == table@ && has_prefix(
                k,
                part@,
            ) && lookup(view.contents(), t, k) is Some {
                lookup(view.contents(), t, k)
            } else {
                lookup(cold.contents(), t, k)
            }),
        forall|cold: &mut C, r: Result<(), StoreError>| #[trigger]
            call_ensures(
                MigrationWorker::<F>::copy_suffixed_entries::<R, C>,
                (worker, cold, view, table, part),
                r,
            ) && r is Ok ==> lookup(final(cold).contents(), t, k) == (if t == table@ && has_suffix(
                k,
                part@,
            ) && lookup(view.contents(), t, k) is Some {
                lookup(view.contents(), t, k)
            } else {
                lookup(cold.contents(), t, k)
            }),
{
    let entries = view.contents()[table@];
    let none = Map::<Seq<u8>, Seq<u8>>::empty();
    assert forall|cold: &mut C, r: Result<(), StoreError>| #[trigger]
        call_ensures(
            MigrationWorker::<F>::copy_prefixed_entries::<R, C>,
            (worker, cold, view, table, part),
            r,
        ) && r is Ok implies lookup(final(cold).contents(), t, k) == (if t == table@ && has_prefix(
        k,
        part@,
    ) && lookup(view.contents(), t, k) is Some {
        lookup(view.contents(), t, k)
    } else {
        lookup(cold.contents(), t, k)
    }) by {
        let added = with_prefix(entries, part@);
        if t == table@ {
            assert(added.contains_key(k) == (entries.contains_key(k) && has_prefix(k, part@)));
        }
        assert(added == none ==> !added.contains_key(k));
    }
    assert forall|cold: &mut C, r: Result<(), StoreError>| #[trigger]
        call_ensures(
            MigrationWorker::<F>::copy_suffixed_entries::<R, C>,
            (worker, cold, view, table, part),
            r,
        ) && r is Ok implies lookup(final(cold).contents(), t, k) == (if t == table@ && has_suffix(
        k,
        part@,
    ) && lookup(view.contents(), t, k) is Some {
        lookup(view.contents(), t, k)
    } else {
        lookup(cold.contents(), t, k)
    }) by {
        let added = with_suffix(entries, part@);
        if t == table@ {
            assert(added.contains_key(k) == (entries.contains_key(k) && has_suffix(k, part@)));
        }
        assert(added == none ==> !added.contains_key(k));
    }
}

/// Collecting deletions adds to a batch one deletion for each entry under the prefix, or
/// with the suffix, and nothing else.
pub proof fn law_deletions_are_exact<F: Fn(u64) -> bool, R: StorageReadView>(
    worker: &MigrationWorker<F>,
    view: &R,
    table: &'static str,
    part: &[u8],
    k: Seq<u8>,
)
    ensures
        forall|batch: &mut WriteBatch, r: Result<(), StoreError>| #[trigger]
            call_ensures(
                MigrationWorker::<F>::delete_prefixed_entries::<R>,
                (worker, batch, view, table, part),
                r,
            ) && r is Ok ==> exists|keys: Seq<Seq<u8>>|
                {
                    &&& final(batch)@ == batch@ + #[trigger] deletes(table@, keys)
                    &&& keys.no_duplicates()
                    &&& keys.contains(k) <==> lookup(view.contents(), table@, k) is Some
                        && has_prefix(k, part@)
                },
        forall|batch: &mut WriteBatch, r: Result<(), StoreError>| #[trigger]
            call_ensures(
                MigrationWorker::<F>::delete_suffixed_entries::<R>,
                (worker, batch, view, table, part),
                r,
            ) && r is Ok ==> exists|keys: Seq<Seq<u8>>|
                {
                    &&& final(batch)@ == batch@ + #[trigger] deletes(table@, keys)
                    &&& keys.no_duplicates()
                    &&& keys.contains(k) <==> lookup(view.contents(), table@, k) is Some
                        && has_suffix(k, part@)
                },
{
    let entries = view.contents()[table@];
    assert forall|batch: &mut WriteBatch, r: Result<(), StoreError>| #[trigger]
        call_ensures(
            MigrationWorker::<F>::delete_prefixed_entries::<R>,
            (worker, batch, view, table, part),
            r,
        ) && r is Ok implies exists|keys: Seq<Seq<u8>>|
        {
            &&& final(batch)@ == batch@ + #[trigger] deletes(table@, keys)
            &&& keys.no_duplicates()
            &&& keys.contains(k) <==> lookup(view.contents(), table@, k) is Some && has_prefix(
                k,
                part@,
            )
        } by {
        let doomed = with_prefix(entries, part@).dom();
        let keys = choose|keys: Seq<Seq<u8>>|
            {
                &&& final(batch)@ == batch@ + #[trigger] deletes(table@, keys)
                &&& keys.no_duplicates()
                &&& keys.to_set() == doomed
            };
        assert(keys.to_set().contains(k) == doomed.contains(k));
    }
    assert forall|batch: &mut WriteBatch, r: Result<(), StoreError>| #[trigger]
        call_ensures(
            MigrationWorker::<F>::delete_suffixed_entries::<R>,
            (worker, batch, view, table, part),
            r,
        ) && r is Ok implies exists|keys: Seq<Seq<u8>>|
        {
            &&& final(batch)@ == batch@ + #[trigger] deletes(table@, keys)
            &&& keys.no_duplicates()
            &&& keys.contains(k) <==> lookup(view.contents(), table@, k) is Some && has_suffix(
                k,
                part@,
            )
        } by {
        let doomed = with_suffix(entries, part@).dom();
        let keys = choose|keys: Seq<Seq<u8>>|
            {
                &&& final(batch)@ == batch@ + #[trigger] deletes(table@, keys)
                &&& keys.no_duplicates()
                &&& keys.to_set() == doomed
            };
        assert(keys.to_set().contains(k) == doomed.contains(k));
    }
}

} // verus!
