//! The migration of aged-out block data from the hot store to the cold one.

use crate::api::{apply_changes, changes_fit, lookup, Change, Contents};
use crate::api::{StorageBackend, StorageReadView, StoreError, WriteBatch};
use crate::batch::{lemma_one_change, with_entry};
use crate::blocks::{cold_with, has_block_tables, hot_without, partly_copied};
use crate::copying::attempted;
use crate::tables::{lemma_table_names, CANONICAL_BLOCK_HASHES, MISC_VALUES};
use crate::tiers::{belongs, block_hash, block_left, cold_after, hot_after};
use crate::tiers::{law_complete_migration_is_safe, lemma_other_block};
use crate::tiers::{law_interrupted_migration_is_safe, law_migration_in_steps};
use crate::tiers::{law_migration_keeps_reads, law_next_run_reconciles};
use crate::tiers::{moves, owns, safely_moved, tiered_lookup};
use vstd::bytes::lemma_auto_spec_u64_to_from_le_bytes;
use vstd::bytes::{spec_u64_from_le_bytes, spec_u64_to_le_bytes};
use vstd::bytes::{u64_from_le_bytes, u64_to_le_bytes};
use vstd::prelude::*;
use vstd::string::StringSliceAdditionalSpecFns;

verus! {

/// Blocks that one pass moves at most.
pub const MIGRATION_BATCH_SIZE: u64 = 512;

/// The key of [`MISC_VALUES`] that holds the last block that has been migrated.
pub const COLD_MIGRATION_CURSOR_KEY: &'static str = "cold_migration_cursor";

/// Moves blocks that have left the hot window.
pub struct MigrationWorker<F: Fn(u64) -> bool> {
    /// Number of recent blocks that stay hot.
    pub hot_blocks: u64,
    /// Tells, before the block with this number, whether the worker has been asked to stop.
    pub shutdown: F,
    /// The latest head block number.
    pub head_block: u64,
}

/// The key under which the cursor is kept, as bytes.
pub open spec fn cursor_key() -> Seq<u8> {
    COLD_MIGRATION_CURSOR_KEY.spec_bytes()
}

/// The cursor that a hot store records, which is the last block that has been migrated.
/// There is none unless it holds eight bytes, which are read as a little-endian number.
pub open spec fn cursor_of(hot: Contents) -> Option<u64> {
    match lookup(hot, MISC_VALUES@, cursor_key()) {
        Some(bytes) => if bytes.len() == 8 {
            Some(spec_u64_from_le_bytes(bytes))
        } else {
            None
        },
        None => None,
    }
}

/// The block to go on with when `cursor` is the last one that has been migrated. Behind the
/// greatest number there is none, and it stands for itself.
pub open spec fn block_after(cursor: Option<u64>) -> u64 {
    match cursor {
        Some(last) => if last < u64::MAX {
            (last + 1) as u64
        } else {
            last
        },
        None => 0,
    }
}

/// The block with which the next pass begins.
pub open spec fn first_block(hot: Contents) -> u64 {
    block_after(cursor_of(hot))
}

/// The change that sets the cursor to `value`.
pub open spec fn cursor_change(value: u64) -> Change {
    Change::Put(MISC_VALUES@, cursor_key(), spec_u64_to_le_bytes(value))
}

/// The hot store with the cursor set to `value`.
pub open spec fn with_cursor(hot: Contents, value: u64) -> Contents {
    with_entry(hot, MISC_VALUES@, cursor_key(), spec_u64_to_le_bytes(value))
}

impl<F: Fn(u64) -> bool> MigrationWorker<F> {
    /// Reads the migration cursor: the last block that has been migrated, if there is one.
    pub fn read_cursor<H: StorageBackend>(&self, hot: &H) -> (r: Result<Option<u64>, StoreError>)
        ensures
            exists|opened: Result<H::ReadView<'_>, StoreError>|
                {
                    &&& #[trigger] call_ensures(H::begin_read, (hot,), opened)
                    &&& match opened {
                        Err(e) => r == Err::<Option<u64>, StoreError>(e),
                        Ok(view) => exists|
                            key: &[u8],
                            found: Result<Option<Vec<u8>>, StoreError>,
                        |
                            {
                                &&& key@ == cursor_key()
                                &&& #[trigger] call_ensures(
                                    <H::ReadView<'_> as StorageReadView>::get,
                                    (&view, MISC_VALUES, key),
                                    found,
                                )
                                &&& match found {
                                    Err(e) => r == Err::<Option<u64>, StoreError>(e),
                                    Ok(_) => r is Ok,
                                }
                            },
                    }
                },
            r matches Err(e) ==> hot.reports(e),
            r matches Ok(cursor) ==> hot.contents().contains_key(MISC_VALUES@) && cursor
                == cursor_of(hot.contents()),
            hot.infallible() && hot.contents().contains_key(MISC_VALUES@) ==> r is Ok,
    {
        let read = hot.begin_read()?;
        match read.get(MISC_VALUES, COLD_MIGRATION_CURSOR_KEY.as_bytes())? {
            Some(bytes) => if bytes.len() == 8 {
                Ok(Some(u64_from_le_bytes(bytes.as_slice())))
            } else {
                Ok(None)
            },
            None => Ok(None),
        }
    }

    /// Records the migration cursor, the last block that has been migrated. What comes of
    /// it is what comes of committing this one change.
    pub fn write_cursor<H: StorageBackend>(&self, hot: &mut H, value: u64) -> (r: Result<
        (),
        StoreError,
    >)
        ensures
            exists|begun: Result<WriteBatch, StoreError>|
                {
                    &&& #[trigger] call_ensures(H::begin_write, (&*old(hot),), begun)
                    &&& match begun {
                        Err(e) => r == Err::<(), StoreError>(e) && *final(hot) == *old(hot),
                        Ok(_) => exists|store: &mut H, batch: WriteBatch|
                            {
                                &&& *store == *old(hot) && *final(store) == *final(hot)
                                &&& batch@ == seq![cursor_change(value)]
                                &&& #[trigger] call_ensures(H::commit, (store, batch), r)
                            },
                    }
                },
            (forall|store: &mut H, batch: WriteBatch, e: StoreError| #[trigger]
                call_ensures(H::commit, (store, batch), Err::<(), StoreError>(e))
                    ==> final(store).contents() == store.contents()) ==> (r is Err
                ==> final(hot).contents() == old(hot).contents()),
            r matches Err(e) ==> old(hot).reports(e),
            attempted(
                r is Ok,
                old(hot).contents(),
                final(hot).contents(),
                MISC_VALUES@,
                with_cursor(old(hot).contents(), value),
            ),
            forall|e: StoreError|
                #![trigger final(hot).reports(e)]
                final(hot).reports(e) ==> old(hot).reports(e),
            old(hot).infallible() ==> final(hot).infallible(),
            old(hot).infallible() && old(hot).contents().contains_key(MISC_VALUES@) ==> r is Ok,
    {
        let mut write = hot.begin_write()?;
        let bytes = u64_to_le_bytes(value);
        write.put(MISC_VALUES, COLD_MIGRATION_CURSOR_KEY.as_bytes(), bytes.as_slice());
        proof {
            let change = Change::Put(MISC_VALUES@, cursor_key(), bytes@);
            lemma_one_change(hot.contents(), change);
            assert(write@ =~= seq![change]);
        }
        hot.commit(write)
    }

    /// Moves the header, the body, the receipts and the transaction locations of one block
    /// from the hot store to the cold one.
    ///
    /// Everything is copied before anything is deleted: when this fails, the block has left
    /// the hot store as a whole, with all of it in the cold one, or not at all, and a hot
    /// store whose failed commits change nothing is as it was.
    pub fn migrate_block<H: StorageBackend, C: StorageBackend>(
        &self,
        hot: &mut H,
        cold: &mut C,
        block_number: u64,
    ) -> (r: Result<(), StoreError>)
        ensures
            exists|cold_store: &mut C, copied: Result<Option<WriteBatch>, StoreError>|
                {
                    &&& *cold_store == *old(cold) && *final(cold_store) == *final(cold)
                    &&& #[trigger] call_ensures(
                        Self::copy_block::<H, C>,
                        (self, &*old(hot), cold_store, block_number),
                        copied,
                    )
                    &&& match copied {
                        Err(e) => r == Err::<(), StoreError>(e) && *final(hot) == *old(hot),
                        Ok(None) => r is Ok && *final(hot) == *old(hot),
                        Ok(Some(batch)) => exists|hot_store: &mut H|
                            {
                                &&& *hot_store == *old(hot) && *final(hot_store) == *final(hot)
                                &&& #[trigger] call_ensures(H::commit, (hot_store, batch), r)
                            },
                    }
                },
            ({
                let hot0 = old(hot).contents();
                let n = block_number as int;
                &&& block_hash(hot0, n) is None ==> *final(hot) == *old(hot) && *final(cold)
                    == *old(cold)
                &&& block_hash(hot0, n) is None && old(hot).infallible() && hot0.contains_key(
                    CANONICAL_BLOCK_HASHES@,
                ) ==> r is Ok
            }),
            (forall|store: &mut H, batch: WriteBatch, e: StoreError| #[trigger]
                call_ensures(H::commit, (store, batch), Err::<(), StoreError>(e))
                    ==> final(store).contents() == store.contents()) ==> (r is Err
                ==> final(hot).contents() == old(hot).contents()),
            block_left(
                old(hot).contents(),
                old(cold).contents(),
                final(hot).contents(),
                final(cold).contents(),
                block_number as int,
            ),
            r matches Err(e) ==> old(hot).reports(e) || old(cold).reports(e),
            r is Ok ==> {
                &&& final(hot).contents() == hot_after(
                    old(hot).contents(),
                    block_number as int,
                    block_number + 1,
                )
                &&& final(cold).contents() == cold_after(
                    old(hot).contents(),
                    old(cold).contents(),
                    block_number as int,
                    block_number + 1,
                )
            },
            forall|t: Seq<char>, k: Seq<u8>| #[trigger]
                tiered_lookup(final(hot).contents(), final(cold).contents(), t, k)
                    == tiered_lookup(old(hot).contents(), old(cold).contents(), t, k),
            forall|e: StoreError|
                #![trigger final(hot).reports(e)]
                final(hot).reports(e) ==> old(hot).reports(e),
            old(hot).infallible() ==> final(hot).infallible(),
            forall|e: StoreError|
                #![trigger final(cold).reports(e)]
                final(cold).reports(e) ==> old(cold).reports(e),
            old(cold).infallible() ==> final(cold).infallible(),
            old(hot).infallible() && old(cold).infallible() && migratable(
                old(hot).contents(),
                old(cold).contents(),
            ) ==> r is Ok,
    {
        let ghost hot0 = hot.contents();
        let ghost cold0 = cold.contents();
        let ghost n = block_number as int;
        proof {
            lemma_table_names();
            lemma_safe_at_first(hot0, cold0, n, n + 1);
            assert forall|hot1: Contents, cold1: Contents| #[trigger]
                safely_moved(hot0, cold0, hot1, cold1, n, n + 1) implies forall|
                t: Seq<char>,
                k: Seq<u8>,
            | #[trigger]
                tiered_lookup(hot1, cold1, t, k) == tiered_lookup(hot0, cold0, t, k) by {
                law_migration_keeps_reads(hot0, cold0, hot1, cold1, n, n + 1);
            }
        }
        match self.copy_block(hot, cold, block_number)? {
            Some(hot_write) => {
                proof {
                    law_complete_migration_is_safe(hot0, cold0, n, n + 1);
                }
                hot.commit(hot_write)
            },
            None => Ok(()),
        }
    }

    /// Runs one pass: moves the blocks behind the cursor, at most a batch of them, that lie
    /// below the hot window, and sets the cursor to the last one it moved. It looks at the
    /// shutdown signal before each block, and stops early only when it is raised there.
    /// Returns how many it moved, the first block that has not been moved, and the first
    /// block of the hot window.
    ///
    /// A block that fails ends the pass with its failure: the blocks before it have been
    /// moved, those behind it have not been touched, and the cursor is where it was.
    pub fn run_migration_pass<H: StorageBackend, C: StorageBackend>(
        &self,
        hot: &mut H,
        cold: &mut C,
    ) -> (r: Result<(u64, u64, u64), StoreError>)
        requires
            ({
                let start = first_block(old(hot).contents()) as int;
                let cutoff = self.head_block - self.hot_blocks;
                forall|n: u64|
                    start <= n < start + pass_length(start, cutoff) ==> #[trigger] call_requires(
                        self.shutdown,
                        (n,),
                    )
            }),
        ensures
            r matches Err(e) ==> old(hot).reports(e) || old(cold).reports(e),
            self.head_block <= self.hot_blocks ==> {
                &&& r matches Ok(pass) && pass == (0u64, 0u64, 0u64)
                &&& final(hot).contents() == old(hot).contents()
                &&& final(cold).contents() == old(cold).contents()
            },
            self.head_block > self.hot_blocks ==> {
                let hot0 = old(hot).contents();
                let cold0 = old(cold).contents();
                let start = first_block(hot0) as int;
                let cutoff = self.head_block - self.hot_blocks;
                let length = pass_length(start, cutoff);
                &&& r matches Ok(pass) ==> {
                    &&& pass.2 == cutoff
                    &&& pass.1 == start + pass.0
                    &&& pass.0 <= length
                    &&& forall|n: u64|
                        start <= n < pass.1 ==> #[trigger] call_ensures(self.shutdown, (n,), false)
                    &&& pass.0 < length ==> call_ensures(self.shutdown, (pass.1,), true)
                    &&& pass.0 == 0 ==> final(hot).contents() == hot0
                    &&& pass.0 > 0 ==> final(hot).contents() == with_cursor(
                        hot_after(hot0, start, start + pass.0),
                        (pass.1 - 1) as u64,
                    )
                    &&& pass.0 == 0 ==> final(cold).contents() == cold0
                    &&& pass.0 > 0 ==> final(cold).contents() == cold_after(
                        hot0,
                        cold0,
                        start,
                        start + pass.0,
                    )
                }
                &&& pass_left(
                    hot0,
                    cold0,
                    final(hot).contents(),
                    final(cold).contents(),
                    start,
                    start + length,
                )
                &&& r is Err ==> pass_failed(
                    hot0,
                    cold0,
                    final(hot).contents(),
                    final(cold).contents(),
                    start,
                    start + length,
                )
                &&& r matches Err(e) ==> {
                    ||| {
                        &&& call_ensures(
                            Self::read_cursor::<H>,
                            (self, &*old(hot)),
                            Err::<Option<u64>, StoreError>(e),
                        )
                        &&& *final(hot) == *old(hot) && *final(cold) == *old(cold)
                    }
                    ||| exists|n: u64, hot_store: &mut H, cold_store: &mut C|
                        {
                            &&& start <= n < start + length
                            &&& forall|m: u64|
                                start <= m <= n ==> #[trigger] call_ensures(
                                    self.shutdown,
                                    (m,),
                                    false,
                                )
                            &&& hot_store.contents() == hot_after(hot0, start, n as int)
                            &&& cold_store.contents() == cold_after(hot0, cold0, start, n as int)
                            &&& *final(hot_store) == *final(hot) && *final(cold_store) == *final(
                                cold)
                            &&& #[trigger] call_ensures(
                                Self::migrate_block::<H, C>,
                                (self, hot_store, cold_store, n),
                                Err::<(), StoreError>(e),
                            )
                        }
                    ||| exists|last: u64, hot_store: &mut H|
                        {
                            &&& start <= last < start + length
                            &&& forall|n: u64|
                                start <= n <= last ==> #[trigger] call_ensures(
                                    self.shutdown,
                                    (n,),
                                    false,
                                )
                            &&& last + 1 < start + length ==> call_ensures(
                                self.shutdown,
                                ((last + 1) as u64,),
                                true,
                            )
                            &&& hot_store.contents() == hot_after(hot0, start, last + 1)
                            &&& final(cold).contents() == cold_after(hot0, cold0, start, last + 1)
                            &&& *final(hot_store) == *final(hot)
                            &&& #[trigger] call_ensures(
                                Self::write_cursor::<H>,
                                (self, hot_store, last),
                                Err::<(), StoreError>(e),
                            )
                        }
                }
            },
            (forall|store: &mut H, batch: WriteBatch, e: StoreError| #[trigger]
                call_ensures(H::commit, (store, batch), Err::<(), StoreError>(e))
                    ==> final(store).contents() == store.contents()) ==> (r is Err ==> cursor_of(
                final(hot).contents(),
            ) == cursor_of(old(hot).contents())),
            forall|t: Seq<char>, k: Seq<u8>|
                !is_cursor(t, k) ==> #[trigger] tiered_lookup(
                    final(hot).contents(),
                    final(cold).contents(),
                    t,
                    k,
                ) == tiered_lookup(old(hot).contents(), old(cold).contents(), t, k),
            forall|e: StoreError|
                #![trigger final(hot).reports(e)]
                final(hot).reports(e) ==> old(hot).reports(e),
            old(hot).infallible() ==> final(hot).infallible(),
            forall|e: StoreError|
                #![trigger final(cold).reports(e)]
                final(cold).reports(e) ==> old(cold).reports(e),
            old(cold).infallible() ==> final(cold).infallible(),
            old(hot).infallible() && old(cold).infallible() && migratable(
                old(hot).contents(),
                old(cold).contents(),
            ) ==> r is Ok,
    {
        let ghost hot0 = hot.contents();
        let ghost cold0 = cold.contents();
        if self.head_block <= self.hot_blocks {
            return Ok((0, 0, 0));
        }
        let cutoff: u64 = self.head_block - self.hot_blocks;
        let ghost first = first_block(hot0) as int;
        let ghost length = pass_length(first, cutoff as int);
        proof {
            lemma_table_names();
            lemma_safe_at_first(hot0, cold0, first, first + length);
            assert forall|hot1: Contents, cold1: Contents| #[trigger]
                pass_left(hot0, cold0, hot1, cold1, first, first + length) implies forall|
                t: Seq<char>,
                k: Seq<u8>,
            |
                !is_cursor(t, k) ==> #[trigger] tiered_lookup(hot1, cold1, t, k) == tiered_lookup(
                    hot0,
                    cold0,
                    t,
                    k,
                ) by {
                law_pass_keeps_reads(hot0, cold0, hot1, cold1, first, first + length);
            }
        }
        let cursor = next_block(self.read_cursor(hot)?);
        if cursor >= cutoff {
            return Ok((0, cursor, cutoff));
        }
        let end: u64 = if cutoff - cursor < MIGRATION_BATCH_SIZE {
            cutoff
        } else {
            cursor + MIGRATION_BATCH_SIZE
        };
        let mut block_number: u64 = cursor;
        proof {
            lemma_nothing_moves(hot0, cold0, first);
            lemma_safe_at_first(hot0, cold0, first, first);
        }
        while block_number < end
            invariant
                first == cursor,
                first + length == end,
                cursor <= block_number <= end,
                forall|n: u64|
                    first <= n < end ==> #[trigger] call_requires(self.shutdown, (n,)),
                hot.contents() == hot_after(hot0, first, block_number as int),
                cold.contents() == cold_after(hot0, cold0, first, block_number as int),
                safely_moved(
                    hot0,
                    cold0,
                    hot.contents(),
                    cold.contents(),
                    first,
                    block_number as int,
                ),
                hot0 == old(hot).contents(),
                cold0 == old(cold).contents(),
                forall|e: StoreError| #[trigger] hot.reports(e) ==> old(hot).reports(e),
                old(hot).infallible() ==> hot.infallible(),
                forall|e: StoreError| #[trigger] cold.reports(e) ==> old(cold).reports(e),
                old(cold).infallible() ==> cold.infallible(),
                forall|n: u64|
                    first <= n < block_number ==> #[trigger] call_ensures(
                        self.shutdown,
                        (n,),
                        false,
                    ),
                forall|hot1: Contents, cold1: Contents| #[trigger]
                    pass_left(hot0, cold0, hot1, cold1, first, first + length) ==> forall|
                        t: Seq<char>,
                        k: Seq<u8>,
                    |
                        !is_cursor(t, k) ==> #[trigger] tiered_lookup(hot1, cold1, t, k)
                            == tiered_lookup(hot0, cold0, t, k),
                self.head_block > self.hot_blocks,
                first == first_block(hot0),
                cutoff == self.head_block - self.hot_blocks,
                length == pass_length(first, cutoff as int),
            ensures
                block_number < end ==> call_ensures(self.shutdown, (block_number,), true),
            decreases end - block_number,
        {
            if (self.shutdown)(block_number) {
                break ;
            }
            let moved = self.migrate_block(hot, cold, block_number);
            proof {
                let n = block_number as int;
                law_interrupted_migration_is_safe(
                    hot0,
                    cold0,
                    hot.contents(),
                    cold.contents(),
                    first,
                    n,
                    n + 1,
                );
                law_migration_in_steps(hot0, cold0, first, n, n + 1);
                lemma_safe_widened(
                    hot0,
                    cold0,
                    hot.contents(),
                    cold.contents(),
                    first,
                    n + 1,
                    end as int,
                );
                if moved is Err {
                    law_failed_pass_stops_at_block(
                        hot0,
                        cold0,
                        hot.contents(),
                        cold.contents(),
                        first,
                        n,
                    );
                }
            }
            moved?;
            block_number += 1;
        }
        let migrated: u64 = block_number - cursor;
        if migrated > 0 {
            proof {
                lemma_safe_widened(
                    hot0,
                    cold0,
                    hot.contents(),
                    cold.contents(),
                    first,
                    block_number as int,
                    end as int,
                );
            }
            let ghost moved = hot.contents();
            let last: u64 = block_number - 1;
            let recorded = self.write_cursor(hot, last);
            proof {
                if hot.contents() != moved {
                    assert(advanced(
                        hot0,
                        cold0,
                        hot.contents(),
                        cold.contents(),
                        first,
                        last,
                    ));
                }
                assert(pass_left(
                    hot0,
                    cold0,
                    hot.contents(),
                    cold.contents(),
                    first,
                    first + length,
                ));
                assert(unrecorded(
                    hot0,
                    cold0,
                    hot.contents(),
                    cold.contents(),
                    first,
                    last,
                ));
            }
            recorded?;
        } else {
            proof {
                lemma_nothing_moves(hot0, cold0, first);
            }
        }
        Ok((migrated, block_number, cutoff))
    }

    /// Copies the entries of one block to the cold store and collects the changes that
    /// delete them from the hot one; without a canonical hash there are none to make.
    pub fn copy_block<H: StorageBackend, C: StorageBackend>(
        &self,
        hot: &H,
        cold: &mut C,
        block_number: u64,
    ) -> (r: Result<Option<WriteBatch>, StoreError>)
        ensures
            exists|opened: Result<H::ReadView<'_>, StoreError>|
                {
                    &&& #[trigger] call_ensures(H::begin_read, (hot,), opened)
                    &&& match opened {
                        Err(e) => {
                            &&& r == Err::<Option<WriteBatch>, StoreError>(e)
                            &&& *final(cold) == *old(cold)
                        },
                        Ok(view) => exists|
                            key: &[u8],
                            found: Result<Option<Vec<u8>>, StoreError>,
                        |
                            {
                                &&& key@ == spec_u64_to_le_bytes(block_number)
                                &&& #[trigger] call_ensures(
                                    <H::ReadView<'_> as StorageReadView>::get,
                                    (&view, CANONICAL_BLOCK_HASHES, key),
                                    found,
                                )
                                &&& match found {
                                    Err(e) => {
                                        &&& r == Err::<Option<WriteBatch>, StoreError>(e)
                                        &&& *final(cold) == *old(cold)
                                    },
                                    Ok(None) => {
                                        &&& r matches Ok(batch) && batch is None
                                        &&& *final(cold) == *old(cold)
                                    },
                                    Ok(Some(found)) => exists|
                                        hash: &[u8],
                                        store: &mut C,
                                        copied: Result<bool, StoreError>,
                                    |
                                        {
                                            &&& hash@ == found@
                                            &&& *store == *old(cold)
                                            &&& *final(store) == *final(cold)
                                            &&& #[trigger] call_ensures(
                                                Self::copy_block_entries::<H::ReadView<'_>, C>,
                                                (self, store, &view, hash),
                                                copied,
                                            )
                                            &&& match copied {
                                                Err(e) => r == Err::<
                                                    Option<WriteBatch>,
                                                    StoreError,
                                                >(e),
                                                Ok(with_body) => exists|
                                                    begun: Result<WriteBatch, StoreError>,
                                                |
                                                    {
                                                        &&& #[trigger] call_ensures(
                                                            H::begin_write,
                                                            (hot,),
                                                            begun,
                                                        )
                                                        &&& match begun {
                                                            Err(e) => r == Err::<
                                                                Option<WriteBatch>,
                                                                StoreError,
                                                            >(e),
                                                            Ok(batch0) => exists|
                                                                batch: &mut WriteBatch,
                                                                deleted: Result<(), StoreError>,
                                                            |
                                                                {
                                                                    &&& *batch == batch0
                                                                    &&& #[trigger] call_ensures(
                                                                        Self::delete_block_entries::<H::ReadView<'_>>,
                                                                        (
                                                                            self,
                                                                            batch,
                                                                            &view,
                                                                            hash,
                                                                            with_body,
                                                                        ),
                                                                        deleted,
                                                                    )
                                                                    &&& match deleted {
                                                                        Err(e) => r == Err::<
                                                                            Option<WriteBatch>,
                                                                            StoreError,
                                                                        >(e),
                                                                        Ok(_) => r == Ok::<
                                                                            Option<WriteBatch>,
                                                                            StoreError,
                                                                        >(Some(*final(batch))),
                                                                    }
                                                                },
                                                        }
                                                    },
                                            }
                                        },
                                }
                            },
                    }
                },
            block_hash(hot.contents(), block_number as int) is None ==> *final(cold) == *old(cold),
            hot.infallible() && hot.contents().contains_key(CANONICAL_BLOCK_HASHES@) && block_hash(
                hot.contents(),
                block_number as int,
            ) is None ==> (r matches Ok(batch) && batch is None),
            r matches Err(e) ==> hot.reports(e) || old(cold).reports(e),
            safely_moved(
                hot.contents(),
                old(cold).contents(),
                hot.contents(),
                final(cold).contents(),
                block_number as int,
                block_number + 1,
            ),
            r matches Ok(batch) ==> {
                let hot1 = hot_after(hot.contents(), block_number as int, block_number + 1);
                &&& final(cold).contents() == cold_after(
                    hot.contents(),
                    old(cold).contents(),
                    block_number as int,
                    block_number + 1,
                )
                &&& forall|t: Seq<char>, k: Seq<u8>| #[trigger]
                    lookup(hot.contents(), t, k) is Some && moves(
                        hot.contents(),
                        block_number as int,
                        block_number + 1,
                        t,
                        k,
                    ) ==> old(cold).contents().contains_key(t)
                &&& match batch {
                    Some(hot_write) => changes_fit(hot.contents(), hot_write@) && apply_changes(
                        hot.contents(),
                        hot_write@,
                    ) == hot1,
                    None => hot.contents() == hot1,
                }
            },
            forall|e: StoreError|
                #![trigger final(cold).reports(e)]
                final(cold).reports(e) ==> old(cold).reports(e),
            old(cold).infallible() ==> final(cold).infallible(),
            hot.infallible() && old(cold).infallible() && migratable(
                hot.contents(),
                old(cold).contents(),
            ) ==> r is Ok,
    {
        let ghost hot0 = hot.contents();
        let ghost cold0 = cold.contents();
        let ghost n = block_number as int;
        proof {
            lemma_table_names();
            lemma_safe_at_first(hot0, cold0, n, n + 1);
        }
        let number = u64_to_le_bytes(block_number);
        let hot_read = hot.begin_read()?;
        let found = match hot_read.get(CANONICAL_BLOCK_HASHES, number.as_slice())? {
            Some(found) => found,
            None => {
                proof {
                    lemma_no_hash(hot0, cold0, n);
                }
                return Ok(None);
            },
        };
        let hash = found.as_slice();
        let copied = self.copy_block_entries(cold, &hot_read, hash);
        proof {
            lemma_block_by_hash(hot0, cold0, hash@, n);
        }
        let with_body = copied?;
        let mut hot_write = hot.begin_write()?;
        let deleted = self.delete_block_entries(&mut hot_write, &hot_read, hash, with_body);
        proof {
            if deleted is Ok {
                let changes = choose|changes: Seq<Change>|
                    {
                        &&& hot_write@ == Seq::<Change>::empty() + changes
                        &&& changes_fit(hot0, changes)
                        &&& #[trigger] apply_changes(hot0, changes) == hot_without(hot0, hash@)
                    };
                assert(hot_write@ =~= changes);
            }
        }
        deleted?;
        Ok(Some(hot_write))
    }
}

/// The block to go on with behind the last one that has been migrated.
fn next_block(cursor: Option<u64>) -> (r: u64)
    ensures
        r == block_after(cursor),
{
    match cursor {
        Some(last) => if last < u64::MAX {
            last + 1
        } else {
            last
        },
        None => 0,
    }
}

/// The hot store has every table that the migration reads or writes, and the cold
/// store every table that it fills.
pub open spec fn migratable(hot: Contents, cold: Contents) -> bool {
    &&& hot.contains_key(CANONICAL_BLOCK_HASHES@)
    &&& hot.contains_key(MISC_VALUES@)
    &&& has_block_tables(hot)
    &&& has_block_tables(cold)
}

/// The number of blocks that a pass from `start` towards `cutoff` is to move.
pub open spec fn pass_length(start: int, cutoff: int) -> int {
    if cutoff <= start {
        0
    } else if cutoff - start < MIGRATION_BATCH_SIZE {
        cutoff - start
    } else {
        MIGRATION_BATCH_SIZE as int
    }
}

/// All blocks from `start` to `last` have been moved, and the cursor has been set to the
/// last one.
pub open spec fn advanced(
    hot: Contents,
    cold: Contents,
    hot1: Contents,
    cold1: Contents,
    start: int,
    last: u64,
) -> bool {
    let moved = hot_after(hot, start, last + 1);
    &&& hot.contains_key(MISC_VALUES@)
    &&& hot1 == with_cursor(moved, last)
    &&& cold1 == cold_after(hot, cold, start, last + 1)
    &&& safely_moved(hot, cold, moved, cold1, start, last + 1)
}

/// The stores may have been left like this by a pass over the blocks from `start` up
/// to, and without, `end`: blocks have been moved safely, and the cursor has been
/// set, if at all, to a block up to which all of them have been moved.
pub open spec fn pass_left(
    hot: Contents,
    cold: Contents,
    hot1: Contents,
    cold1: Contents,
    start: int,
    end: int,
) -> bool {
    ||| safely_moved(hot, cold, hot1, cold1, start, end)
    ||| exists|last: u64|
        start <= last < end && #[trigger] advanced(hot, cold, hot1, cold1, start, last)
}

/// A pass from block `start` on has stopped at block `n`: the blocks before it have been
/// moved, and the attempt to move it has left the stores like this.
pub open spec fn stopped_at(
    hot: Contents,
    cold: Contents,
    hot1: Contents,
    cold1: Contents,
    start: int,
    n: int,
) -> bool {
    let moved = hot_after(hot, start, n);
    let received = cold_after(hot, cold, start, n);
    &&& safely_moved(hot, cold, moved, received, start, n)
    &&& block_left(moved, received, hot1, cold1, n)
}

/// All blocks from `start` to `last` have been moved, and the cursor has been set to the
/// last one or left as it was.
pub open spec fn unrecorded(
    hot: Contents,
    cold: Contents,
    hot1: Contents,
    cold1: Contents,
    start: int,
    last: u64,
) -> bool {
    let moved = hot_after(hot, start, last + 1);
    &&& hot1 == moved || hot1 == with_cursor(moved, last)
    &&& cold1 == cold_after(hot, cold, start, last + 1)
    &&& safely_moved(hot, cold, moved, cold1, start, last + 1)
}

/// The stores may have been left like this by a pass that failed over the blocks from
/// `start` up to, and without, `end`: nothing has been touched, or the pass has stopped at
/// one of the blocks, or only recording the cursor has failed.
pub open spec fn pass_failed(
    hot: Contents,
    cold: Contents,
    hot1: Contents,
    cold1: Contents,
    start: int,
    end: int,
) -> bool {
    ||| hot1 == hot && cold1 == cold
    ||| exists|n: int| start <= n < end && #[trigger] stopped_at(hot, cold, hot1, cold1, start, n)
    ||| exists|last: u64|
        start <= last < end && #[trigger] unrecorded(hot, cold, hot1, cold1, start, last)
}

/// The entry is the one that holds the migration cursor.
pub open spec fn is_cursor(table: Seq<char>, key: Seq<u8>) -> bool {
    table == MISC_VALUES@ && key == cursor_key()
}

/// A read through both tiers gives what it gave before a pass, the cursor apart.
pub proof fn law_pass_keeps_reads(
    hot: Contents,
    cold: Contents,
    hot1: Contents,
    cold1: Contents,
    start: int,
    end: int,
)
    requires
        pass_left(hot, cold, hot1, cold1, start, end),
    ensures
        forall|t: Seq<char>, k: Seq<u8>|
            !is_cursor(t, k) ==> #[trigger] tiered_lookup(hot1, cold1, t, k) == tiered_lookup(
                hot,
                cold,
                t,
                k,
            ),
{
    if safely_moved(hot, cold, hot1, cold1, start, end) {
        law_migration_keeps_reads(hot, cold, hot1, cold1, start, end);
    } else {
        lemma_table_names();
        let last = choose|last: u64|
            start <= last < end && #[trigger] advanced(hot, cold, hot1, cold1, start, last);
        let moved = hot_after(hot, start, last + 1);
        law_migration_keeps_reads(hot, cold, moved, cold1, start, last + 1);
        assert forall|t: Seq<char>, k: Seq<u8>| !is_cursor(t, k) implies #[trigger] tiered_lookup(
            hot1,
            cold1,
            t,
            k,
        ) == tiered_lookup(hot, cold, t, k) by {
            assert(tiered_lookup(moved, cold1, t, k) == tiered_lookup(hot, cold, t, k));
        }
    }
}

/// Nothing has been moved yet.
proof fn lemma_safe_at_first(hot: Contents, cold: Contents, start: int, end: int)
    ensures
        safely_moved(hot, cold, hot, cold, start, end),
{
}

/// What is a safe outcome over some blocks is one over more of them.
proof fn lemma_safe_widened(
    hot: Contents,
    cold: Contents,
    hot1: Contents,
    cold1: Contents,
    start: int,
    end: int,
    end1: int,
)
    requires
        safely_moved(hot, cold, hot1, cold1, start, end),
        end <= end1,
    ensures
        safely_moved(hot, cold, hot1, cold1, start, end1),
{
    assert forall|t: Seq<char>, k: Seq<u8>| moves(hot, start, end, t, k) implies #[trigger] moves(
        hot,
        start,
        end1,
        t,
        k,
    ) by {
        let n = choose|n: int| start <= n < end && #[trigger] owns(hot, n, t, k);
        assert(owns(hot, n, t, k));
    }
}

/// Over no blocks nothing moves.
proof fn lemma_nothing_moves(hot: Contents, cold: Contents, at: int)
    ensures
        hot_after(hot, at, at) == hot,
        cold_after(hot, cold, at, at) == cold,
{
    let hot1 = hot_after(hot, at, at);
    let cold1 = cold_after(hot, cold, at, at);
    assert forall|t: Seq<char>| hot.contains_key(t) implies #[trigger] hot1[t] == hot[t] by {
        assert(hot1[t] =~= hot[t]);
    }
    assert(hot1 =~= hot);
    assert forall|t: Seq<char>| cold.contains_key(t) implies #[trigger] cold1[t] == cold[t] by {
        assert(cold1[t] =~= cold[t]);
    }
    assert(cold1 =~= cold);
}

/// Without a canonical hash there is nothing to move.
proof fn lemma_no_hash(hot: Contents, cold: Contents, n: int)
    requires
        block_hash(hot, n) is None,
    ensures
        hot_after(hot, n, n + 1) == hot,
        cold_after(hot, cold, n, n + 1) == cold,
{
    let hot1 = hot_after(hot, n, n + 1);
    let cold1 = cold_after(hot, cold, n, n + 1);
    assert forall|t: Seq<char>| hot.contains_key(t) implies #[trigger] hot1[t] == hot[t] by {
        assert(hot1[t] =~= hot[t]);
    }
    assert(hot1 =~= hot);
    assert forall|t: Seq<char>| cold.contains_key(t) implies #[trigger] cold1[t] == cold[t] by {
        assert(cold1[t] =~= cold[t]);
    }
    assert(cold1 =~= cold);
}

/// What moving one block does is what moving the entries under its hash does.
proof fn lemma_block_by_hash(hot: Contents, cold: Contents, hash: Seq<u8>, n: int)
    requires
        block_hash(hot, n) == Some(hash),
    ensures
        hot_after(hot, n, n + 1) == hot_without(hot, hash),
        cold_after(hot, cold, n, n + 1) == cold_with(hot, cold, hash),
        forall|t: Seq<char>, k: Seq<u8>| #[trigger]
            moves(hot, n, n + 1, t, k) == belongs(hash, t, k),
        forall|cold1: Contents| #[trigger]
            partly_copied(hot, cold, cold1, hash) ==> safely_moved(
                hot,
                cold,
                hot,
                cold1,
                n,
                n + 1,
            ),
{
    assert forall|t: Seq<char>, k: Seq<u8>| #[trigger]
        moves(hot, n, n + 1, t, k) == belongs(hash, t, k) by {
        assert(owns(hot, n, t, k) == belongs(hash, t, k));
    }
    let hot1 = hot_after(hot, n, n + 1);
    let hot2 = hot_without(hot, hash);
    assert forall|t: Seq<char>| hot.contains_key(t) implies #[trigger] hot1[t] == hot2[t] by {
        assert(hot1[t] =~= hot2[t]);
    }
    assert(hot1 =~= hot2);
    let cold1 = cold_after(hot, cold, n, n + 1);
    let cold2 = cold_with(hot, cold, hash);
    assert forall|t: Seq<char>| cold.contains_key(t) implies #[trigger] cold1[t] == cold2[t] by {
        assert(cold1[t] =~= cold2[t]);
    }
    assert(cold1 =~= cold2);
}

/// A cursor that has been recorded is read back, and the next pass goes on behind it.
pub proof fn law_cursor_is_read_back(hot: Contents, value: u64)
    ensures
        cursor_of(with_cursor(hot, value)) == Some(value),
        value < u64::MAX ==> first_block(with_cursor(hot, value)) == value + 1,
{
    lemma_auto_spec_u64_to_from_le_bytes();
}

/// A pass never moves the cursor back nor past its end, and every entry of a block that
/// the cursor has passed has gone from the hot store to the cold one.
pub proof fn law_cursor_tells_what_moved(
    hot: Contents,
    cold: Contents,
    hot1: Contents,
    cold1: Contents,
    end: u64,
)
    requires
        first_block(hot) <= end,
        pass_left(hot, cold, hot1, cold1, first_block(hot) as int, end as int),
    ensures
        first_block(hot) <= first_block(hot1) <= end,
        forall|n: int, t: Seq<char>, k: Seq<u8>|
            first_block(hot) <= n < first_block(hot1) && #[trigger] owns(hot, n, t, k) ==> lookup(
                hot1,
                t,
                k,
            ) is None && (lookup(hot, t, k) is Some ==> lookup(cold1, t, k) == lookup(hot, t, k)),
{
    lemma_table_names();
    let start = first_block(hot) as int;
    if safely_moved(hot, cold, hot1, cold1, start, end as int) {
        assert(!moves(hot, start, end as int, MISC_VALUES@, cursor_key()));
        assert(lookup(hot1, MISC_VALUES@, cursor_key()) == lookup(hot, MISC_VALUES@, cursor_key()));
    } else {
        let last = choose|last: u64|
            start <= last < end && #[trigger] advanced(hot, cold, hot1, cold1, start, last);
        let moved = hot_after(hot, start, last + 1);
        law_cursor_is_read_back(moved, last);
        assert forall|n: int, t: Seq<char>, k: Seq<u8>|
            start <= n <= last && #[trigger] owns(hot, n, t, k) implies lookup(hot1, t, k) is None
            && (lookup(hot, t, k) is Some ==> lookup(cold1, t, k) == lookup(hot, t, k)) by {
            assert(moves(hot, start, last + 1, t, k));
            assert(lookup(moved, t, k) is None);
            assert(lookup(moved, t, k) == lookup(hot, t, k) || lookup(cold1, t, k) == lookup(
                hot,
                t,
                k,
            ));
        }
    }
}

/// Whether a pass has come to its end, was stopped or has failed: a block outside those it
/// was to move, such as every block of the hot window, keeps its entries where they were,
/// if its hash differs from their hashes and is as long.
pub proof fn law_pass_leaves_other_blocks(
    hot: Contents,
    cold: Contents,
    hot1: Contents,
    cold1: Contents,
    start: int,
    end: int,
    hash: Seq<u8>,
    table: Seq<char>,
    key: Seq<u8>,
)
    requires
        pass_left(hot, cold, hot1, cold1, start, end),
        belongs(hash, table, key),
        forall|n: int|
            start <= n < end ==> match #[trigger] block_hash(hot, n) {
                Some(moved) => moved.len() == hash.len() && moved != hash,
                None => true,
            },
    ensures
        lookup(hot1, table, key) == lookup(hot, table, key),
        lookup(cold1, table, key) == lookup(cold, table, key),
{
    lemma_table_names();
    lemma_other_block(hot, start, end, hash, table, key);
    if safely_moved(hot, cold, hot1, cold1, start, end) {
        assert(lookup(hot1, table, key) == lookup(hot, table, key));
        assert(lookup(cold1, table, key) == lookup(cold, table, key));
    } else {
        let last = choose|last: u64|
            start <= last < end && #[trigger] advanced(hot, cold, hot1, cold1, start, last);
        let moved = hot_after(hot, start, last + 1);
        lemma_other_block(hot, start, last + 1, hash, table, key);
        assert(lookup(moved, table, key) == lookup(hot, table, key));
        assert(lookup(cold1, table, key) == lookup(cold, table, key));
    }
}

/// A pass that fails at a block leaves the cursor where it was, so that the next one
/// begins again at the same block. The blocks before it have gone from the hot store to
/// the cold one, and no entry of any other block than these and the one that failed has
/// been touched.
pub proof fn law_failed_pass_stops_at_block(
    hot: Contents,
    cold: Contents,
    hot1: Contents,
    cold1: Contents,
    start: int,
    n: int,
)
    requires
        start <= n,
        stopped_at(hot, cold, hot1, cold1, start, n),
    ensures
        cursor_of(hot1) == cursor_of(hot),
        forall|t: Seq<char>, k: Seq<u8>| #[trigger]
            moves(hot, start, n, t, k) ==> lookup(hot1, t, k) is None && (lookup(hot, t, k) is Some
                ==> lookup(cold1, t, k) == lookup(hot, t, k)),
        forall|t: Seq<char>, k: Seq<u8>|
            !(#[trigger] moves(hot, start, n + 1, t, k)) ==> lookup(hot1, t, k) == lookup(hot, t, k)
                && lookup(cold1, t, k) == lookup(cold, t, k),
{
    lemma_table_names();
    let moved = hot_after(hot, start, n);
    let received = cold_after(hot, cold, start, n);
    law_interrupted_migration_is_safe(hot, cold, hot1, cold1, start, n, n + 1);
    assert(!moves(hot, start, n + 1, MISC_VALUES@, cursor_key()));
    assert(lookup(hot1, MISC_VALUES@, cursor_key()) == lookup(hot, MISC_VALUES@, cursor_key()));
    assert forall|t: Seq<char>, k: Seq<u8>| #[trigger] moves(hot, start, n, t, k) implies lookup(
        hot1,
        t,
        k,
    ) is None && (lookup(hot, t, k) is Some ==> lookup(cold1, t, k) == lookup(hot, t, k)) by {
        assert(lookup(moved, t, k) is None);
        assert(lookup(hot1, t, k) == lookup(moved, t, k) || lookup(hot1, t, k) is None);
        assert(lookup(cold1, t, k) == lookup(received, t, k));
        assert(lookup(received, t, k) == lookup(received, t, k));
    }
    assert forall|t: Seq<char>, k: Seq<u8>|
        !(#[trigger] moves(hot, start, n + 1, t, k)) implies lookup(hot1, t, k) == lookup(hot, t, k)
        && lookup(cold1, t, k) == lookup(cold, t, k) by {
        assert(lookup(hot1, t, k) == lookup(hot1, t, k));
        assert(lookup(cold1, t, k) == lookup(cold1, t, k));
    }
}

/// A pass that is not stopped moves blocks as long as there are any below the cutoff,
/// and never reaches beyond it.
pub proof fn law_pass_makes_progress(start: int, cutoff: int)
    ensures
        start < cutoff <==> 0 < pass_length(start, cutoff),
        start <= cutoff ==> start + pass_length(start, cutoff) <= cutoff,
        pass_length(start, cutoff) <= MIGRATION_BATCH_SIZE,
{
}

/// A pass that failed or was stopped before it recorded the cursor is made good by the
/// next one: over the same blocks it ends as if the first had not happened.
pub proof fn law_next_pass_reconciles(
    hot: Contents,
    cold: Contents,
    hot1: Contents,
    cold1: Contents,
    end: int,
)
    requires
        safely_moved(hot, cold, hot1, cold1, first_block(hot) as int, end),
    ensures
        cursor_of(hot1) == cursor_of(hot),
        hot_after(hot1, first_block(hot1) as int, end) == hot_after(
            hot,
            first_block(hot) as int,
            end,
        ),
        cold_after(hot1, cold1, first_block(hot1) as int, end) == cold_after(
            hot,
            cold,
            first_block(hot) as int,
            end,
        ),
{
    lemma_table_names();
    let start = first_block(hot) as int;
    assert(!moves(hot, start, end, MISC_VALUES@, cursor_key()));
    assert(lookup(hot1, MISC_VALUES@, cursor_key()) == lookup(hot, MISC_VALUES@, cursor_key()));
    law_next_run_reconciles(hot, cold, hot1, cold1, start, end);
}

/// The next pass goes on where the cursor stands: two passes, one after the other, do
/// what one pass over all their blocks would do.
pub proof fn law_passes_add_up(hot: Contents, cold: Contents, start: int, middle: u64, end: u64)
    requires
        0 <= start < middle < end,
        hot.contains_key(MISC_VALUES@),
    ensures
        ({
            let hot1 = with_cursor(hot_after(hot, start, middle as int), (middle - 1) as u64);
            let cold1 = cold_after(hot, cold, start, middle as int);
            let last = (end - 1) as u64;
            &&& first_block(hot1) == middle
            &&& with_cursor(hot_after(hot1, middle as int, end as int), last) == with_cursor(
                hot_after(hot, start, end as int),
                last,
            )
            &&& cold_after(hot1, cold1, middle as int, end as int) == cold_after(
                hot,
                cold,
                start,
                end as int,
            )
        }),
{
    lemma_table_names();
    let m = middle as int;
    let e = end as int;
    let moved = hot_after(hot, start, m);
    let hot1 = with_cursor(moved, (middle - 1) as u64);
    let last = (end - 1) as u64;
    let cold1 = cold_after(hot, cold, start, m);
    law_cursor_is_read_back(moved, (middle - 1) as u64);
    law_migration_in_steps(hot, cold, start, m, e);
    assert forall|n: int| #[trigger] block_hash(hot1, n) == block_hash(moved, n) by {}
    assert forall|t: Seq<char>, k: Seq<u8>| #[trigger]
        moves(hot1, m, e, t, k) == moves(moved, m, e, t, k) by {
        if moves(hot1, m, e, t, k) {
            let n = choose|n: int| m <= n < e && #[trigger] owns(hot1, n, t, k);
            assert(block_hash(hot1, n) == block_hash(moved, n));
            assert(owns(moved, n, t, k));
        }
        if moves(moved, m, e, t, k) {
            let n = choose|n: int| m <= n < e && #[trigger] owns(moved, n, t, k);
            assert(block_hash(hot1, n) == block_hash(moved, n));
            assert(owns(hot1, n, t, k));
        }
    }
    let left = with_cursor(hot_after(hot1, m, e), last);
    let right = with_cursor(hot_after(moved, m, e), last);
    assert(left.dom() =~= right.dom());
    assert forall|t: Seq<char>| left.contains_key(t) implies #[trigger] left[t] == right[t] by {
        assert forall|k: Seq<u8>| #[trigger] left[t].dom().contains(k) == right[t].dom().contains(k)
            && (left[t].dom().contains(k) ==> left[t][k] == right[t][k]) by {
            assert(moves(hot1, m, e, t, k) == moves(moved, m, e, t, k));
        }
        assert(left[t] =~= right[t]);
    }
    assert(left =~= right);
    let left = cold_after(hot1, cold1, m, e);
    let right = cold_after(moved, cold1, m, e);
    assert(left.dom() =~= right.dom());
    assert forall|t: Seq<char>| left.contains_key(t) implies #[trigger] left[t] == right[t] by {
        assert forall|k: Seq<u8>| #[trigger] left[t].dom().contains(k) == right[t].dom().contains(k)
            && (left[t].dom().contains(k) ==> left[t][k] == right[t][k]) by {
            assert(moves(hot1, m, e, t, k) == moves(moved, m, e, t, k));
            if moves(hot1, m, e, t, k) {
                assert(t != MISC_VALUES@);
            }
        }
        assert(left[t] =~= right[t]);
    }
    assert(left =~= right);
}

} // verus!
