//! The entries of one block: copying them to the cold store, and collecting their
//! deletion from the hot one.

use crate::api::{apply_change, apply_changes, change_table, changes_fit};
use crate::api::{lookup, with_prefix, with_suffix, Change, Contents, Entries};
use crate::api::{StorageBackend, StorageReadView, StoreError, WriteBatch};
use crate::batch::{deletes, with_entries, with_entry};
use crate::batch::{lemma_apply_append, lemma_apply_deletes, lemma_one_change};
use crate::bytes::{has_prefix, has_suffix};
use crate::migration::MigrationWorker;
use crate::tables::{lemma_table_names, BODIES, HEADERS, RECEIPTS, TRANSACTION_LOCATIONS};
use crate::tiers::belongs;
use vstd::prelude::*;

verus! {

/// The store has the tables that hold the entries of blocks.
pub open spec fn has_block_tables(contents: Contents) -> bool {
    &&& contents.contains_key(HEADERS@)
    &&& contents.contains_key(BODIES@)
    &&& contents.contains_key(RECEIPTS@)
    &&& contents.contains_key(TRANSACTION_LOCATIONS@)
}

/// The cold store after it has received the block with this hash from the hot one.
pub open spec fn cold_with(hot: Contents, cold: Contents, hash: Seq<u8>) -> Contents {
    Map::new(
        |t: Seq<char>| cold.contains_key(t),
        |t: Seq<char>|
            Map::new(
                |k: Seq<u8>|
                    cold[t].contains_key(k) || (lookup(hot, t, k) is Some && belongs(hash, t, k)),
                |k: Seq<u8>|
                    if lookup(hot, t, k) is Some && belongs(hash, t, k) {
                        hot[t][k]
                    } else {
                        cold[t][k]
                    },
            ),
    )
}

/// The hot store after the block with this hash has left it.
pub open spec fn hot_without(hot: Contents, hash: Seq<u8>) -> Contents {
    Map::new(
        |t: Seq<char>| hot.contains_key(t),
        |t: Seq<char>|
            Map::new(
                |k: Seq<u8>| hot[t].contains_key(k) && !belongs(hash, t, k),
                |k: Seq<u8>| hot[t][k],
            ),
    )
}

/// The cold store has changed from `cold` to `cold1` only by entries of the block with this
/// hash that the hot store has.
pub open spec fn partly_copied(
    hot: Contents,
    cold: Contents,
    cold1: Contents,
    hash: Seq<u8>,
) -> bool {
    &&& cold1.dom() == cold.dom()
    &&& forall|t: Seq<char>, k: Seq<u8>|
        {
            ||| #[trigger] lookup(cold1, t, k) == lookup(cold, t, k)
            ||| {
                &&& belongs(hash, t, k)
                &&& lookup(hot, t, k) is Some
                &&& lookup(cold1, t, k) == lookup(hot, t, k)
            }
        }
}

/// The changes that delete the header of a block and, if it has one, its body.
pub open spec fn head_deletes(hash: Seq<u8>, with_body: bool) -> Seq<Change> {
    if with_body {
        seq![Change::Delete(HEADERS@, hash), Change::Delete(BODIES@, hash)]
    } else {
        seq![Change::Delete(HEADERS@, hash)]
    }
}

impl<F: Fn(u64) -> bool> MigrationWorker<F> {
    /// Copies the header, the body, the receipts and the transaction locations of the block
    /// with this hash to the cold store, in this order, as far as the first failure. Tells
    /// whether there is a body.
    pub fn copy_block_entries<R: StorageReadView, C: StorageBackend>(
        &self,
        cold: &mut C,
        hot_read: &R,
        hash: &[u8],
    ) -> (r: Result<bool, StoreError>)
        ensures
            exists|store1: &mut C, copied: Result<(), StoreError>|
                {
                    &&& *store1 == *old(cold)
                    &&& #[trigger] call_ensures(
                        Self::copy_entry::<R, C>,
                        (self, store1, hot_read, HEADERS, hash),
                        copied,
                    )
                    &&& match copied {
                        Err(e) => r == Err::<bool, StoreError>(e) && *final(cold) == *final(store1),
                        Ok(_) => exists|found: Result<Option<Vec<u8>>, StoreError>|
                            {
                                &&& #[trigger] call_ensures(R::get, (hot_read, BODIES, hash), found)
                                &&& match found {
                                    Err(e) => r == Err::<bool, StoreError>(e) && *final(cold)
                                        == *final(store1),
                                    Ok(body) => exists|
                                        store2: &mut C,
                                        copied: Result<(), StoreError>,
                                    |
                                        {
                                            &&& *store2 == *final(store1)
                                            &&& #[trigger] call_ensures(
                                                Self::copy_entry_raw::<C>,
                                                (self, store2, BODIES, hash, &body),
                                                copied,
                                            )
                                            &&& match copied {
                                                Err(e) => r == Err::<bool, StoreError>(e)
                                                    && *final(cold) == *final(store2),
                                                Ok(_) => exists|
                                                    store3: &mut C,
                                                    copied: Result<(), StoreError>,
                                                |
                                                    {
                                                        &&& *store3 == *final(store2)
                                                        &&& #[trigger] call_ensures(
                                                            Self::copy_prefixed_entries::<R, C>,
                                                            (
                                                                self,
                                                                store3,
                                                                hot_read,
                                                                RECEIPTS,
                                                                hash,
                                                            ),
                                                            copied,
                                                        )
                                                        &&& match copied {
                                                            Err(e) => r == Err::<bool, StoreError>(
                                                                e,
                                                            ) && *final(cold) == *final(store3),
                                                            Ok(_) => exists|
                                                                store4: &mut C,
                                                                copied: Result<(), StoreError>,
                                                            |
                                                                {
                                                                    &&& *store4 == *final(store3)
                                                                    &&& *final(cold)
                                                                        == *final(store4)
                                                                    &&& #[trigger] call_ensures(
                                                                        Self::copy_suffixed_entries::<R, C>,
                                                                        (
                                                                            self,
                                                                            store4,
                                                                            hot_read,
                                                                            TRANSACTION_LOCATIONS,
                                                                            hash,
                                                                        ),
                                                                        copied,
                                                                    )
                                                                    &&& match copied {
                                                                        Err(e) => r == Err::<
                                                                            bool,
                                                                            StoreError,
                                                                        >(e),
                                                                        Ok(_) => r == Ok::<
                                                                            bool,
                                                                            StoreError,
                                                                        >(body is Some),
                                                                    }
                                                                },
                                                        }
                                                    },
                                            }
                                        },
                                }
                            },
                    }
                },
            r matches Err(e) ==> hot_read.reports(e) || old(cold).reports(e),
            partly_copied(
                hot_read.contents(),
                old(cold).contents(),
                final(cold).contents(),
                hash@,
            ),
            r matches Ok(with_body) ==> {
                let hot = hot_read.contents();
                &&& has_block_tables(hot)
                &&& with_body == (lookup(hot, BODIES@, hash@) is Some)
                &&& final(cold).contents() == cold_with(hot, old(cold).contents(), hash@)
                &&& forall|t: Seq<char>, k: Seq<u8>| #[trigger]
                    lookup(hot, t, k) is Some && belongs(hash@, t, k) ==> old(
                        cold,
                    ).contents().contains_key(t)
            },
            forall|e: StoreError|
                #![trigger final(cold).reports(e)]
                final(cold).reports(e) ==> old(cold).reports(e),
            old(cold).infallible() ==> final(cold).infallible(),
            hot_read.infallible() && has_block_tables(hot_read.contents()) && old(
                cold,
            ).infallible() && has_block_tables(old(cold).contents()) ==> r is Ok,
    {
        let ghost hot = hot_read.contents();
        let ghost cold0 = cold.contents();
        proof {
            lemma_table_names();
        }
        let copied = self.copy_entry(cold, hot_read, HEADERS, hash);
        let ghost cold1 = cold.contents();
        proof {
            lemma_one_entry_copied(hot, cold0, cold0, cold1, HEADERS@, hash@, hash@);
        }
        copied?;
        let body = hot_read.get(BODIES, hash)?;
        let copied = self.copy_entry_raw(cold, BODIES, hash, &body);
        let ghost cold2 = cold.contents();
        proof {
            lemma_one_entry_copied(hot, cold0, cold1, cold2, BODIES@, hash@, hash@);
        }
        copied?;
        let copied = self.copy_prefixed_entries(cold, hot_read, RECEIPTS, hash);
        let ghost cold3 = cold.contents();
        proof {
            if cold3 != cold2 {
                let receipts = with_prefix(hot[RECEIPTS@], hash@);
                lemma_entries_copied(hot, cold0, cold2, cold3, RECEIPTS@, receipts, hash@);
            }
        }
        copied?;
        let copied = self.copy_suffixed_entries(cold, hot_read, TRANSACTION_LOCATIONS, hash);
        let ghost cold4 = cold.contents();
        proof {
            if cold4 != cold3 {
                let locations = with_suffix(hot[TRANSACTION_LOCATIONS@], hash@);
                lemma_entries_copied(
                    hot,
                    cold0,
                    cold3,
                    cold4,
                    TRANSACTION_LOCATIONS@,
                    locations,
                    hash@,
                );
            }
        }
        copied?;
        proof {
            lemma_block_copied(hot, cold0, cold1, cold2, cold3, cold4, hash@);
        }
        Ok(body.is_some())
    }

    /// Adds to a batch the deletion of the header, of the body if there is one, of the
    /// receipts and of the transaction locations of the block with this hash.
    pub fn delete_block_entries<R: StorageReadView>(
        &self,
        hot_write: &mut WriteBatch,
        hot_read: &R,
        hash: &[u8],
        with_body: bool,
    ) -> (r: Result<(), StoreError>)
        ensures
            exists|batch1: &mut WriteBatch, deleted: Result<(), StoreError>|
                {
                    &&& batch1@ == old(hot_write)@ + head_deletes(hash@, with_body)
                    &&& #[trigger] call_ensures(
                        Self::delete_prefixed_entries::<R>,
                        (self, batch1, hot_read, RECEIPTS, hash),
                        deleted,
                    )
                    &&& match deleted {
                        Err(e) => r == Err::<(), StoreError>(e) && *final(hot_write)
                            == *final(batch1),
                        Ok(_) => exists|batch2: &mut WriteBatch|
                            {
                                &&& *batch2 == *final(batch1)
                                &&& *final(batch2) == *final(hot_write)
                                &&& #[trigger] call_ensures(
                                    Self::delete_suffixed_entries::<R>,
                                    (self, batch2, hot_read, TRANSACTION_LOCATIONS, hash),
                                    r,
                                )
                            },
                    }
                },
            r matches Err(e) ==> hot_read.reports(e),
            r is Ok && has_block_tables(hot_read.contents()) && with_body == (lookup(
                hot_read.contents(),
                BODIES@,
                hash@,
            ) is Some) ==> exists|changes: Seq<Change>|
                {
                    &&& final(hot_write)@ == old(hot_write)@ + changes
                    &&& changes_fit(hot_read.contents(), changes)
                    &&& #[trigger] apply_changes(hot_read.contents(), changes) == hot_without(
                        hot_read.contents(),
                        hash@,
                    )
                },
            hot_read.infallible() && has_block_tables(hot_read.contents()) ==> r is Ok,
    {
        let ghost hot = hot_read.contents();
        let ghost batch0 = hot_write@;
        let ghost first = head_deletes(hash@, with_body);
        hot_write.delete(HEADERS, hash);
        if with_body {
            hot_write.delete(BODIES, hash);
        }
        assert(hot_write@ =~= batch0 + first);
        self.delete_prefixed_entries(hot_write, hot_read, RECEIPTS, hash)?;
        let ghost batch1 = hot_write@;
        self.delete_suffixed_entries(hot_write, hot_read, TRANSACTION_LOCATIONS, hash)?;
        proof {
            let receipts = choose|keys: Seq<Seq<u8>>|
                batch1 == batch0 + first + #[trigger] deletes(RECEIPTS@, keys) && keys.to_set()
                    == with_prefix(hot[RECEIPTS@], hash@).dom();
            let locations = choose|keys: Seq<Seq<u8>>|
                hot_write@ == batch1 + #[trigger] deletes(TRANSACTION_LOCATIONS@, keys)
                    && keys.to_set() == with_suffix(hot[TRANSACTION_LOCATIONS@], hash@).dom();
            let changes = first + deletes(RECEIPTS@, receipts) + deletes(
                TRANSACTION_LOCATIONS@,
                locations,
            );
            assert(hot_write@ =~= batch0 + changes);
            if has_block_tables(hot) && with_body == (lookup(hot, BODIES@, hash@) is Some) {
                lemma_block_deleted(hot, hash@, with_body, receipts, locations);
            }
        }
        Ok(())
    }
}

/// Putting entries of the block into the cold store keeps it partly copied.
proof fn lemma_entries_copied(
    hot: Contents,
    cold: Contents,
    cold1: Contents,
    cold2: Contents,
    table: Seq<char>,
    added: Entries,
    hash: Seq<u8>,
)
    requires
        partly_copied(hot, cold, cold1, hash),
        cold1.contains_key(table),
        cold2 == cold1.insert(table, cold1[table].union_prefer_right(added)),
        forall|k: Seq<u8>| #[trigger]
            added.contains_key(k) ==> belongs(hash, table, k) && lookup(hot, table, k) == Some(
                added[k],
            ),
    ensures
        partly_copied(hot, cold, cold2, hash),
{
    assert(cold2.dom() =~= cold1.dom());
    assert forall|t: Seq<char>, k: Seq<u8>|
        {
            ||| #[trigger] lookup(cold2, t, k) == lookup(cold, t, k)
            ||| {
                &&& belongs(hash, t, k)
                &&& lookup(hot, t, k) is Some
                &&& lookup(cold2, t, k) == lookup(hot, t, k)
            }
        } by {
        if t == table && added.contains_key(k) {
            assert(belongs(hash, t, k));
        } else {
            assert(lookup(cold2, t, k) == lookup(cold1, t, k));
        }
    }
}

/// Putting one entry of the block into the cold store, or failing to, keeps it partly
/// copied.
proof fn lemma_one_entry_copied(
    hot: Contents,
    cold: Contents,
    cold1: Contents,
    cold2: Contents,
    table: Seq<char>,
    key: Seq<u8>,
    hash: Seq<u8>,
)
    requires
        partly_copied(hot, cold, cold1, hash),
        belongs(hash, table, key),
        cold2 == cold1 || (lookup(hot, table, key) is Some && cold1.contains_key(table) && cold2
            == with_entry(cold1, table, key, hot[table][key])),
    ensures
        partly_copied(hot, cold, cold2, hash),
{
    if cold2 != cold1 {
        let added: Entries = map![key => hot[table][key]];
        assert(cold1[table].insert(key, hot[table][key]) =~= cold1[table].union_prefer_right(
            added,
        ));
        lemma_entries_copied(hot, cold, cold1, cold2, table, added, hash);
    }
}

/// The state in which one entry of `hot`, if it is there, has been put in.
spec fn with_copy(cold: Contents, hot: Contents, table: Seq<char>, key: Seq<u8>) -> Contents {
    match lookup(hot, table, key) {
        Some(value) => with_entry(cold, table, key, value),
        None => cold,
    }
}

/// Once header, body, receipts and transaction locations have been copied, the cold store
/// has the block.
proof fn lemma_block_copied(
    hot: Contents,
    cold: Contents,
    cold1: Contents,
    cold2: Contents,
    cold3: Contents,
    cold4: Contents,
    hash: Seq<u8>,
)
    requires
        has_block_tables(hot),
        lookup(hot, HEADERS@, hash) is Some ==> cold.contains_key(HEADERS@),
        lookup(hot, BODIES@, hash) is Some ==> cold1.contains_key(BODIES@),
        with_prefix(hot[RECEIPTS@], hash) == Map::<Seq<u8>, Seq<u8>>::empty()
            || cold2.contains_key(RECEIPTS@),
        with_suffix(hot[TRANSACTION_LOCATIONS@], hash) == Map::<Seq<u8>, Seq<u8>>::empty()
            || cold3.contains_key(TRANSACTION_LOCATIONS@),
        cold1 == with_copy(cold, hot, HEADERS@, hash),
        cold2 == with_copy(cold1, hot, BODIES@, hash),
        cold3 == with_entries(cold2, RECEIPTS@, with_prefix(hot[RECEIPTS@], hash)),
        cold4 == with_entries(
            cold3,
            TRANSACTION_LOCATIONS@,
            with_suffix(hot[TRANSACTION_LOCATIONS@], hash),
        ),
    ensures
        cold4 == cold_with(hot, cold, hash),
        forall|t: Seq<char>, k: Seq<u8>| #[trigger]
            lookup(hot, t, k) is Some && belongs(hash, t, k) ==> cold.contains_key(t),
{
    lemma_table_names();
    let target = cold_with(hot, cold, hash);
    let receipts = with_prefix(hot[RECEIPTS@], hash);
    let locations = with_suffix(hot[TRANSACTION_LOCATIONS@], hash);
    assert forall|t: Seq<char>, k: Seq<u8>| #[trigger] lookup(hot, t, k) is Some && belongs(
        hash,
        t,
        k,
    ) implies cold.contains_key(t) by {
        if t == RECEIPTS@ {
            assert(receipts.contains_key(k));
        }
        if t == TRANSACTION_LOCATIONS@ {
            assert(locations.contains_key(k));
        }
    }
    assert(cold4.dom() =~= cold.dom());
    assert forall|t: Seq<char>| cold.contains_key(t) implies #[trigger] cold4[t] == target[t] by {
        assert forall|k: Seq<u8>| #[trigger]
            cold4[t].dom().contains(k) == target[t].dom().contains(k) && (cold4[t].dom().contains(
            k,
        ) ==> cold4[t][k] == target[t][k]) by {
            if t == RECEIPTS@ {
                assert(receipts.contains_key(k) == (lookup(hot, t, k) is Some && has_prefix(
                    k,
                    hash,
                )));
            }
            if t == TRANSACTION_LOCATIONS@ {
                assert(locations.contains_key(k) == (lookup(hot, t, k) is Some && has_suffix(
                    k,
                    hash,
                )));
            }
        }
        assert(cold4[t].dom() =~= target[t].dom());
        assert(cold4[t] =~= target[t]);
    }
    assert(cold4 =~= target);
}

/// Once the deletions have been committed, the hot store no longer has the block.
proof fn lemma_block_deleted(
    hot: Contents,
    hash: Seq<u8>,
    with_body: bool,
    receipts: Seq<Seq<u8>>,
    locations: Seq<Seq<u8>>,
)
    requires
        has_block_tables(hot),
        receipts.to_set() == with_prefix(hot[RECEIPTS@], hash).dom(),
        locations.to_set() == with_suffix(hot[TRANSACTION_LOCATIONS@], hash).dom(),
        with_body == (lookup(hot, BODIES@, hash) is Some),
    ensures
        ({
            let changes = head_deletes(hash, with_body) + deletes(RECEIPTS@, receipts) + deletes(
                TRANSACTION_LOCATIONS@,
                locations,
            );
            &&& changes_fit(hot, changes)
            &&& apply_changes(hot, changes) == hot_without(hot, hash)
        }),
{
    lemma_table_names();
    let first = head_deletes(hash, with_body);
    let second = deletes(RECEIPTS@, receipts);
    let third = deletes(TRANSACTION_LOCATIONS@, locations);
    let changes = first + second + third;
    let target = hot_without(hot, hash);
    let header = Change::Delete(HEADERS@, hash);
    let body = Change::Delete(BODIES@, hash);
    assert forall|i: int| 0 <= i < changes.len() implies hot.contains_key(
        change_table(#[trigger] changes[i]),
    ) by {
        if i < first.len() {
            assert(changes[i] == first[i]);
        } else if i < first.len() + second.len() {
            assert(changes[i] == second[i - first.len()]);
        } else {
            assert(changes[i] == third[i - first.len() - second.len()]);
        }
    }
    let hot1 = apply_change(hot, header);
    lemma_one_change(hot, header);
    let hot2 = apply_changes(hot, first);
    if with_body {
        assert(first =~= seq![header] + seq![body]);
        lemma_apply_append(hot, seq![header], seq![body]);
        lemma_one_change(hot1, body);
    } else {
        assert(hot1[BODIES@].remove(hash) =~= hot1[BODIES@]);
        assert(hot1 =~= apply_change(hot1, body));
    }
    assert(hot2 == apply_change(hot1, body));
    lemma_apply_append(hot, first, second);
    lemma_apply_deletes(hot2, RECEIPTS@, receipts);
    let hot3 = apply_changes(hot, first + second);
    lemma_apply_append(hot, first + second, third);
    lemma_apply_deletes(hot3, TRANSACTION_LOCATIONS@, locations);
    let hot4 = apply_changes(hot, changes);
    assert(hot4.dom() =~= hot.dom());
    assert forall|t: Seq<char>| hot.contains_key(t) implies #[trigger] hot4[t] == target[t] by {
        assert(hot4[t] =~= target[t]);
    }
    assert(hot4 =~= target);
}

} // verus!
