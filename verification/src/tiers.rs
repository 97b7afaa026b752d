//! What a pair of stores, one hot and one cold, stands for, and what moving blocks
//! between them does.

use crate::api::{apply_changes, lookup, Change, Contents};
use crate::bytes::{has_prefix, has_suffix};
use crate::tables::{lemma_table_names, warm};
use crate::tables::{BODIES, CANONICAL_BLOCK_HASHES, HEADERS, RECEIPTS, TRANSACTION_LOCATIONS};
use vstd::bytes::spec_u64_to_le_bytes;
use vstd::prelude::*;

verus! {

/// What a read through both tiers gives: the hot entry, and for warm tables, where
/// there is none, the cold one.
pub open spec fn tiered_lookup(
    hot: Contents,
    cold: Contents,
    table: Seq<char>,
    key: Seq<u8>,
) -> Option<Seq<u8>> {
    match lookup(hot, table, key) {
        Some(value) => Some(value),
        None => if warm(table) {
            lookup(cold, table, key)
        } else {
            None
        },
    }
}

/// The hash of the canonical block with number `n`, if the hot store knows it.
pub open spec fn block_hash(hot: Contents, n: int) -> Option<Seq<u8>> {
    lookup(hot, CANONICAL_BLOCK_HASHES@, spec_u64_to_le_bytes(n as u64))
}

/// The entry is the header or the body of the block with this hash, one of its receipts,
/// whose keys begin with the hash, or the location of one of its transactions, whose keys
/// end with it.
pub open spec fn belongs(hash: Seq<u8>, table: Seq<char>, key: Seq<u8>) -> bool {
    ||| table == HEADERS@ && key == hash
    ||| table == BODIES@ && key == hash
    ||| table == RECEIPTS@ && has_prefix(key, hash)
    ||| table == TRANSACTION_LOCATIONS@ && has_suffix(key, hash)
}

/// The entry belongs to the canonical block with number `n`.
pub open spec fn owns(hot: Contents, n: int, table: Seq<char>, key: Seq<u8>) -> bool {
    match block_hash(hot, n) {
        Some(hash) => belongs(hash, table, key),
        None => false,
    }
}

/// The entry belongs to one of the canonical blocks from `start` up to, and
/// without, `end`.
pub open spec fn moves(
    hot: Contents,
    start: int,
    end: int,
    table: Seq<char>,
    key: Seq<u8>,
) -> bool {
    exists|n: int| start <= n < end && #[trigger] owns(hot, n, table, key)
}

/// The hot store after those blocks have left it.
pub open spec fn hot_after(hot: Contents, start: int, end: int) -> Contents {
    Map::new(
        |t: Seq<char>| hot.contains_key(t),
        |t: Seq<char>|
            Map::new(
                |k: Seq<u8>| hot[t].contains_key(k) && !moves(hot, start, end, t, k),
                |k: Seq<u8>| hot[t][k],
            ),
    )
}

/// The cold store after it has received those blocks.
pub open spec fn cold_after(hot: Contents, cold: Contents, start: int, end: int) -> Contents {
    Map::new(
        |t: Seq<char>| cold.contains_key(t),
        |t: Seq<char>|
            Map::new(
                |k: Seq<u8>|
                    cold[t].contains_key(k) || (lookup(hot, t, k) is Some && moves(
                        hot,
                        start,
                        end,
                        t,
                        k,
                    )),
                |k: Seq<u8>|
                    if lookup(hot, t, k) is Some && moves(hot, start, end, t, k) {
                        hot[t][k]
                    } else {
                        cold[t][k]
                    },
            ),
    )
}

/// The stores may have been left like this by a migration of those blocks, complete
/// or not: an entry is gone from the hot store only if it belongs to one of the
/// blocks and the cold store has it, and the cold store has changed only by entries
/// of those blocks that the hot store had.
pub open spec fn safely_moved(
    hot: Contents,
    cold: Contents,
    hot1: Contents,
    cold1: Contents,
    start: int,
    end: int,
) -> bool {
    &&& hot1.dom() == hot.dom()
    &&& cold1.dom() == cold.dom()
    &&& forall|t: Seq<char>, k: Seq<u8>|
        {
            ||| #[trigger] lookup(hot1, t, k) == lookup(hot, t, k)
            ||| {
                &&& moves(hot, start, end, t, k)
                &&& lookup(hot1, t, k) is None
                &&& lookup(cold1, t, k) == lookup(hot, t, k)
            }
        }
    &&& forall|t: Seq<char>, k: Seq<u8>|
        {
            ||| #[trigger] lookup(cold1, t, k) == lookup(cold, t, k)
            ||| {
                &&& moves(hot, start, end, t, k)
                &&& lookup(hot, t, k) is Some
                &&& lookup(cold1, t, k) == lookup(hot, t, k)
            }
        }
}

/// The stores may have been left like this by an attempt to move the block with number
/// `n`: the block has been moved safely, and it has left the hot store as a whole, with
/// all of it in the cold one, or not at all.
pub open spec fn block_left(
    hot: Contents,
    cold: Contents,
    hot1: Contents,
    cold1: Contents,
    n: int,
) -> bool {
    &&& safely_moved(hot, cold, hot1, cold1, n, n + 1)
    &&& hot1 == hot || (hot1 == hot_after(hot, n, n + 1) && cold1 == cold_after(
        hot,
        cold,
        n,
        n + 1,
    ))
}

/// Only entries of warm tables belong to a block.
pub proof fn lemma_moves_warm(
    hot: Contents,
    start: int,
    end: int,
    table: Seq<char>,
    key: Seq<u8>,
)
    requires
        moves(hot, start, end, table, key),
    ensures
        warm(table),
{
}

/// The canonical hashes stay where they are.
pub proof fn lemma_hashes_stay(hot: Contents, start: int, end: int)
    ensures
        forall|n: int| #[trigger]
            block_hash(hot_after(hot, start, end), n) == block_hash(hot, n),
{
    lemma_table_names();
    assert forall|n: int| #[trigger]
        block_hash(hot_after(hot, start, end), n) == block_hash(hot, n) by {
        assert(!moves(
            hot,
            start,
            end,
            CANONICAL_BLOCK_HASHES@,
            spec_u64_to_le_bytes(n as u64),
        ));
    }
}

/// Moving the blocks from `start` to `middle` and then those up to `end` is moving
/// all of them.
pub proof fn law_migration_in_steps(
    hot: Contents,
    cold: Contents,
    start: int,
    middle: int,
    end: int,
)
    requires
        start <= middle <= end,
    ensures
        hot_after(hot_after(hot, start, middle), middle, end) == hot_after(hot, start, end),
        cold_after(
            hot_after(hot, start, middle),
            cold_after(hot, cold, start, middle),
            middle,
            end,
        ) == cold_after(hot, cold, start, end),
{
    let hot1 = hot_after(hot, start, middle);
    let cold1 = cold_after(hot, cold, start, middle);
    lemma_hashes_stay(hot, start, middle);
    assert forall|n: int, t: Seq<char>, k: Seq<u8>| #[trigger]
        owns(hot1, n, t, k) == owns(hot, n, t, k) by {
        assert(block_hash(hot1, n) == block_hash(hot, n));
    }
    assert forall|t: Seq<char>, k: Seq<u8>| #[trigger]
        moves(hot, start, end, t, k) == (moves(hot, start, middle, t, k) || moves(
            hot1,
            middle,
            end,
            t,
            k,
        )) by {
        if moves(hot, start, end, t, k) {
            let n = choose|n: int| start <= n < end && #[trigger] owns(hot, n, t, k);
            assert(owns(hot1, n, t, k));
        }
        if moves(hot1, middle, end, t, k) {
            let n = choose|n: int| middle <= n < end && #[trigger] owns(hot1, n, t, k);
            assert(owns(hot, n, t, k));
        }
        if moves(hot, start, middle, t, k) {
            let n = choose|n: int| start <= n < middle && #[trigger] owns(hot, n, t, k);
            assert(owns(hot, n, t, k));
        }
    }
    let hot2 = hot_after(hot1, middle, end);
    let hot3 = hot_after(hot, start, end);
    assert forall|t: Seq<char>| hot.contains_key(t) implies #[trigger] hot2[t] == hot3[t] by {
        assert(hot2[t] =~= hot3[t]);
    }
    assert(hot2 =~= hot3);
    let cold2 = cold_after(hot1, cold1, middle, end);
    let cold3 = cold_after(hot, cold, start, end);
    assert forall|t: Seq<char>| cold.contains_key(t) implies #[trigger] cold2[t] == cold3[t] by {
        assert(cold2[t] =~= cold3[t]);
    }
    assert(cold2 =~= cold3);
}

/// What moving the blocks does to each entry: the entries of those blocks go from
/// the hot store to the cold one, and all others stay.
pub proof fn law_migration_by_entry(
    hot: Contents,
    cold: Contents,
    start: int,
    end: int,
    table: Seq<char>,
    key: Seq<u8>,
)
    requires
        lookup(hot, table, key) is Some && moves(hot, start, end, table, key)
            ==> cold.contains_key(table),
    ensures
        moves(hot, start, end, table, key) ==> lookup(
            hot_after(hot, start, end),
            table,
            key,
        ) is None,
        !moves(hot, start, end, table, key) ==> lookup(hot_after(hot, start, end), table, key)
            == lookup(hot, table, key),
        lookup(cold_after(hot, cold, start, end), table, key) == (if moves(
            hot,
            start,
            end,
            table,
            key,
        ) && lookup(hot, table, key) is Some {
            lookup(hot, table, key)
        } else {
            lookup(cold, table, key)
        }),
{
}

/// A migration that has run to its end, into a cold store that has the tables it
/// needs, has moved its blocks safely.
pub proof fn law_complete_migration_is_safe(
    hot: Contents,
    cold: Contents,
    start: int,
    end: int,
)
    requires
        forall|t: Seq<char>, k: Seq<u8>| #[trigger]
            lookup(hot, t, k) is Some && moves(hot, start, end, t, k) ==> cold.contains_key(t),
    ensures
        safely_moved(
            hot,
            cold,
            hot_after(hot, start, end),
            cold_after(hot, cold, start, end),
            start,
            end,
        ),
{
    let hot1 = hot_after(hot, start, end);
    let cold1 = cold_after(hot, cold, start, end);
    assert(hot1.dom() =~= hot.dom());
    assert(cold1.dom() =~= cold.dom());
    assert forall|t: Seq<char>, k: Seq<u8>|
        {
            ||| #[trigger] lookup(hot1, t, k) == lookup(hot, t, k)
            ||| {
                &&& moves(hot, start, end, t, k)
                &&& lookup(hot1, t, k) is None
                &&& lookup(cold1, t, k) == lookup(hot, t, k)
            }
        } by {
        law_migration_by_entry(hot, cold, start, end, t, k);
    }
    assert forall|t: Seq<char>, k: Seq<u8>|
        {
            ||| #[trigger] lookup(cold1, t, k) == lookup(cold, t, k)
            ||| {
                &&& moves(hot, start, end, t, k)
                &&& lookup(hot, t, k) is Some
                &&& lookup(cold1, t, k) == lookup(hot, t, k)
            }
        } by {
        law_migration_by_entry(hot, cold, start, end, t, k);
    }
}

/// Data is copied before it is deleted: whether a migration has run to its end or
/// has stopped anywhere on the way, every read through both tiers gives what it gave
/// before.
pub proof fn law_migration_keeps_reads(
    hot: Contents,
    cold: Contents,
    hot1: Contents,
    cold1: Contents,
    start: int,
    end: int,
)
    requires
        safely_moved(hot, cold, hot1, cold1, start, end),
    ensures
        forall|t: Seq<char>, k: Seq<u8>| #[trigger]
            tiered_lookup(hot1, cold1, t, k) == tiered_lookup(hot, cold, t, k),
{
    assert forall|t: Seq<char>, k: Seq<u8>| #[trigger]
        tiered_lookup(hot1, cold1, t, k) == tiered_lookup(hot, cold, t, k) by {
        let before = lookup(hot, t, k);
        if lookup(hot1, t, k) != before {
            lemma_moves_warm(hot, start, end, t, k);
        } else {
            assert(lookup(cold1, t, k) == lookup(cold, t, k) || before is Some);
        }
    }
}

/// A block that has been migrated can be migrated again: nothing changes.
pub proof fn law_migration_is_idempotent(hot: Contents, cold: Contents, start: int, end: int)
    ensures
        hot_after(hot_after(hot, start, end), start, end) == hot_after(hot, start, end),
        cold_after(
            hot_after(hot, start, end),
            cold_after(hot, cold, start, end),
            start,
            end,
        ) == cold_after(hot, cold, start, end),
{
    let hot1 = hot_after(hot, start, end);
    let cold1 = cold_after(hot, cold, start, end);
    lemma_hashes_stay(hot, start, end);
    assert forall|t: Seq<char>, k: Seq<u8>| #[trigger]
        moves(hot1, start, end, t, k) == moves(hot, start, end, t, k) by {
        if moves(hot, start, end, t, k) {
            let n = choose|n: int| start <= n < end && #[trigger] owns(hot, n, t, k);
            assert(block_hash(hot1, n) == block_hash(hot, n));
            assert(owns(hot1, n, t, k));
        }
        if moves(hot1, start, end, t, k) {
            let n = choose|n: int| start <= n < end && #[trigger] owns(hot1, n, t, k);
            assert(block_hash(hot1, n) == block_hash(hot, n));
            assert(owns(hot, n, t, k));
        }
    }
    let hot2 = hot_after(hot1, start, end);
    assert forall|t: Seq<char>| hot.contains_key(t) implies #[trigger] hot2[t] == hot1[t] by {
        assert(hot2[t] =~= hot1[t]);
    }
    assert(hot2 =~= hot1);
    let cold2 = cold_after(hot1, cold1, start, end);
    assert forall|t: Seq<char>| cold.contains_key(t) implies #[trigger] cold2[t] == cold1[t] by {
        assert(cold2[t] =~= cold1[t]);
    }
    assert(cold2 =~= cold1);
}

/// A migration of further blocks that stops on the way, after one that ran to its
/// end, leaves the stores as a migration of all the blocks may leave them.
pub proof fn law_interrupted_migration_is_safe(
    hot: Contents,
    cold: Contents,
    hot2: Contents,
    cold2: Contents,
    start: int,
    middle: int,
    end: int,
)
    requires
        start <= middle <= end,
        safely_moved(
            hot,
            cold,
            hot_after(hot, start, middle),
            cold_after(hot, cold, start, middle),
            start,
            middle,
        ),
        safely_moved(
            hot_after(hot, start, middle),
            cold_after(hot, cold, start, middle),
            hot2,
            cold2,
            middle,
            end,
        ),
    ensures
        safely_moved(hot, cold, hot2, cold2, start, end),
{
    let hot1 = hot_after(hot, start, middle);
    let cold1 = cold_after(hot, cold, start, middle);
    lemma_hashes_stay(hot, start, middle);
    assert forall|t: Seq<char>, k: Seq<u8>|
        (moves(hot, start, middle, t, k) || moves(hot1, middle, end, t, k))
            implies #[trigger] moves(hot, start, end, t, k) by {
        if moves(hot1, middle, end, t, k) {
            let n = choose|n: int| middle <= n < end && #[trigger] owns(hot1, n, t, k);
            assert(block_hash(hot1, n) == block_hash(hot, n));
            assert(owns(hot, n, t, k));
        } else {
            let n = choose|n: int| start <= n < middle && #[trigger] owns(hot, n, t, k);
            assert(owns(hot, n, t, k));
        }
    }
    assert forall|t: Seq<char>, k: Seq<u8>|
        {
            ||| #[trigger] lookup(hot2, t, k) == lookup(hot, t, k)
            ||| {
                &&& moves(hot, start, end, t, k)
                &&& lookup(hot2, t, k) is None
                &&& lookup(cold2, t, k) == lookup(hot, t, k)
            }
        } by {
        assert(lookup(hot1, t, k) == lookup(hot1, t, k));
        assert(lookup(cold1, t, k) == lookup(cold1, t, k));
        assert(lookup(cold2, t, k) == lookup(cold2, t, k));
    }
    assert forall|t: Seq<char>, k: Seq<u8>|
        {
            ||| #[trigger] lookup(cold2, t, k) == lookup(cold, t, k)
            ||| {
                &&& moves(hot, start, end, t, k)
                &&& lookup(hot, t, k) is Some
                &&& lookup(cold2, t, k) == lookup(hot, t, k)
            }
        } by {
        let before = lookup(hot1, t, k);
        let cold_before = lookup(cold1, t, k);
        assert(lookup(hot1, t, k) == lookup(hot, t, k) || moves(hot, start, middle, t, k));
        assert(cold_before == lookup(cold, t, k) || moves(hot, start, middle, t, k));
    }
}

/// The hot tier takes precedence: what it has is what a read gives, whatever the cold
/// tier holds.
pub proof fn law_hot_takes_precedence(
    hot: Contents,
    cold: Contents,
    table: Seq<char>,
    key: Seq<u8>,
    value: Seq<u8>,
)
    requires
        lookup(hot, table, key) == Some(value),
    ensures
        tiered_lookup(hot, cold, table, key) == Some(value),
{
}

/// Tables that are not warm are read from the hot tier alone.
pub proof fn law_hot_only_tables_do_not_fall_through(
    hot: Contents,
    cold: Contents,
    table: Seq<char>,
    key: Seq<u8>,
)
    requires
        !warm(table),
    ensures
        tiered_lookup(hot, cold, table, key) == lookup(hot, table, key),
{
}

/// Writes go to the hot tier, and a read gives back what was put last, whatever the
/// cold tier holds.
pub proof fn law_write_is_read_back(
    hot: Contents,
    cold: Contents,
    changes: Seq<Change>,
    table: Seq<char>,
    key: Seq<u8>,
    value: Seq<u8>,
)
    ensures
        tiered_lookup(
            apply_changes(hot, changes.push(Change::Put(table, key, value))),
            cold,
            table,
            key,
        ) == Some(value),
{
    let all = changes.push(Change::Put(table, key, value));
    assert(all.drop_last() =~= changes);
}

/// A deletion reaches the hot tier only: an older cold entry of a warm table is read
/// again.
pub proof fn law_delete_uncovers_cold(
    hot: Contents,
    cold: Contents,
    changes: Seq<Change>,
    table: Seq<char>,
    key: Seq<u8>,
)
    ensures
        tiered_lookup(apply_changes(hot, changes.push(Change::Delete(table, key))), cold, table, key)
            == (if warm(table) {
            lookup(cold, table, key)
        } else {
            None
        }),
{
    let all = changes.push(Change::Delete(table, key));
    assert(all.drop_last() =~= changes);
}

/// A migration that stopped on the way is made good by the next one over the same
/// blocks: the stores end as if it had run to its end the first time.
pub proof fn law_next_run_reconciles(
    hot: Contents,
    cold: Contents,
    hot1: Contents,
    cold1: Contents,
    start: int,
    end: int,
)
    requires
        safely_moved(hot, cold, hot1, cold1, start, end),
    ensures
        hot_after(hot1, start, end) == hot_after(hot, start, end),
        cold_after(hot1, cold1, start, end) == cold_after(hot, cold, start, end),
{
    lemma_table_names();
    assert forall|n: int| #[trigger] block_hash(hot1, n) == block_hash(hot, n) by {
        let key = spec_u64_to_le_bytes(n as u64);
        assert(!moves(hot, start, end, CANONICAL_BLOCK_HASHES@, key));
        assert(lookup(hot1, CANONICAL_BLOCK_HASHES@, key) == lookup(
            hot,
            CANONICAL_BLOCK_HASHES@,
            key,
        ));
    }
    assert forall|t: Seq<char>, k: Seq<u8>| #[trigger]
        moves(hot1, start, end, t, k) == moves(hot, start, end, t, k) by {
        if moves(hot, start, end, t, k) {
            let n = choose|n: int| start <= n < end && #[trigger] owns(hot, n, t, k);
            assert(block_hash(hot1, n) == block_hash(hot, n));
            assert(owns(hot1, n, t, k));
        }
        if moves(hot1, start, end, t, k) {
            let n = choose|n: int| start <= n < end && #[trigger] owns(hot1, n, t, k);
            assert(block_hash(hot1, n) == block_hash(hot, n));
            assert(owns(hot, n, t, k));
        }
    }
    let left = hot_after(hot1, start, end);
    let right = hot_after(hot, start, end);
    assert(left.dom() =~= right.dom());
    assert forall|t: Seq<char>| left.contains_key(t) implies #[trigger] left[t] == right[t] by {
        assert forall|k: Seq<u8>| #[trigger] left[t].dom().contains(k) == right[t].dom().contains(k)
            && (left[t].dom().contains(k) ==> left[t][k] == right[t][k]) by {
            assert(moves(hot1, start, end, t, k) == moves(hot, start, end, t, k));
            assert(lookup(hot1, t, k) == lookup(hot, t, k) || moves(hot, start, end, t, k));
        }
        assert(left[t] =~= right[t]);
    }
    assert(left =~= right);
    let left = cold_after(hot1, cold1, start, end);
    let right = cold_after(hot, cold, start, end);
    assert(left.dom() =~= right.dom());
    assert forall|t: Seq<char>| left.contains_key(t) implies #[trigger] left[t] == right[t] by {
        assert forall|k: Seq<u8>| #[trigger] left[t].dom().contains(k) == right[t].dom().contains(k)
            && (left[t].dom().contains(k) ==> left[t][k] == right[t][k]) by {
            assert(moves(hot1, start, end, t, k) == moves(hot, start, end, t, k));
            let h = lookup(hot, t, k);
            let h1 = lookup(hot1, t, k);
            let c = lookup(cold, t, k);
            let c1 = lookup(cold1, t, k);
            assert(h1 == h || (h1 is None && c1 == h));
            assert(c1 == c || (c1 == h && h is Some));
        }
        assert(left[t] =~= right[t]);
    }
    assert(left =~= right);
}

/// No entry of a block is one of those that move, if its hash differs from the hashes in
/// the range and is as long as they are.
pub proof fn lemma_other_block(
    hot: Contents,
    start: int,
    end: int,
    hash: Seq<u8>,
    table: Seq<char>,
    key: Seq<u8>,
)
    requires
        belongs(hash, table, key),
        forall|n: int|
            start <= n < end ==> match #[trigger] block_hash(hot, n) {
                Some(moved) => moved.len() == hash.len() && moved != hash,
                None => true,
            },
    ensures
        !moves(hot, start, end, table, key),
{
    lemma_table_names();
    if moves(hot, start, end, table, key) {
        let n = choose|n: int| start <= n < end && #[trigger] owns(hot, n, table, key);
        assert(block_hash(hot, n) is Some);
    }
}

/// A block outside the migrated range, whose hash differs from the hashes in the range
/// and is as long as they are, keeps its entries in the hot store.
pub proof fn law_other_blocks_stay_hot(
    hot: Contents,
    start: int,
    end: int,
    hash: Seq<u8>,
    table: Seq<char>,
    key: Seq<u8>,
)
    requires
        belongs(hash, table, key),
        forall|n: int|
            start <= n < end ==> match #[trigger] block_hash(hot, n) {
                Some(moved) => moved.len() == hash.len() && moved != hash,
                None => true,
            },
    ensures
        lookup(hot_after(hot, start, end), table, key) == lookup(hot, table, key),
{
    lemma_other_block(hot, start, end, hash, table, key);
}

} // verus!
