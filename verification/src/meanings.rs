//! What the words of the contracts mean, in terms of maps, sequences and numbers alone.

use crate::api::{apply_changes, bytes_of, changes_fit, is_prefix_scan, leading_entries};
use crate::api::{leading_failure, lookup, scan_item, with_prefix, with_suffix};
use crate::api::{Change, Contents, Entries, PrefixResult, ScanItem, WriteBatch, WriteOp};
use crate::api::{StorageBackend, StorageReadView};
use crate::batch::{collected, deletes, entries_in, puts, with_entries, with_entry};
use crate::blocks::{cold_with, has_block_tables, head_deletes, hot_without, partly_copied};
use crate::bytes::{before, has_prefix, has_suffix, lemma_before_asymmetric, smaller_at};
use crate::chained::{chained, keys_differ, merged, scanned_keys, unseen};
use crate::copying::attempted;
use crate::memory::{contents_of, empty_tables, entries_of, named, InMemoryBackend, NamedTable};
use crate::memory::MemoryReadView;
use crate::scan::{confined, copies, ending, keys_of, lead, lemma_ending_push, removals};
use crate::tables::{lemma_table_names, warm, TABLES, WARM_TABLES};
use crate::tables::{BODIES, CANONICAL_BLOCK_HASHES, HEADERS, MISC_VALUES, RECEIPTS};
use crate::tables::TRANSACTION_LOCATIONS;
use crate::tiered::tiered_entries;
use crate::tiers::{belongs, block_hash, block_left, cold_after, hot_after, moves, owns};
use crate::tiers::{safely_moved, tiered_lookup};
use vstd::bytes::spec_u64_to_le_bytes;
use vstd::prelude::*;

verus! {

/// A string begins with another exactly when it is that one and something behind it.
pub proof fn law_prefix_is_the_beginning(s: Seq<u8>, prefix: Seq<u8>)
    ensures
        has_prefix(s, prefix) <==> exists|rest: Seq<u8>| s == #[trigger] (prefix + rest),
        forall|rest: Seq<u8>| has_prefix(#[trigger] (prefix + rest), prefix),
{
    if has_prefix(s, prefix) {
        let rest = s.skip(prefix.len() as int);
        assert forall|i: int| 0 <= i < prefix.len() implies s[i] == prefix[i] by {
            assert(s.subrange(0, prefix.len() as int)[i] == prefix[i]);
        }
        assert(s =~= prefix + rest);
    }
    assert forall|rest: Seq<u8>| has_prefix(#[trigger] (prefix + rest), prefix) by {
        assert((prefix + rest).subrange(0, prefix.len() as int) =~= prefix);
    }
}

/// A string ends with another exactly when it is something and that one behind it.
pub proof fn law_suffix_is_the_end(s: Seq<u8>, suffix: Seq<u8>)
    ensures
        has_suffix(s, suffix) <==> exists|rest: Seq<u8>| s == #[trigger] (rest + suffix),
        forall|rest: Seq<u8>| has_suffix(#[trigger] (rest + suffix), suffix),
{
    if has_suffix(s, suffix) {
        let rest = s.take(s.len() - suffix.len());
        assert forall|i: int| 0 <= i < suffix.len() implies s[s.len() - suffix.len() + i]
            == suffix[i] by {
            assert(s.subrange(s.len() - suffix.len(), s.len() as int)[i] == suffix[i]);
        }
        assert(s =~= rest + suffix);
    }
    assert forall|rest: Seq<u8>| has_suffix(#[trigger] (rest + suffix), suffix) by {
        let all = rest + suffix;
        assert(all.subrange(all.len() - suffix.len(), all.len() as int) =~= suffix);
    }
}

/// Of two strings with the same beginning, the next byte tells which comes first, and a
/// string that ends comes before those that go on.
pub proof fn law_first_difference_orders(head: Seq<u8>, a: u8, b: u8, s: Seq<u8>, t: Seq<u8>)
    ensures
        a < b ==> before(head.push(a) + s, head.push(b) + t) && !before(
            head.push(b) + t,
            head.push(a) + s,
        ),
        before(head, head.push(a) + s),
        !before(head.push(a) + s, head),
{
    let x = head.push(a) + s;
    let y = head.push(b) + t;
    if a < b {
        assert(smaller_at(x, y, head.len() as int));
        lemma_before_asymmetric(x, y);
    }
    assert(smaller_at(head, x, head.len() as int));
    lemma_before_asymmetric(head, x);
}

/// What a store holds under a key of a table is what the entries of that table hold there.
pub proof fn law_lookup(contents: Contents, table: Seq<char>, key: Seq<u8>)
    ensures
        !contents.contains_key(table) ==> lookup(contents, table, key) is None,
        contents.contains_key(table) && !contents[table].contains_key(key) ==> lookup(
            contents,
            table,
            key,
        ) is None,
        contents.contains_key(table) && contents[table].contains_key(key) ==> lookup(
            contents,
            table,
            key,
        ) == Some(contents[table][key]),
{
}

/// A value that was read stands for its bytes, and a step of a scan for its entry or its
/// failure.
pub proof fn law_reads_stand_for_bytes(value: Option<Vec<u8>>, step: PrefixResult)
    ensures
        value matches Some(v) ==> bytes_of(value) == Some(v@),
        value is None ==> bytes_of(value) is None,
        step matches Ok(entry) ==> scan_item(step) == ScanItem::Entry(entry.0@, entry.1@),
        step matches Err(e) ==> scan_item(step) == ScanItem::Failure(e),
{
}

/// A change of a batch stands for what it names, and a batch for its changes in their
/// order.
pub proof fn law_batch_stands_for_its_changes(batch: WriteBatch)
    ensures
        batch@.len() == batch.ops@.len(),
        forall|i: int|
            0 <= i < batch.ops@.len() ==> #[trigger] batch@[i] == (match batch.ops@[i] {
                WriteOp::Put { table, key, value } => Change::Put(table@, key@, value@),
                WriteOp::Delete { table, key } => Change::Delete(table@, key@),
            }),
{
}

/// The entries under a prefix, or with a suffix, are those entries of the table, and no
/// others.
pub proof fn law_entries_by_prefix_and_suffix(entries: Entries, part: Seq<u8>, key: Seq<u8>)
    ensures
        with_prefix(entries, part).contains_key(key) <==> entries.contains_key(key) && has_prefix(
            key,
            part,
        ),
        with_suffix(entries, part).contains_key(key) <==> entries.contains_key(key) && has_suffix(
            key,
            part,
        ),
        with_prefix(entries, part).contains_key(key) ==> with_prefix(entries, part)[key]
            == entries[key],
        with_suffix(entries, part).contains_key(key) ==> with_suffix(entries, part)[key]
            == entries[key],
{
}

/// Changes fit a store that has all the tables they name.
pub proof fn law_changes_fit(contents: Contents, changes: Seq<Change>)
    ensures
        changes_fit(contents, changes) <==> forall|i: int|
            0 <= i < changes.len() ==> match #[trigger] changes[i] {
                Change::Put(table, _, _) => contents.contains_key(table),
                Change::Delete(table, _) => contents.contains_key(table),
            },
{
    if changes_fit(contents, changes) {
        assert forall|i: int| 0 <= i < changes.len() implies match #[trigger] changes[i] {
            Change::Put(table, _, _) => contents.contains_key(table),
            Change::Delete(table, _) => contents.contains_key(table),
        } by {}
    }
}

/// Changes take effect one after the other: none leaves the store as it is, a put makes its
/// key hold the value, a deletion makes it hold nothing, and neither touches anything else.
pub proof fn law_changes_take_effect_in_order(
    contents: Contents,
    changes: Seq<Change>,
    table: Seq<char>,
    key: Seq<u8>,
    value: Seq<u8>,
    t: Seq<char>,
    k: Seq<u8>,
)
    requires
        apply_changes(contents, changes).contains_key(table),
    ensures
        apply_changes(contents, Seq::empty()) == contents,
        ({
            let before = apply_changes(contents, changes);
            let put = apply_changes(contents, changes.push(Change::Put(table, key, value)));
            let deleted = apply_changes(contents, changes.push(Change::Delete(table, key)));
            let here = t == table && k == key;
            &&& put.dom() == before.dom()
            &&& deleted.dom() == before.dom()
            &&& here ==> lookup(put, t, k) == Some(value)
            &&& here ==> lookup(deleted, t, k) is None
            &&& !here ==> lookup(put, t, k) == lookup(before, t, k)
            &&& !here ==> lookup(deleted, t, k) == lookup(before, t, k)
        }),
{
    let before = apply_changes(contents, changes);
    let puts = changes.push(Change::Put(table, key, value));
    let dels = changes.push(Change::Delete(table, key));
    assert(puts.drop_last() =~= changes);
    assert(dels.drop_last() =~= changes);
    assert(apply_changes(contents, puts).dom() =~= before.dom());
    assert(apply_changes(contents, dels).dom() =~= before.dom());
}

/// A scan leads with the run of entries under the prefix with which it begins: they are its
/// leading entries, in this order, and a failure counts only if it ends the run.
pub proof fn law_scan_leads_with_a_run(items: Seq<ScanItem>, prefix: Seq<u8>, n: int)
    requires
        0 <= n <= items.len(),
        forall|i: int|
            0 <= i < n ==> ((#[trigger] items[i]) matches ScanItem::Entry(k, _) && has_prefix(
                k,
                prefix,
            )),
        n < items.len() ==> (items[n] matches ScanItem::Entry(k, _) ==> !has_prefix(k, prefix)),
    ensures
        lead(items, prefix).len() == n,
        forall|i: int|
            0 <= i < n ==> (#[trigger] items[i]) == ScanItem::Entry(
                lead(items, prefix)[i].0,
                lead(items, prefix)[i].1,
            ),
        n == items.len() || items[n] is Entry ==> leading_failure(items, prefix) is None,
        n < items.len() ==> (items[n] matches ScanItem::Failure(e) ==> leading_failure(
            items,
            prefix,
        ) == Some(e)),
        forall|k: Seq<u8>| #[trigger]
            leading_entries(items, prefix).contains_key(k) <==> exists|i: int|
                0 <= i < n && (#[trigger] items[i])->Entry_0 == k,
        forall|i: int|
            0 <= i < n && (forall|j: int|
                0 <= j < i ==> (#[trigger] items[j])->Entry_0 != items[i]->Entry_0)
                ==> leading_entries(items, prefix)[(#[trigger] items[i])->Entry_0]
                == items[i]->Entry_1,
    decreases n,
{
    if n > 0 {
        let rest = items.skip(1);
        assert forall|i: int| 0 <= i < n - 1 implies ((
        #[trigger] rest[i]) matches ScanItem::Entry(k, _) && has_prefix(k, prefix)) by {
            assert(rest[i] == items[i + 1]);
        }
        assert(n < items.len() ==> rest[n - 1] == items[n]);
        law_scan_leads_with_a_run(rest, prefix, n - 1);
        assert(items[0] is Entry && has_prefix(items[0]->Entry_0, prefix));
        let whole = lead(items, prefix);
        let tail = lead(rest, prefix);
        assert forall|i: int| 0 <= i < n implies (#[trigger] items[i]) == ScanItem::Entry(
            whole[i].0,
            whole[i].1,
        ) by {
            if i > 0 {
                assert(rest[i - 1] == items[i]);
                assert(whole[i] == tail[i - 1]);
            }
        }
        assert forall|k: Seq<u8>| #[trigger]
            leading_entries(items, prefix).contains_key(k) <==> exists|i: int|
                0 <= i < n && (#[trigger] items[i])->Entry_0 == k by {
            if leading_entries(items, prefix).contains_key(k) {
                if items[0]->Entry_0 != k {
                    assert(leading_entries(rest, prefix).contains_key(k));
                    let i = choose|i: int| 0 <= i < n - 1 && (#[trigger] rest[i])->Entry_0 == k;
                    assert(items[i + 1] == rest[i]);
                }
            }
            if exists|i: int| 0 <= i < n && (#[trigger] items[i])->Entry_0 == k {
                let i = choose|i: int| 0 <= i < n && (#[trigger] items[i])->Entry_0 == k;
                if i > 0 {
                    assert(rest[i - 1]->Entry_0 == k);
                }
            }
        }
        assert forall|i: int|
            0 <= i < n && (forall|j: int|
                0 <= j < i ==> (#[trigger] items[j])->Entry_0 != items[i]->Entry_0)
            implies leading_entries(items, prefix)[(#[trigger] items[i])->Entry_0]
            == items[i]->Entry_1 by {
            if i > 0 {
                assert(items[0]->Entry_0 != items[i]->Entry_0);
                assert(rest[i - 1] == items[i]);
                assert forall|j: int| 0 <= j < i - 1 implies (#[trigger] rest[j])->Entry_0
                    != rest[i - 1]->Entry_0 by {
                    assert(rest[j] == items[j + 1]);
                }
            }
        }
    }
}

/// A scan in which nothing fails yields every entry under the prefix, each once and before
/// anything else, and nothing that the table does not hold.
pub proof fn law_scan_is_complete(entries: Entries, prefix: Seq<u8>, items: Seq<ScanItem>)
    requires
        is_prefix_scan(entries, prefix, items),
        forall|i: int| 0 <= i < items.len() ==> (#[trigger] items[i]) is Entry,
    ensures
        forall|i: int|
            0 <= i < items.len() ==> entries.contains_key((#[trigger] items[i])->Entry_0)
                && entries[items[i]->Entry_0] == items[i]->Entry_1,
        forall|i: int, j: int|
            0 <= i < j < items.len() ==> (#[trigger] items[i])->Entry_0 != (
            #[trigger] items[j])->Entry_0,
        forall|k: Seq<u8>|
            entries.contains_key(k) && #[trigger] has_prefix(k, prefix) ==> exists|i: int|
                0 <= i < items.len() && (#[trigger] items[i])->Entry_0 == k && (forall|j: int|
                    0 <= j < i ==> has_prefix((#[trigger] items[j])->Entry_0, prefix)),
{
    let n = lead(items, prefix).len() as int;
    lemma_run(items, prefix);
    law_scan_leads_with_a_run(items, prefix, n);
    assert forall|k: Seq<u8>|
        entries.contains_key(k) && #[trigger] has_prefix(k, prefix) implies exists|i: int|
        0 <= i < items.len() && (#[trigger] items[i])->Entry_0 == k && (forall|j: int|
            0 <= j < i ==> has_prefix((#[trigger] items[j])->Entry_0, prefix)) by {
        assert(with_prefix(entries, prefix).contains_key(k));
        assert(leading_entries(items, prefix).contains_key(k));
        let i = choose|i: int| 0 <= i < n && (#[trigger] items[i])->Entry_0 == k;
        assert(items[i]->Entry_0 == k);
    }
}

/// A scan, whether or not something fails in it, yields entries of the table, each at most
/// once; and unless a failure ends the run with which it begins, that run has every entry
/// under the prefix.
pub proof fn law_scan_yields_what_is_there(
    entries: Entries,
    prefix: Seq<u8>,
    items: Seq<ScanItem>,
)
    requires
        is_prefix_scan(entries, prefix, items),
    ensures
        forall|i: int|
            0 <= i < items.len() ==> ((#[trigger] items[i]) matches ScanItem::Entry(k, v)
                ==> entries.contains_key(k) && entries[k] == v),
        forall|i: int, j: int|
            0 <= i < j < items.len() && #[trigger] items[i] is Entry && #[trigger] items[j] is Entry
                ==> items[i]->Entry_0 != items[j]->Entry_0,
        leading_failure(items, prefix) is None ==> forall|k: Seq<u8>|
            entries.contains_key(k) && #[trigger] has_prefix(k, prefix) ==> exists|i: int|
                0 <= i < lead(items, prefix).len() && (#[trigger] items[i])->Entry_0 == k,
{
    let n = lead(items, prefix).len() as int;
    lemma_run(items, prefix);
    law_scan_leads_with_a_run(items, prefix, n);
    if leading_failure(items, prefix) is None {
        assert forall|k: Seq<u8>|
            entries.contains_key(k) && #[trigger] has_prefix(k, prefix) implies exists|i: int|
            0 <= i < n && (#[trigger] items[i])->Entry_0 == k by {
            assert(with_prefix(entries, prefix).contains_key(k));
            assert(leading_entries(items, prefix).contains_key(k));
        }
    }
}

/// Where the run ends with which a scan begins.
proof fn lemma_run(items: Seq<ScanItem>, prefix: Seq<u8>)
    ensures
        ({
            let n = lead(items, prefix).len() as int;
            &&& n <= items.len()
            &&& forall|i: int|
                0 <= i < n ==> ((#[trigger] items[i]) matches ScanItem::Entry(k, _) && has_prefix(
                    k,
                    prefix,
                ))
            &&& n < items.len() ==> (items[n] matches ScanItem::Entry(k, _) ==> !has_prefix(
                k,
                prefix,
            ))
        }),
    decreases items.len(),
{
    if items.len() > 0 && items[0] is Entry && has_prefix(items[0]->Entry_0, prefix) {
        let rest = items.skip(1);
        lemma_run(rest, prefix);
        let n = lead(items, prefix).len() as int;
        assert forall|i: int| 0 <= i < n implies ((
        #[trigger] items[i]) matches ScanItem::Entry(k, _) && has_prefix(k, prefix)) by {
            if i > 0 {
                assert(rest[i - 1] == items[i]);
            }
        }
        assert(n < items.len() ==> rest[n - 1] == items[n]);
    }
}

/// Every item of a confined scan is an entry under the prefix.
pub proof fn law_confined_scan(items: Seq<ScanItem>, prefix: Seq<u8>)
    ensures
        confined(items, prefix) <==> forall|i: int|
            0 <= i < items.len() ==> (#[trigger] items[i]) is Entry && has_prefix(
                items[i]->Entry_0,
                prefix,
            ),
{
    if confined(items, prefix) {
        assert forall|i: int| 0 <= i < items.len() implies (#[trigger] items[i]) is Entry
            && has_prefix(items[i]->Entry_0, prefix) by {}
    }
}

/// A store with one entry put in differs from the store before in that entry alone.
pub proof fn law_one_entry_put_in(
    contents: Contents,
    table: Seq<char>,
    key: Seq<u8>,
    value: Seq<u8>,
    t: Seq<char>,
    k: Seq<u8>,
)
    requires
        contents.contains_key(table),
    ensures
        with_entry(contents, table, key, value).dom() == contents.dom(),
        lookup(with_entry(contents, table, key, value), t, k) == (if t == table && k == key {
            Some(value)
        } else {
            lookup(contents, t, k)
        }),
{
    assert(with_entry(contents, table, key, value).dom() =~= contents.dom());
}

/// A store with entries put into a table differs from the store before in those alone.
pub proof fn law_entries_put_in(
    contents: Contents,
    table: Seq<char>,
    added: Entries,
    t: Seq<char>,
    k: Seq<u8>,
)
    requires
        contents.contains_key(table),
    ensures
        with_entries(contents, table, added).dom() == contents.dom(),
        lookup(with_entries(contents, table, added), t, k) == (if t == table && added.contains_key(
            k,
        ) {
            Some(added[k])
        } else {
            lookup(contents, t, k)
        }),
{
    assert(with_entries(contents, table, added).dom() =~= contents.dom());
}

/// Pairs stand for entries, and a later pair replaces an earlier one with its key: no pairs
/// stand for none, and one pair more makes its key hold its value and changes no other.
pub proof fn law_later_pairs_replace(
    pairs: Seq<(Vec<u8>, Vec<u8>)>,
    pair: (Vec<u8>, Vec<u8>),
    k: Seq<u8>,
)
    ensures
        collected(Seq::empty()) == Entries::empty(),
        collected(pairs.push(pair)).contains_key(pair.0@),
        collected(pairs.push(pair))[pair.0@] == pair.1@,
        k != pair.0@ ==> collected(pairs.push(pair)).contains_key(k) == collected(
            pairs,
        ).contains_key(k),
        k != pair.0@ && collected(pairs).contains_key(k) ==> collected(pairs.push(pair))[k]
            == collected(pairs)[k],
{
    assert(pairs.push(pair).drop_last() =~= pairs);
}

/// Lists of changes follow the lists they are made from, one for one.
pub proof fn law_changes_one_for_one(
    table: Seq<char>,
    pairs: Seq<(Vec<u8>, Vec<u8>)>,
    keys: Seq<Seq<u8>>,
    entries: Seq<(Seq<u8>, Seq<u8>)>,
    i: int,
)
    ensures
        puts(table, pairs).len() == pairs.len(),
        entries_in(pairs).len() == pairs.len(),
        deletes(table, keys).len() == keys.len(),
        copies(table, entries).len() == entries.len(),
        removals(table, entries).len() == entries.len(),
        keys_of(entries).len() == entries.len(),
        0 <= i < pairs.len() ==> puts(table, pairs)[i] == Change::Put(
            table,
            pairs[i].0@,
            pairs[i].1@,
        ) && entries_in(pairs)[i] == (pairs[i].0@, pairs[i].1@),
        0 <= i < keys.len() ==> deletes(table, keys)[i] == Change::Delete(table, keys[i]),
        0 <= i < entries.len() ==> copies(table, entries)[i] == Change::Put(
            table,
            entries[i].0,
            entries[i].1,
        ) && removals(table, entries)[i] == Change::Delete(table, entries[i].0) && keys_of(
            entries,
        )[i] == entries[i].0,
{
}

/// Taking the entries with a suffix keeps those and drops the others, in their order.
pub proof fn law_entries_with_a_suffix(
    entries: Seq<(Seq<u8>, Seq<u8>)>,
    entry: (Seq<u8>, Seq<u8>),
    suffix: Seq<u8>,
)
    ensures
        ending(Seq::empty(), suffix) == Seq::<(Seq<u8>, Seq<u8>)>::empty(),
        has_suffix(entry.0, suffix) ==> ending(entries.push(entry), suffix) == ending(
            entries,
            suffix,
        ).push(entry),
        !has_suffix(entry.0, suffix) ==> ending(entries.push(entry), suffix) == ending(
            entries,
            suffix,
        ),
{
    reveal(Seq::filter);
    lemma_ending_push(entries, entry, suffix);
    assert(ending(Seq::empty(), suffix) =~= Seq::<(Seq<u8>, Seq<u8>)>::empty());
}

/// An attempt that succeeded has reached its target, one that failed has reached it or left
/// everything as it was, and a target is only reached in a store that has the table.
pub proof fn law_attempt(
    done: bool,
    before: Contents,
    after: Contents,
    table: Seq<char>,
    target: Contents,
)
    requires
        attempted(done, before, after, table, target),
    ensures
        done ==> after == target && before.contains_key(table),
        after == before || (after == target && before.contains_key(table)),
{
}

/// A merged scan yields the items of the hot scan and, behind them, those of the cold one
/// in their order, without the entries under keys that the hot scan has yielded.
pub proof fn law_merged_scan(hot: Seq<ScanItem>, cold: Seq<ScanItem>)
    requires
        forall|i: int, j: int|
            0 <= i < j < cold.len() && #[trigger] cold[i] is Entry && #[trigger] cold[j] is Entry
                ==> cold[i]->Entry_0 != cold[j]->Entry_0,
    ensures
        chained(hot, cold) == hot + cold.filter(
            |item: ScanItem|
                item matches ScanItem::Entry(key, _) ==> !(exists|i: int|
                    0 <= i < hot.len() && (#[trigger] hot[i]) is Entry && hot[i]->Entry_0 == key),
        ),
{
    let seen = scanned_keys(hot);
    let keep = |item: ScanItem|
        item matches ScanItem::Entry(key, _) ==> !(exists|i: int|
            0 <= i < hot.len() && (#[trigger] hot[i]) is Entry && hot[i]->Entry_0 == key);
    let keep1 = |item: ScanItem| item matches ScanItem::Entry(key, _) ==> !seen.contains(key);
    assert(keep =~= keep1);
    lemma_unseen_is_filter(cold, seen, seen);
}

/// Dropping seen keys, item by item: a failure stays, an entry goes if its key has been
/// seen, and stays and makes its key seen if it has not.
pub proof fn law_seen_keys_are_dropped(
    item: ScanItem,
    rest: Seq<ScanItem>,
    seen: Set<Seq<u8>>,
)
    ensures
        unseen(Seq::empty(), seen) == Seq::<ScanItem>::empty(),
        item is Failure ==> unseen(seq![item] + rest, seen) == seq![item] + unseen(rest, seen),
        item matches ScanItem::Entry(key, _) ==> seen.contains(key) ==> unseen(
            seq![item] + rest,
            seen,
        ) == unseen(rest, seen),
        item matches ScanItem::Entry(key, _) ==> !seen.contains(key) ==> unseen(
            seq![item] + rest,
            seen,
        ) == seq![item] + unseen(rest, seen.insert(key)),
{
    assert((seq![item] + rest).skip(1) =~= rest);
    assert(unseen(Seq::empty(), seen) =~= Seq::<ScanItem>::empty());
}

/// The keys that a scan yields are those of its entries, and no two entries of a scan whose
/// keys differ have the same one.
pub proof fn law_scanned_keys(items: Seq<ScanItem>, key: Seq<u8>)
    ensures
        scanned_keys(items).contains(key) <==> exists|i: int|
            0 <= i < items.len() && (#[trigger] items[i]) is Entry && items[i]->Entry_0 == key,
        keys_differ(items) <==> forall|i: int, j: int|
            0 <= i < j < items.len() && #[trigger] items[i] is Entry && #[trigger] items[j] is Entry
                ==> items[i]->Entry_0 != items[j]->Entry_0,
{
}

/// Dropping seen keys is filtering, where no key comes twice.
proof fn lemma_unseen_is_filter(items: Seq<ScanItem>, seen: Set<Seq<u8>>, noted: Set<Seq<u8>>)
    requires
        keys_differ(items),
        forall|i: int|
            0 <= i < items.len() && (#[trigger] items[i]) is Entry ==> (seen.contains(
                items[i]->Entry_0,
            ) <==> noted.contains(items[i]->Entry_0)),
    ensures
        unseen(items, noted) == items.filter(
            |item: ScanItem| item matches ScanItem::Entry(key, _) ==> !seen.contains(key),
        ),
    decreases items.len(),
{
    let keep = |item: ScanItem| item matches ScanItem::Entry(key, _) ==> !seen.contains(key);
    if items.len() == 0 {
        reveal(Seq::filter);
        assert(items.filter(keep) =~= items);
    } else {
        let first = items.take(1);
        let rest = items.skip(1);
        assert forall|i: int, j: int|
            0 <= i < j < rest.len() && #[trigger] rest[i] is Entry && #[trigger] rest[j] is Entry
            implies rest[i]->Entry_0 != rest[j]->Entry_0 by {
            assert(rest[i] == items[i + 1] && rest[j] == items[j + 1]);
        }
        let noted1 = match items[0] {
            ScanItem::Entry(key, _) => noted.insert(key),
            ScanItem::Failure(_) => noted,
        };
        assert forall|i: int|
            0 <= i < rest.len() && (#[trigger] rest[i]) is Entry implies (seen.contains(
            rest[i]->Entry_0,
        ) <==> noted1.contains(rest[i]->Entry_0)) by {
            assert(rest[i] == items[i + 1]);
            assert(items[0] is Entry ==> items[0]->Entry_0 != items[i + 1]->Entry_0);
        }
        lemma_unseen_is_filter(rest, seen, noted1);
        assert(items =~= first + rest);
        Seq::filter_distributes_over_add(first, rest, keep);
        assert(first.drop_last() =~= Seq::empty());
        assert(first.last() == items[0]);
        reveal_with_fuel(Seq::filter, 2);
        let kept = first.filter(keep);
        assert(kept =~= if keep(items[0]) {
            seq![items[0]]
        } else {
            Seq::empty()
        });
        if items[0] is Entry && noted.contains(items[0]->Entry_0) {
            assert(noted1 =~= noted);
        }
        assert(unseen(items, noted) =~= kept + rest.filter(keep));
    }
}

/// A table seen through both tiers has the hot entry under a key and, where there is none,
/// the cold one.
pub proof fn law_merged_table(hot: Entries, cold: Entries, key: Seq<u8>)
    ensures
        merged(hot, cold).contains_key(key) <==> hot.contains_key(key) || cold.contains_key(key),
        hot.contains_key(key) ==> merged(hot, cold)[key] == hot[key],
        !hot.contains_key(key) && cold.contains_key(key) ==> merged(hot, cold)[key] == cold[key],
{
}

/// The warm tables are those of the headers, the bodies, the receipts and the transaction
/// locations; the list of them names the same four, and the hot store has all of them.
pub proof fn law_warm_tables(table: Seq<char>)
    ensures
        warm(table) <==> table == "headers"@ || table == "bodies"@ || table == "receipts"@ || table
            == "transaction_locations"@,
        warm(table) <==> exists|i: int|
            0 <= i < WARM_TABLES@.len() && (#[trigger] WARM_TABLES@[i])@ == table,
        warm(table) ==> exists|i: int|
            0 <= i < TABLES@.len() && (#[trigger] TABLES@[i])@ == table,
        exists|i: int|
            0 <= i < TABLES@.len() && (#[trigger] TABLES@[i])@ == "canonical_block_hashes"@,
        exists|i: int| 0 <= i < TABLES@.len() && (#[trigger] TABLES@[i])@ == "misc_values"@,
        HEADERS@ == "headers"@,
        BODIES@ == "bodies"@,
        RECEIPTS@ == "receipts"@,
        TRANSACTION_LOCATIONS@ == "transaction_locations"@,
        CANONICAL_BLOCK_HASHES@ == "canonical_block_hashes"@,
        MISC_VALUES@ == "misc_values"@,
        !warm("canonical_block_hashes"@),
        !warm("misc_values"@),
{
    lemma_table_names();
    assert(WARM_TABLES@[0]@ == "headers"@);
    assert(WARM_TABLES@[1]@ == "bodies"@);
    assert(WARM_TABLES@[2]@ == "receipts"@);
    assert(WARM_TABLES@[3]@ == "transaction_locations"@);
    assert(WARM_TABLES@.len() == 4);
    assert(TABLES@.len() == 19);
    assert(TABLES@[0]@ == "canonical_block_hashes"@);
    assert(TABLES@[2]@ == "headers"@);
    assert(TABLES@[3]@ == "bodies"@);
    assert(TABLES@[4]@ == "receipts"@);
    assert(TABLES@[5]@ == "transaction_locations"@);
    assert(TABLES@[18]@ == "misc_values"@);
}

/// The hot store has the tables of the chain, of the state and of the node itself.
pub proof fn law_tables_of_the_hot_store()
    ensures
        TABLES@.map_values(|name: &'static str| name@) == seq![
            "canonical_block_hashes"@,
            "block_numbers"@,
            "headers"@,
            "bodies"@,
            "receipts"@,
            "transaction_locations"@,
            "account_codes"@,
            "account_code_metadata"@,
            "chain_data"@,
            "snap_state"@,
            "account_trie_nodes"@,
            "storage_trie_nodes"@,
            "account_flatkeyvalue"@,
            "storage_flatkeyvalue"@,
            "pending_blocks"@,
            "invalid_chains"@,
            "fullsync_headers"@,
            "execution_witnesses"@,
            "misc_values"@,
        ],
{
}

/// A read through both tiers gives what the hot tier has; else, for the four warm tables
/// and no others, what the cold tier has.
pub proof fn law_read_through_both_tiers(
    hot: Contents,
    cold: Contents,
    table: Seq<char>,
    key: Seq<u8>,
)
    ensures
        lookup(hot, table, key) is Some ==> tiered_lookup(hot, cold, table, key) == lookup(
            hot,
            table,
            key,
        ),
        lookup(hot, table, key) is None && warm(table) ==> tiered_lookup(hot, cold, table, key)
            == lookup(cold, table, key),
        lookup(hot, table, key) is None && !warm(table) ==> tiered_lookup(
            hot,
            cold,
            table,
            key,
        ) is None,
        warm(table) ==> tiered_entries(hot, cold, table) == merged(hot[table], cold[table]),
        !warm(table) ==> tiered_entries(hot, cold, table) == hot[table],
{
}

/// The hash of a block stands in the table of canonical hashes, under the eight bytes of
/// its number, the lowest first.
pub proof fn law_canonical_hash(hot: Contents, n: u64)
    ensures
        block_hash(hot, n as int) == lookup(
            hot,
            "canonical_block_hashes"@,
            spec_u64_to_le_bytes(n),
        ),
{
}

/// To the block with a hash belong the header and the body under the hash, every receipt
/// whose key begins with it and every transaction location whose key ends with it, and
/// nothing else.
pub proof fn law_entries_of_a_block(hash: Seq<u8>, table: Seq<char>, key: Seq<u8>)
    ensures
        table == "headers"@ || table == "bodies"@ ==> (belongs(hash, table, key) <==> key == hash),
        table == "receipts"@ ==> (belongs(hash, table, key) <==> has_prefix(key, hash)),
        table == "transaction_locations"@ ==> (belongs(hash, table, key) <==> has_suffix(
            key,
            hash,
        )),
        table != "headers"@ && table != "bodies"@ && table != "receipts"@ && table
            != "transaction_locations"@ ==> !belongs(hash, table, key),
{
    lemma_table_names();
}

/// The entries that move with the blocks from `start` up to, and without, `end` are those
/// that belong to a block with such a number whose canonical hash is known.
pub proof fn law_moving_entries(
    hot: Contents,
    start: u64,
    end: u64,
    table: Seq<char>,
    key: Seq<u8>,
)
    ensures
        moves(hot, start as int, end as int, table, key) <==> exists|n: u64|
            start <= n < end && (lookup(
                hot,
                "canonical_block_hashes"@,
                #[trigger] spec_u64_to_le_bytes(n),
            ) matches Some(hash) && belongs(hash, table, key)),
{
    if moves(hot, start as int, end as int, table, key) {
        let n = choose|n: int|
            start <= n < end && #[trigger] owns(hot, n, table, key);
        let m = n as u64;
        assert(owns(hot, m as int, table, key));
        assert(lookup(hot, "canonical_block_hashes"@, spec_u64_to_le_bytes(m)) is Some);
    }
    if exists|n: u64|
        start <= n < end && (lookup(
            hot,
            "canonical_block_hashes"@,
            #[trigger] spec_u64_to_le_bytes(n),
        ) matches Some(hash) && belongs(hash, table, key)) {
        let n = choose|n: u64|
            start <= n < end && (lookup(
                hot,
                "canonical_block_hashes"@,
                #[trigger] spec_u64_to_le_bytes(n),
            ) matches Some(hash) && belongs(hash, table, key));
        assert(owns(hot, n as int, table, key));
    }
}

/// After blocks have moved, the stores have the tables they had.
pub proof fn law_tables_stay(hot: Contents, cold: Contents, start: int, end: int)
    ensures
        hot_after(hot, start, end).dom() == hot.dom(),
        cold_after(hot, cold, start, end).dom() == cold.dom(),
{
    assert(hot_after(hot, start, end).dom() =~= hot.dom());
    assert(cold_after(hot, cold, start, end).dom() =~= cold.dom());
}

/// What has been moved safely, entry by entry: what the hot store no longer has belongs to
/// one of the blocks, and the cold store has it with the same value; nothing else of the hot
/// store has changed. What is new in the cold store belongs to one of the blocks and is what
/// the hot store had; nothing else of the cold store has changed.
pub proof fn law_safe_move_by_entry(
    hot: Contents,
    cold: Contents,
    hot1: Contents,
    cold1: Contents,
    start: int,
    end: int,
    t: Seq<char>,
    k: Seq<u8>,
)
    requires
        safely_moved(hot, cold, hot1, cold1, start, end),
    ensures
        hot1.dom() == hot.dom(),
        cold1.dom() == cold.dom(),
        lookup(hot1, t, k) != lookup(hot, t, k) ==> lookup(hot1, t, k) is None && lookup(
            cold1,
            t,
            k,
        ) == lookup(hot, t, k) && moves(hot, start, end, t, k),
        lookup(cold1, t, k) != lookup(cold, t, k) ==> lookup(cold1, t, k) == lookup(hot, t, k)
            && lookup(hot, t, k) is Some && moves(hot, start, end, t, k),
{
}

/// An attempt to move one block has moved it safely, and has taken all of it out of the hot
/// store or none of it.
pub proof fn law_block_leaves_as_a_whole(
    hot: Contents,
    cold: Contents,
    hot1: Contents,
    cold1: Contents,
    n: int,
    t: Seq<char>,
    k: Seq<u8>,
)
    requires
        block_left(hot, cold, hot1, cold1, n),
    ensures
        safely_moved(hot, cold, hot1, cold1, n, n + 1),
        hot1 == hot || (moves(hot, n, n + 1, t, k) ==> lookup(hot1, t, k) is None && (lookup(
            hot,
            t,
            k,
        ) is Some && cold.contains_key(t) ==> lookup(cold1, t, k) == lookup(hot, t, k))),
{
}

/// The cold store with a block, and the hot store without it, entry by entry.
pub proof fn law_block_by_entry(
    hot: Contents,
    cold: Contents,
    hash: Seq<u8>,
    t: Seq<char>,
    k: Seq<u8>,
)
    ensures
        cold_with(hot, cold, hash).dom() == cold.dom(),
        hot_without(hot, hash).dom() == hot.dom(),
        belongs(hash, t, k) ==> lookup(hot_without(hot, hash), t, k) is None,
        !belongs(hash, t, k) ==> lookup(hot_without(hot, hash), t, k) == lookup(hot, t, k),
        cold.contains_key(t) && belongs(hash, t, k) && lookup(hot, t, k) is Some ==> lookup(
            cold_with(hot, cold, hash),
            t,
            k,
        ) == lookup(hot, t, k),
        !belongs(hash, t, k) || lookup(hot, t, k) is None ==> lookup(
            cold_with(hot, cold, hash),
            t,
            k,
        ) == lookup(cold, t, k),
{
    assert(cold_with(hot, cold, hash).dom() =~= cold.dom());
    assert(hot_without(hot, hash).dom() =~= hot.dom());
}

/// While a block is being copied, the cold store changes only by entries of the block, with
/// the values that the hot store has.
pub proof fn law_partly_copied_by_entry(
    hot: Contents,
    cold: Contents,
    cold1: Contents,
    hash: Seq<u8>,
    t: Seq<char>,
    k: Seq<u8>,
)
    requires
        partly_copied(hot, cold, cold1, hash),
    ensures
        cold1.dom() == cold.dom(),
        lookup(cold1, t, k) != lookup(cold, t, k) ==> belongs(hash, t, k) && lookup(hot, t, k)
            is Some && lookup(cold1, t, k) == lookup(hot, t, k),
{
}

/// The first deletions of a block are that of its header and, only where it has one, that
/// of its body; and the tables of blocks are the four warm ones.
pub proof fn law_head_of_a_block(hash: Seq<u8>, contents: Contents)
    ensures
        head_deletes(hash, false) == seq![Change::Delete("headers"@, hash)],
        head_deletes(hash, true) == seq![
            Change::Delete("headers"@, hash),
            Change::Delete("bodies"@, hash),
        ],
        has_block_tables(contents) <==> contents.contains_key("headers"@) && contents.contains_key(
            "bodies"@,
        ) && contents.contains_key("receipts"@) && contents.contains_key("transaction_locations"@),
{
}

/// A store in memory has the entries of each of its tables under the name of the table. It
/// is opened with the tables it is given, and they are empty.
pub proof fn law_memory_holds_its_tables(
    tables: Seq<NamedTable>,
    names: Seq<&'static str>,
    name: Seq<char>,
)
    ensures
        contents_of(tables).contains_key(name) <==> exists|i: int|
            0 <= i < tables.len() && (#[trigger] tables[i]).0@ == name,
        empty_tables(names).contains_key(name) <==> exists|i: int|
            0 <= i < names.len() && (#[trigger] names[i])@ == name,
        empty_tables(names).contains_key(name) ==> empty_tables(names)[name] == Entries::empty(),
        (forall|i: int, j: int|
            0 <= i < j < tables.len() ==> (#[trigger] tables[i]).0@ != (#[trigger] tables[j]).0@)
            ==> forall|i: int|
            0 <= i < tables.len() && (#[trigger] tables[i]).0@ == name ==> contents_of(tables)[name]
                == entries_of(tables[i].1@),
{
    if exists|i: int| 0 <= i < tables.len() && (#[trigger] tables[i]).0@ == name {
        let i = choose|i: int| 0 <= i < tables.len() && (#[trigger] tables[i]).0@ == name;
        assert(named(tables, name, i));
    }
    assert forall|i: int|
        0 <= i < tables.len() && (#[trigger] tables[i]).0@ == name && (forall|i: int, j: int|
            0 <= i < j < tables.len() ==> (#[trigger] tables[i]).0@ != (#[trigger] tables[j]).0@)
        implies contents_of(tables)[name] == entries_of(tables[i].1@) by {
        assert(named(tables, name, i));
        let j = choose|j: int| named(tables, name, j);
        assert(named(tables, name, j));
        assert(tables[i].0@ == tables[j].0@);
    }
    if contents_of(tables).contains_key(name) {
        let i = choose|i: int| named(tables, name, i);
        assert(tables[i].0@ == name);
    }
}

/// A table in memory has, under each of its keys, the bytes of the value that is kept there.
pub proof fn law_memory_table(table: Map<Seq<u8>, Vec<u8>>, key: Seq<u8>)
    ensures
        entries_of(table).contains_key(key) <==> table.contains_key(key),
        table.contains_key(key) ==> entries_of(table)[key] == table[key]@,
{
}

/// A store in memory never fails on a table that it has, and its scans stay under their
/// prefix.
pub proof fn law_memory_does_not_fail(store: InMemoryBackend, view: MemoryReadView<'_>)
    ensures
        store.infallible(),
        view.infallible(),
        view.bounded_scans(),
{
}

} // verus!
