//! What the leading entries of a scan are.

use crate::api::{is_prefix_scan, leading_entries, leading_failure, with_prefix, with_suffix};
use crate::api::{Change, Entries, ScanItem};
use crate::bytes::{has_prefix, has_suffix};
use vstd::prelude::*;

verus! {

/// The entries of a scan up to the first item that is not an entry under `prefix`, in
/// their order.
pub open spec fn lead(items: Seq<ScanItem>, prefix: Seq<u8>) -> Seq<(Seq<u8>, Seq<u8>)>
    decreases items.len(),
{
    if items.len() == 0 {
        Seq::empty()
    } else {
        match items[0] {
            ScanItem::Entry(k, v) => if has_prefix(k, prefix) {
                seq![(k, v)] + lead(items.skip(1), prefix)
            } else {
                Seq::empty()
            },
            ScanItem::Failure(_) => Seq::empty(),
        }
    }
}

/// The keys of the leading entries of a scan, in their order.
pub open spec fn lead_keys(items: Seq<ScanItem>, prefix: Seq<u8>) -> Seq<Seq<u8>> {
    keys_of(lead(items, prefix))
}

/// Those of the entries whose keys end with `suffix`, in their order.
pub open spec fn ending(entries: Seq<(Seq<u8>, Seq<u8>)>, suffix: Seq<u8>) -> Seq<
    (Seq<u8>, Seq<u8>),
> {
    entries.filter(|entry: (Seq<u8>, Seq<u8>)| has_suffix(entry.0, suffix))
}

/// The keys of entries, in their order.
pub open spec fn keys_of(entries: Seq<(Seq<u8>, Seq<u8>)>) -> Seq<Seq<u8>> {
    entries.map_values(|entry: (Seq<u8>, Seq<u8>)| entry.0)
}

/// The changes that put these entries into `table`, in their order.
pub open spec fn copies(table: Seq<char>, entries: Seq<(Seq<u8>, Seq<u8>)>) -> Seq<Change> {
    entries.map_values(|entry: (Seq<u8>, Seq<u8>)| Change::Put(table, entry.0, entry.1))
}

/// The changes that delete these entries from `table`, in their order.
pub open spec fn removals(table: Seq<char>, entries: Seq<(Seq<u8>, Seq<u8>)>) -> Seq<Change> {
    entries.map_values(|entry: (Seq<u8>, Seq<u8>)| Change::Delete(table, entry.0))
}

/// A scan that yields only entries of a table has only entries of it in its lead.
pub proof fn lemma_leading_agrees(entries: Entries, items: Seq<ScanItem>, prefix: Seq<u8>)
    requires
        forall|i: int|
            0 <= i < items.len() ==> match #[trigger] items[i] {
                ScanItem::Entry(k, v) => entries.contains_key(k) && entries[k] == v,
                ScanItem::Failure(_) => true,
            },
    ensures
        forall|k: Seq<u8>| #[trigger]
            leading_entries(items, prefix).contains_key(k) ==> entries.contains_key(k)
                && leading_entries(items, prefix)[k] == entries[k] && has_prefix(k, prefix),
    decreases items.len(),
{
    if items.len() > 0 {
        let rest = items.skip(1);
        assert forall|i: int| 0 <= i < rest.len() implies match #[trigger] rest[i] {
            ScanItem::Entry(k, v) => entries.contains_key(k) && entries[k] == v,
            ScanItem::Failure(_) => true,
        } by {
            assert(rest[i] == items[i + 1]);
        }
        lemma_leading_agrees(entries, rest, prefix);
        assert forall|k: Seq<u8>| #[trigger]
            leading_entries(items, prefix).contains_key(k) implies entries.contains_key(k)
            && leading_entries(items, prefix)[k] == entries[k] && has_prefix(k, prefix) by {
            if items[0]->Entry_0 != k {
                assert(leading_entries(rest, prefix).contains_key(k));
            }
        }
    }
}

/// The leading entries of a scan of a table are entries under the prefix, each once.
pub proof fn lemma_lead_of_scan(entries: Entries, items: Seq<ScanItem>, prefix: Seq<u8>)
    requires
        is_prefix_scan(entries, prefix, items),
    ensures
        ({
            let keys = lead_keys(items, prefix);
            let wanted = with_prefix(entries, prefix).dom();
            &&& keys.no_duplicates()
            &&& keys.to_set().subset_of(wanted)
            &&& leading_failure(items, prefix) is None ==> keys.to_set() == wanted
        }),
{
    let keys = lead_keys(items, prefix);
    let wanted = with_prefix(entries, prefix).dom();
    lemma_leading_agrees(entries, items, prefix);
    lemma_lead_items(items, prefix);
    assert forall|i: int, j: int| 0 <= i < j < keys.len() implies keys[i] != keys[j] by {
        assert(items[i] is Entry && items[j] is Entry);
    }
    assert forall|k: Seq<u8>| #[trigger] keys.to_set().contains(k) implies wanted.contains(k) by {
        assert(leading_entries(items, prefix).contains_key(k));
    }
    if leading_failure(items, prefix) is None {
        assert forall|k: Seq<u8>| #[trigger] wanted.contains(k) implies keys.to_set().contains(k) by {
            assert(leading_entries(items, prefix).contains_key(k));
        }
        assert(keys.to_set() =~= wanted);
    }
}

/// The leading entries are the first items of a scan, and their keys those of the
/// entries that it leads with.
proof fn lemma_lead_items(items: Seq<ScanItem>, prefix: Seq<u8>)
    ensures
        lead(items, prefix).len() <= items.len(),
        forall|i: int|
            0 <= i < lead(items, prefix).len() ==> (#[trigger] items[i]) == ScanItem::Entry(
                lead(items, prefix)[i].0,
                lead(items, prefix)[i].1,
            ),
        forall|k: Seq<u8>| #[trigger]
            lead_keys(items, prefix).contains(k) <==> leading_entries(items, prefix).contains_key(k),
    decreases items.len(),
{
    if items.len() > 0 && items[0] is Entry && has_prefix(items[0]->Entry_0, prefix) {
        let rest = items.skip(1);
        let tail = lead(rest, prefix);
        let whole = lead(items, prefix);
        lemma_lead_items(rest, prefix);
        assert forall|i: int| 0 <= i < whole.len() implies (#[trigger] items[i])
            == ScanItem::Entry(whole[i].0, whole[i].1) by {
            if i > 0 {
                assert(rest[i - 1] == items[i]);
                assert(whole[i] == tail[i - 1]);
            }
        }
        let key = items[0]->Entry_0;
        let keys = lead_keys(items, prefix);
        let tail_keys = lead_keys(rest, prefix);
        assert(keys =~= seq![key] + tail_keys);
        assert forall|k: Seq<u8>| #[trigger] keys.contains(k) <==> leading_entries(
            items,
            prefix,
        ).contains_key(k) by {
            if keys.contains(k) {
                let i = choose|i: int| 0 <= i < keys.len() && keys[i] == k;
                if i > 0 {
                    assert(tail_keys[i - 1] == k);
                    assert(tail_keys.contains(k));
                }
            }
            if leading_entries(items, prefix).contains_key(k) {
                if k == key {
                    assert(keys[0] == k);
                } else {
                    assert(tail_keys.contains(k));
                    let i = choose|i: int| 0 <= i < tail_keys.len() && tail_keys[i] == k;
                    assert(keys[i + 1] == k);
                }
            }
        }
    }
}

/// One entry more, before those whose keys end with `suffix` are taken.
pub proof fn lemma_ending_push(
    entries: Seq<(Seq<u8>, Seq<u8>)>,
    entry: (Seq<u8>, Seq<u8>),
    suffix: Seq<u8>,
)
    ensures
        ending(entries.push(entry), suffix) == (if has_suffix(entry.0, suffix) {
            ending(entries, suffix).push(entry)
        } else {
            ending(entries, suffix)
        }),
{
    reveal(Seq::filter);
    assert(entries.push(entry).drop_last() =~= entries);
}

/// What those of the entries are whose keys end with `suffix`.
proof fn lemma_ending(entries: Seq<(Seq<u8>, Seq<u8>)>, suffix: Seq<u8>)
    requires
        keys_of(entries).no_duplicates(),
    ensures
        keys_of(ending(entries, suffix)).no_duplicates(),
        forall|i: int|
            0 <= i < ending(entries, suffix).len() ==> entries.contains(
                #[trigger] ending(entries, suffix)[i],
            ) && has_suffix(ending(entries, suffix)[i].0, suffix),
        forall|i: int|
            0 <= i < entries.len() && has_suffix((#[trigger] entries[i]).0, suffix) ==> ending(
                entries,
                suffix,
            ).contains(entries[i]),
        suffix.len() == 0 ==> ending(entries, suffix) == entries,
    decreases entries.len(),
{
    let kept = ending(entries, suffix);
    if entries.len() == 0 {
        reveal(Seq::filter);
        assert(kept =~= entries);
    } else {
        let init = entries.drop_last();
        let last = entries.last();
        let before = ending(init, suffix);
        assert forall|i: int, j: int| 0 <= i < j < init.len() implies keys_of(init)[i] != keys_of(
            init,
        )[j] by {
            assert(keys_of(entries)[i] != keys_of(entries)[j]);
        }
        lemma_ending(init, suffix);
        assert(init.push(last) =~= entries);
        lemma_ending_push(init, last, suffix);
        assert forall|i: int| 0 <= i < kept.len() implies entries.contains(#[trigger] kept[i])
            && has_suffix(kept[i].0, suffix) by {
            if i < before.len() {
                assert(before[i] == kept[i]);
                let j = choose|j: int| 0 <= j < init.len() && init[j] == before[i];
                assert(entries[j] == kept[i]);
            } else {
                assert(entries[entries.len() - 1] == kept[i]);
            }
        }
        assert forall|i: int|
            0 <= i < entries.len() && has_suffix((#[trigger] entries[i]).0, suffix)
            implies kept.contains(entries[i]) by {
            if i < init.len() {
                assert(init[i] == entries[i]);
                let j = choose|j: int| 0 <= j < before.len() && before[j] == init[i];
                assert(kept[j] == entries[i]);
            } else {
                assert(kept[before.len() as int] == entries[i]);
            }
        }
        let keys = keys_of(kept);
        assert forall|i: int, j: int| 0 <= i < j < keys.len() implies keys[i] != keys[j] by {
            if j < before.len() {
                assert(keys_of(before)[i] != keys_of(before)[j]);
            } else {
                assert(before[i] == kept[i]);
                let m = choose|m: int| 0 <= m < init.len() && init[m] == before[i];
                assert(keys_of(entries)[m] == keys[i]);
                assert(keys_of(entries)[entries.len() - 1] == keys[j]);
            }
        }
        if suffix.len() == 0 {
            assert(last.0.subrange(last.0.len() as int, last.0.len() as int) =~= suffix);
            assert(kept =~= entries);
        }
    }
}

/// Of the leading entries of a scan of a table, those whose keys end with `suffix` are
/// entries of the table, each once, and without a failure none is left out.
pub proof fn lemma_ending_of_scan(
    entries: Entries,
    items: Seq<ScanItem>,
    prefix: Seq<u8>,
    suffix: Seq<u8>,
)
    requires
        is_prefix_scan(entries, prefix, items),
    ensures
        ({
            let kept = ending(lead(items, prefix), suffix);
            let wanted = with_suffix(with_prefix(entries, prefix), suffix);
            &&& keys_of(kept).no_duplicates()
            &&& forall|i: int|
                0 <= i < kept.len() ==> wanted.contains_key((#[trigger] kept[i]).0)
                    && wanted[kept[i].0] == kept[i].1
            &&& leading_failure(items, prefix) is None ==> forall|k: Seq<u8>| #[trigger]
                wanted.contains_key(k) ==> keys_of(kept).contains(k)
            &&& suffix.len() == 0 ==> kept == lead(items, prefix)
        }),
{
    let all = lead(items, prefix);
    let kept = ending(all, suffix);
    let wanted = with_suffix(with_prefix(entries, prefix), suffix);
    lemma_lead_of_scan(entries, items, prefix);
    lemma_lead_items(items, prefix);
    lemma_ending(all, suffix);
    assert forall|i: int| 0 <= i < kept.len() implies wanted.contains_key((#[trigger] kept[i]).0)
        && wanted[kept[i].0] == kept[i].1 by {
        let j = choose|j: int| 0 <= j < all.len() && all[j] == kept[i];
        assert(items[j] == ScanItem::Entry(all[j].0, all[j].1));
        assert(keys_of(all)[j] == kept[i].0);
        assert(keys_of(all).to_set().contains(kept[i].0));
    }
    if leading_failure(items, prefix) is None {
        assert forall|k: Seq<u8>| #[trigger] wanted.contains_key(k) implies keys_of(kept).contains(
            k,
        ) by {
            assert(keys_of(all).to_set().contains(k));
            let i = choose|i: int| 0 <= i < keys_of(all).len() && keys_of(all)[i] == k;
            assert(all[i].0 == k);
            let j = choose|j: int| 0 <= j < kept.len() && kept[j] == all[i];
            assert(keys_of(kept)[j] == k);
        }
    }
}

/// Every item is an entry whose key begins with `prefix`.
pub open spec fn confined(items: Seq<ScanItem>, prefix: Seq<u8>) -> bool {
    forall|i: int|
        0 <= i < items.len() ==> match #[trigger] items[i] {
            ScanItem::Entry(k, _) => has_prefix(k, prefix),
            ScanItem::Failure(_) => false,
        }
}

/// All entries of a confined scan are leading ones.
pub proof fn lemma_confined_scan(items: Seq<ScanItem>, prefix: Seq<u8>)
    requires
        confined(items, prefix),
    ensures
        leading_failure(items, prefix) is None,
        forall|i: int|
            0 <= i < items.len() ==> leading_entries(items, prefix).contains_key(
                (#[trigger] items[i])->Entry_0,
            ),
    decreases items.len(),
{
    if items.len() > 0 {
        let rest = items.skip(1);
        assert forall|i: int| 0 <= i < rest.len() implies match #[trigger] rest[i] {
            ScanItem::Entry(k, _) => has_prefix(k, prefix),
            ScanItem::Failure(_) => false,
        } by {
            assert(rest[i] == items[i + 1]);
        }
        lemma_confined_scan(rest, prefix);
        assert(items[0] is Entry && has_prefix(items[0]->Entry_0, prefix));
        assert forall|i: int| 0 <= i < items.len() implies leading_entries(
            items,
            prefix,
        ).contains_key((#[trigger] items[i])->Entry_0) by {
            if i > 0 {
                assert(rest[i - 1] == items[i]);
            }
        }
    }
}

/// A confined scan that yields entries of the table, each once and none left out, is
/// a scan of it.
pub proof fn lemma_confined_is_scan(entries: Entries, items: Seq<ScanItem>, prefix: Seq<u8>)
    requires
        confined(items, prefix),
        forall|i: int|
            0 <= i < items.len() ==> entries.contains_key((#[trigger] items[i])->Entry_0)
                && entries[items[i]->Entry_0] == items[i]->Entry_1,
        forall|i: int, j: int|
            0 <= i < j < items.len() ==> (#[trigger] items[i])->Entry_0 != (
            #[trigger] items[j])->Entry_0,
        forall|k: Seq<u8>| #[trigger]
            entries.contains_key(k) && has_prefix(k, prefix) ==> exists|i: int|
                0 <= i < items.len() && (#[trigger] items[i])->Entry_0 == k,
    ensures
        is_prefix_scan(entries, prefix, items),
{
    lemma_leading_agrees(entries, items, prefix);
    lemma_confined_scan(items, prefix);
    let leading = leading_entries(items, prefix);
    let wanted = with_prefix(entries, prefix);
    assert forall|k: Seq<u8>| #[trigger] leading.dom().contains(k) == wanted.dom().contains(k) && (
    leading.dom().contains(k) ==> leading[k] == wanted[k]) by {
        if leading.contains_key(k) {
            assert(entries.contains_key(k));
        }
        if wanted.contains_key(k) {
            assert(entries.contains_key(k) && has_prefix(k, prefix));
            let i = choose|i: int| 0 <= i < items.len() && (#[trigger] items[i])->Entry_0 == k;
            assert(items[i]->Entry_0 == k);
        }
    }
    assert(leading =~= wanted);
}

} // verus!
