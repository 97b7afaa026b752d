//! The merge of a hot and a cold scan of one table.

use crate::api::{Entries, PrefixIterator, PrefixResult, ScanItem};
use crate::api::{is_prefix_scan, leading_entries, leading_failure, with_prefix};
use crate::bytes::has_prefix;
use crate::ordered::ByteMap;
use crate::scan::{confined, lemma_confined_scan};
use vstd::prelude::*;
use vstd::slice::slice_to_vec;

verus! {

/// The keys that a scan yields.
pub open spec fn scanned_keys(items: Seq<ScanItem>) -> Set<Seq<u8>> {
    Set::new(
        |key: Seq<u8>|
            exists|i: int|
                0 <= i < items.len() && (#[trigger] items[i]) is Entry && items[i]->Entry_0 == key,
    )
}

/// The items of a scan without the entries whose key is in `seen` or has come before.
pub open spec fn unseen(items: Seq<ScanItem>, seen: Set<Seq<u8>>) -> Seq<ScanItem>
    decreases items.len(),
{
    if items.len() == 0 {
        items
    } else {
        match items[0] {
            ScanItem::Entry(key, _) => if seen.contains(key) {
                unseen(items.skip(1), seen)
            } else {
                seq![items[0]] + unseen(items.skip(1), seen.insert(key))
            },
            ScanItem::Failure(_) => seq![items[0]] + unseen(items.skip(1), seen),
        }
    }
}

/// The hot scan, and then what it has not yielded of the cold one.
pub open spec fn chained(hot: Seq<ScanItem>, cold: Seq<ScanItem>) -> Seq<ScanItem> {
    hot + unseen(cold, scanned_keys(hot))
}

/// Yields all entries of the hot scan first, then the entries of the cold scan whose
/// keys were not seen before.
pub struct ChainedIterator<H: PrefixIterator, C: PrefixIterator> {
    hot: H,
    cold: Option<C>,
    seen_keys: ByteMap<()>,
}

impl<H: PrefixIterator, C: PrefixIterator> ChainedIterator<H, C> {
    /// The hot scan, as far as it has come.
    pub closed spec fn hot_scan(&self) -> H {
        self.hot
    }

    /// The cold scan, if there is one, as far as it has come.
    pub closed spec fn cold_scan(&self) -> Option<C> {
        self.cold
    }

    /// Chains a cold scan, if there is one, to a hot one.
    pub fn new(hot: H, cold: Option<C>) -> (r: Self)
        ensures
            r.hot_scan() == hot,
            r.cold_scan() == cold,
            r.remaining() == match cold {
                Some(cold) => chained(hot.remaining(), cold.remaining()),
                None => hot.remaining(),
            },
    {
        let r = ChainedIterator { hot, cold, seen_keys: ByteMap::new() };
        proof {
            assert(r.seen_keys@.dom().union(scanned_keys(hot.remaining())) =~= scanned_keys(
                hot.remaining(),
            ));
        }
        r
    }
}

/// Taking an entry off the hot scan and noting its key.
proof fn lemma_hot_step(items: Seq<ScanItem>, seen: Set<Seq<u8>>)
    requires
        items.len() > 0,
    ensures
        seen.union(scanned_keys(items)) == (match items[0] {
            ScanItem::Entry(key, _) => seen.insert(key),
            ScanItem::Failure(_) => seen,
        }).union(scanned_keys(items.skip(1))),
{
    let rest = items.skip(1);
    let left = seen.union(scanned_keys(items));
    let noted = match items[0] {
        ScanItem::Entry(key, _) => seen.insert(key),
        ScanItem::Failure(_) => seen,
    };
    let right = noted.union(scanned_keys(rest));
    assert forall|key: Seq<u8>| #[trigger] left.contains(key) == right.contains(key) by {
        if scanned_keys(items).contains(key) {
            let i = choose|i: int|
                0 <= i < items.len() && (#[trigger] items[i]) is Entry && items[i]->Entry_0 == key;
            if i > 0 {
                assert(rest[i - 1] == items[i]);
            }
        }
        if scanned_keys(rest).contains(key) {
            let i = choose|i: int|
                0 <= i < rest.len() && (#[trigger] rest[i]) is Entry && rest[i]->Entry_0 == key;
            assert(items[i + 1] == rest[i]);
        }
        if items[0] is Entry && items[0]->Entry_0 == key {
            assert(scanned_keys(items).contains(key));
        }
    }
    assert(left =~= right);
}

impl<H: PrefixIterator, C: PrefixIterator> PrefixIterator for ChainedIterator<H, C> {
    closed spec fn remaining(&self) -> Seq<ScanItem> {
        match self.cold {
            Some(cold) => self.hot.remaining() + unseen(
                cold.remaining(),
                self.seen_keys@.dom().union(scanned_keys(self.hot.remaining())),
            ),
            None => self.hot.remaining(),
        }
    }

    /// Hands out the next item. The hot scan is asked once, and while it has items, the
    /// cold one is left alone.
    fn next(&mut self) -> (r: Option<PrefixResult>)
        ensures
            exists|hot: &mut H, item: Option<PrefixResult>|
                {
                    &&& *hot == old(self).hot_scan() && *final(hot) == final(self).hot_scan()
                    &&& #[trigger] call_ensures(H::next, (hot,), item)
                    &&& item is Some ==> r == item && final(self).cold_scan() == old(
                        self,
                    ).cold_scan()
                    &&& item is None && old(self).cold_scan() is None ==> r is None
                },
            old(self).cold_scan() is None <==> final(self).cold_scan() is None,
    {
        let ghost hot0 = self.hot.remaining();
        let ghost seen0 = self.seen_keys@.dom();
        let item = self.hot.next();
        if let Some(item) = item {
            if let Ok((key, _)) = &item {
                self.seen_keys.insert(slice_to_vec(key.as_slice()), ());
            }
            proof {
                lemma_hot_step(hot0, seen0);
                assert(self.remaining() =~= old(self).remaining().skip(1));
            }
            return Some(item);
        }
        let mut cold = match self.cold.take() {
            Some(cold) => cold,
            None => {
                return None;
            },
        };
        proof {
            assert(seen0.union(scanned_keys(hot0)) =~= seen0);
            assert(old(self).remaining() =~= unseen(cold.remaining(), seen0));
        }
        loop
            invariant
                self.cold is None,
                exists|hot: &mut H|
                    {
                        &&& *hot == old(self).hot && *final(hot) == self.hot
                        &&& #[trigger] call_ensures(H::next, (hot,), None::<PrefixResult>)
                    },
                self.hot.remaining() == hot0,
                hot0.len() == 0,
                self.seen_keys@.dom() == seen0,
                old(self).remaining() == unseen(cold.remaining(), seen0),
                old(self).cold is Some,
            decreases cold.remaining().len(),
        {
            let ghost rest = cold.remaining();
            let item = cold.next();
            match item {
                Some(Ok((key, value))) => {
                    if self.seen_keys.contains_key(key.as_slice()) {
                        continue ;
                    }
                    let ghost noted = seen0.insert(key@);
                    self.seen_keys.insert(slice_to_vec(key.as_slice()), ());
                    self.cold = Some(cold);
                    proof {
                        assert(self.seen_keys@.dom() =~= noted);
                        assert(self.seen_keys@.dom().union(scanned_keys(hot0)) =~= noted);
                        assert(self.remaining() =~= unseen(rest.skip(1), noted));
                        assert(self.remaining() =~= old(self).remaining().skip(1));
                    }
                    return Some(Ok((key, value)));
                },
                Some(Err(e)) => {
                    self.cold = Some(cold);
                    proof {
                        assert(seen0.union(scanned_keys(hot0)) =~= seen0);
                        assert(self.remaining() =~= unseen(rest.skip(1), seen0));
                        assert(self.remaining() =~= old(self).remaining().skip(1));
                    }
                    return Some(Err(e));
                },
                None => {
                    self.cold = Some(cold);
                    proof {
                        assert(seen0.union(scanned_keys(hot0)) =~= seen0);
                        assert(self.remaining() =~= old(self).remaining());
                    }
                    return None;
                },
            }
        }
    }
}

/// The entries of one table seen through both tiers: the hot ones and, under other
/// keys, the cold ones.
pub open spec fn merged(hot: Entries, cold: Entries) -> Entries {
    cold.union_prefer_right(hot)
}

/// No two entries of a scan have the same key.
pub open spec fn keys_differ(items: Seq<ScanItem>) -> bool {
    forall|i: int, j: int|
        0 <= i < j < items.len() && #[trigger] items[i] is Entry && #[trigger] items[j] is Entry
            ==> items[i]->Entry_0 != items[j]->Entry_0
}

proof fn lemma_unseen_items(items: Seq<ScanItem>, seen: Set<Seq<u8>>)
    ensures
        keys_differ(unseen(items, seen)),
        forall|i: int|
            0 <= i < unseen(items, seen).len() ==> {
                let item = #[trigger] unseen(items, seen)[i];
                &&& items.contains(item)
                &&& item is Entry ==> !seen.contains(item->Entry_0)
            },
    decreases items.len(),
{
    if items.len() > 0 {
        let rest = items.skip(1);
        let kept = unseen(items, seen);
        let noted = match items[0] {
            ScanItem::Entry(key, _) => seen.insert(key),
            ScanItem::Failure(_) => seen,
        };
        let dropped = items[0] is Entry && seen.contains(items[0]->Entry_0);
        assert(dropped ==> noted =~= seen);
        lemma_unseen_items(rest, noted);
        let tail = unseen(rest, noted);
        let shift: int = if dropped { 0 } else { 1 };
        assert(kept == if dropped { tail } else { seq![items[0]] + tail });
        assert forall|i: int| shift <= i < kept.len() implies #[trigger] kept[i] == tail[i - shift] by {}
        assert forall|i: int| 0 <= i < kept.len() implies {
            let item = #[trigger] kept[i];
            &&& items.contains(item)
            &&& item is Entry ==> !seen.contains(item->Entry_0)
        } by {
            if i >= shift {
                assert(rest.contains(tail[i - shift]));
                let j = choose|j: int| 0 <= j < rest.len() && rest[j] == tail[i - shift];
                assert(items[j + 1] == kept[i]);
            } else {
                assert(items[0] == kept[i]);
            }
        }
        assert forall|i: int, j: int|
            0 <= i < j < kept.len() && #[trigger] kept[i] is Entry && #[trigger] kept[j] is Entry
            implies kept[i]->Entry_0 != kept[j]->Entry_0 by {
            assert(kept[j] == tail[j - shift]);
            if i >= shift {
                assert(kept[i] == tail[i - shift]);
            }
        }
    }
}

/// A merged scan yields no key twice, if the hot scan does not.
pub proof fn law_chained_keys_differ(hot: Seq<ScanItem>, cold: Seq<ScanItem>)
    requires
        keys_differ(hot),
    ensures
        keys_differ(chained(hot, cold)),
{
    let seen = scanned_keys(hot);
    let tail = unseen(cold, seen);
    let items = chained(hot, cold);
    lemma_unseen_items(cold, seen);
    assert forall|i: int, j: int|
        0 <= i < j < items.len() && #[trigger] items[i] is Entry && #[trigger] items[j] is Entry
        implies items[i]->Entry_0 != items[j]->Entry_0 by {
        if j >= hot.len() {
            assert(items[j] == tail[j - hot.len()]);
            if i >= hot.len() {
                assert(items[i] == tail[i - hot.len()]);
            } else {
                assert(items[i] == hot[i]);
                assert(seen.contains(hot[i]->Entry_0));
            }
        } else {
            assert(items[i] == hot[i] && items[j] == hot[j]);
        }
    }
}

/// What is left of a scan after seen keys under the prefix have been dropped.
proof fn lemma_unseen_lead(items: Seq<ScanItem>, seen: Set<Seq<u8>>, prefix: Seq<u8>)
    requires
        keys_differ(items),
        forall|i: int|
            0 <= i < items.len() && (#[trigger] items[i]) is Entry && seen.contains(
                items[i]->Entry_0,
            ) ==> has_prefix(items[i]->Entry_0, prefix),
    ensures
        leading_failure(unseen(items, seen), prefix) == leading_failure(items, prefix),
        leading_entries(unseen(items, seen), prefix) == leading_entries(
            items,
            prefix,
        ).remove_keys(seen),
    decreases items.len(),
{
    let kept = unseen(items, seen);
    if items.len() == 0 {
        assert(leading_entries(kept, prefix) =~= leading_entries(items, prefix).remove_keys(seen));
    } else {
        let rest = items.skip(1);
        assert forall|i: int, j: int|
            0 <= i < j < rest.len() && #[trigger] rest[i] is Entry && #[trigger] rest[j] is Entry
            implies rest[i]->Entry_0 != rest[j]->Entry_0 by {
            assert(rest[i] == items[i + 1] && rest[j] == items[j + 1]);
        }
        match items[0] {
            ScanItem::Entry(key, value) => {
                let dropped = seen.contains(key);
                let noted = seen.insert(key);
                assert(dropped ==> noted =~= seen);
                assert forall|i: int|
                    0 <= i < rest.len() && (#[trigger] rest[i]) is Entry && noted.contains(
                        rest[i]->Entry_0,
                    ) implies has_prefix(rest[i]->Entry_0, prefix) by {
                    assert(rest[i] == items[i + 1]);
                    assert(items[0] is Entry);
                }
                lemma_unseen_lead(rest, noted, prefix);
                let tail = unseen(rest, noted);
                assert(items[0]->Entry_0 == key);
                if !dropped {
                    assert(kept[0] == items[0]);
                    assert(kept.skip(1) =~= tail);
                }
                if has_prefix(key, prefix) {
                    assert(leading_entries(kept, prefix) =~= leading_entries(
                        items,
                        prefix,
                    ).remove_keys(seen));
                } else {
                    assert(leading_entries(kept, prefix) =~= leading_entries(
                        items,
                        prefix,
                    ).remove_keys(seen));
                }
            },
            ScanItem::Failure(_) => {
                assert(kept[0] == items[0]);
                assert(leading_entries(kept, prefix) =~= leading_entries(
                    items,
                    prefix,
                ).remove_keys(seen));
            },
        }
    }
}

/// The lead of a confined scan with another one behind it.
proof fn lemma_lead_of_sum(first: Seq<ScanItem>, second: Seq<ScanItem>, prefix: Seq<u8>)
    requires
        confined(first, prefix),
    ensures
        leading_failure(first + second, prefix) == leading_failure(second, prefix),
        leading_entries(first + second, prefix) == leading_entries(
            second,
            prefix,
        ).union_prefer_right(leading_entries(first, prefix)),
    decreases first.len(),
{
    let sum = first + second;
    if first.len() == 0 {
        assert(sum =~= second);
        assert(leading_entries(second, prefix).union_prefer_right(leading_entries(first, prefix))
            =~= leading_entries(second, prefix));
    } else {
        let rest = first.skip(1);
        assert(sum.skip(1) =~= rest + second);
        assert(sum[0] == first[0]);
        assert forall|i: int| 0 <= i < rest.len() implies match #[trigger] rest[i] {
            ScanItem::Entry(k, _) => has_prefix(k, prefix),
            ScanItem::Failure(_) => false,
        } by {
            assert(rest[i] == first[i + 1]);
        }
        lemma_lead_of_sum(rest, second, prefix);
        assert(leading_entries(sum, prefix) =~= leading_entries(
            second,
            prefix,
        ).union_prefer_right(leading_entries(first, prefix)));
    }
}

/// The merged scan of a table, with hot entries in place of cold ones under the same
/// key, is a scan of the table seen through both tiers.
///
/// The hot scan must not run past the prefix: behind an entry without the prefix the
/// cold entries come too late. The cold scan may, as far as its leading entries go.
pub proof fn law_chained_is_scan_of_both(
    hot: Entries,
    cold: Entries,
    prefix: Seq<u8>,
    hot_items: Seq<ScanItem>,
    cold_items: Seq<ScanItem>,
)
    requires
        is_prefix_scan(hot, prefix, hot_items),
        confined(hot_items, prefix),
        is_prefix_scan(cold, prefix, cold_items),
    ensures
        leading_failure(chained(hot_items, cold_items), prefix) == leading_failure(
            cold_items,
            prefix,
        ),
        leading_failure(cold_items, prefix) is None ==> leading_entries(
            chained(hot_items, cold_items),
            prefix,
        ) == with_prefix(merged(hot, cold), prefix),
        confined(cold_items, prefix) ==> confined(chained(hot_items, cold_items), prefix)
            && is_prefix_scan(merged(hot, cold), prefix, chained(hot_items, cold_items)),
{
    let seen = scanned_keys(hot_items);
    let tail = unseen(cold_items, seen);
    let items = chained(hot_items, cold_items);
    let both = merged(hot, cold);
    lemma_confined_scan(hot_items, prefix);
    assert forall|key: Seq<u8>| #[trigger] seen.contains(key) == with_prefix(
        hot,
        prefix,
    ).contains_key(key) by {
        if seen.contains(key) {
            let i = choose|i: int|
                0 <= i < hot_items.len() && (#[trigger] hot_items[i]) is Entry
                    && hot_items[i]->Entry_0 == key;
            assert(hot_items[i]->Entry_0 == key);
            assert(leading_entries(hot_items, prefix).contains_key(key));
        }
        if with_prefix(hot, prefix).contains_key(key) {
            lemma_lead_is_scanned(hot_items, prefix, key);
        }
    }
    assert forall|i: int|
        0 <= i < cold_items.len() && (#[trigger] cold_items[i]) is Entry && seen.contains(
            cold_items[i]->Entry_0,
        ) implies has_prefix(cold_items[i]->Entry_0, prefix) by {
        assert(with_prefix(hot, prefix).contains_key(cold_items[i]->Entry_0));
    }
    lemma_unseen_lead(cold_items, seen, prefix);
    lemma_lead_of_sum(hot_items, tail, prefix);
    if leading_failure(cold_items, prefix) is None {
        let lead = leading_entries(items, prefix);
        let wanted = with_prefix(both, prefix);
        assert forall|k: Seq<u8>| #[trigger] lead.dom().contains(k) == wanted.dom().contains(k) && (
        lead.dom().contains(k) ==> lead[k] == wanted[k]) by {
            assert(seen.contains(k) == with_prefix(hot, prefix).contains_key(k));
        }
        assert(lead =~= wanted);
    }
    if confined(cold_items, prefix) {
        lemma_confined_scan(cold_items, prefix);
        lemma_unseen_items(cold_items, seen);
        law_chained_keys_differ(hot_items, cold_items);
        assert forall|i: int| 0 <= i < items.len() implies match #[trigger] items[i] {
            ScanItem::Entry(k, v) => has_prefix(k, prefix) && both.contains_key(k) && both[k] == v,
            ScanItem::Failure(_) => false,
        } by {
            if i < hot_items.len() {
                assert(items[i] == hot_items[i]);
            } else {
                let item = tail[i - hot_items.len()];
                assert(items[i] == item);
                assert(cold_items.contains(item));
                let j = choose|j: int| 0 <= j < cold_items.len() && cold_items[j] == item;
                assert(cold_items[j] == item);
                let k = item->Entry_0;
                assert(!seen.contains(k));
                assert(!with_prefix(hot, prefix).contains_key(k));
            }
        }
    }
}

/// A leading entry is one that the scan yields.
proof fn lemma_lead_is_scanned(items: Seq<ScanItem>, prefix: Seq<u8>, key: Seq<u8>)
    requires
        leading_entries(items, prefix).contains_key(key),
    ensures
        scanned_keys(items).contains(key),
    decreases items.len(),
{
    if items.len() > 0 && items[0] is Entry {
        if items[0]->Entry_0 == key {
            assert(scanned_keys(items).contains(key));
        } else {
            let rest = items.skip(1);
            lemma_lead_is_scanned(rest, prefix, key);
            let i = choose|i: int|
                0 <= i < rest.len() && (#[trigger] rest[i]) is Entry && rest[i]->Entry_0 == key;
            assert(items[i + 1] == rest[i]);
        }
    }
}

} // verus!
