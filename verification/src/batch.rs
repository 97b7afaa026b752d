//! Batches of changes, and what committing them does to the entries of a store.

use crate::api::{apply_change, apply_changes, change_table, changes_fit, Change, Contents, Entries};
use crate::api::{WriteBatch, WriteOp};
use vstd::prelude::*;
use vstd::slice::slice_to_vec;

verus! {

/// The state with one entry put in.
pub open spec fn with_entry(
    contents: Contents,
    table: Seq<char>,
    key: Seq<u8>,
    value: Seq<u8>,
) -> Contents {
    contents.insert(table, contents[table].insert(key, value))
}

/// The state with the entries of `added` put into `table`.
pub open spec fn with_entries(contents: Contents, table: Seq<char>, added: Entries) -> Contents {
    if added == Map::<Seq<u8>, Seq<u8>>::empty() {
        contents
    } else {
        contents.insert(table, contents[table].union_prefer_right(added))
    }
}

/// The entries that a list of pairs stands for; a later pair replaces an earlier one.
pub open spec fn collected(pairs: Seq<(Vec<u8>, Vec<u8>)>) -> Entries
    decreases pairs.len(),
{
    if pairs.len() == 0 {
        Map::empty()
    } else {
        collected(pairs.drop_last()).insert(pairs.last().0@, pairs.last().1@)
    }
}

/// The entries that a list of pairs holds, in their order.
pub open spec fn entries_in(pairs: Seq<(Vec<u8>, Vec<u8>)>) -> Seq<(Seq<u8>, Seq<u8>)> {
    pairs.map_values(|pair: (Vec<u8>, Vec<u8>)| (pair.0@, pair.1@))
}

/// The changes that put the pairs into `table`.
pub open spec fn puts(table: Seq<char>, pairs: Seq<(Vec<u8>, Vec<u8>)>) -> Seq<Change> {
    pairs.map_values(|pair: (Vec<u8>, Vec<u8>)| Change::Put(table, pair.0@, pair.1@))
}

/// The changes that delete the keys from `table`.
pub open spec fn deletes(table: Seq<char>, keys: Seq<Seq<u8>>) -> Seq<Change> {
    keys.map_values(|key: Seq<u8>| Change::Delete(table, key))
}

impl WriteBatch {
    /// A batch without changes.
    pub fn new() -> (r: Self)
        ensures
            r@ == Seq::<Change>::empty(),
    {
        let r = WriteBatch { ops: Vec::new() };
        assert(r@ =~= Seq::<Change>::empty());
        r
    }

    /// Adds the change that puts `value` under `key` of `table`.
    pub fn put(&mut self, table: &'static str, key: &[u8], value: &[u8])
        ensures
            final(self)@ == old(self)@.push(Change::Put(table@, key@, value@)),
    {
        self.ops.push(WriteOp::Put { table, key: slice_to_vec(key), value: slice_to_vec(value) });
        assert(self@ =~= old(self)@.push(Change::Put(table@, key@, value@)));
    }

    /// Adds the changes that put every pair of `batch` into `table`.
    pub fn put_batch(&mut self, table: &'static str, batch: Vec<(Vec<u8>, Vec<u8>)>)
        ensures
            final(self)@ == old(self)@ + puts(table@, batch@),
    {
        let mut i: usize = 0;
        assert(self@ =~= old(self)@ + puts(table@, batch@.subrange(0, 0)));
        while i < batch.len()
            invariant
                i <= batch@.len(),
                self@ == old(self)@ + puts(table@, batch@.subrange(0, i as int)),
            decreases batch@.len() - i,
        {
            let ghost pairs = batch@.subrange(0, i as int);
            self.put(table, batch[i].0.as_slice(), batch[i].1.as_slice());
            i += 1;
            assert(batch@.subrange(0, i as int) =~= pairs.push(batch@[i - 1]));
            assert(self@ =~= old(self)@ + puts(table@, batch@.subrange(0, i as int)));
        }
        assert(batch@.subrange(0, i as int) =~= batch@);
    }

    /// Adds the change that deletes `key` from `table`.
    pub fn delete(&mut self, table: &'static str, key: &[u8])
        ensures
            final(self)@ == old(self)@.push(Change::Delete(table@, key@)),
    {
        self.ops.push(WriteOp::Delete { table, key: slice_to_vec(key) });
        assert(self@ =~= old(self)@.push(Change::Delete(table@, key@)));
    }
}

/// Changes keep the set of tables.
pub proof fn lemma_apply_keeps_tables(contents: Contents, changes: Seq<Change>)
    requires
        changes_fit(contents, changes),
    ensures
        apply_changes(contents, changes).dom() == contents.dom(),
    decreases changes.len(),
{
    if changes.len() > 0 {
        let head = changes.drop_last();
        assert(changes_fit(contents, head)) by {
            assert forall|i: int| 0 <= i < head.len() implies contents.contains_key(
                change_table(#[trigger] head[i]),
            ) by {
                assert(head[i] == changes[i]);
            }
        }
        lemma_apply_keeps_tables(contents, head);
        let last = changes[changes.len() - 1];
        assert(contents.contains_key(change_table(last)));
        assert(apply_changes(contents, changes).dom() =~= contents.dom());
    }
}

/// Committing one list of changes after another is committing both at once.
pub proof fn lemma_apply_append(contents: Contents, first: Seq<Change>, second: Seq<Change>)
    ensures
        apply_changes(contents, first + second) == apply_changes(
            apply_changes(contents, first),
            second,
        ),
    decreases second.len(),
{
    if second.len() == 0 {
        assert(first + second =~= first);
    } else {
        lemma_apply_append(contents, first, second.drop_last());
        assert((first + second).drop_last() =~= first + second.drop_last());
    }
}

/// A batch of one change.
pub proof fn lemma_one_change(contents: Contents, change: Change)
    ensures
        apply_changes(contents, seq![change]) == apply_change(contents, change),
        changes_fit(contents, seq![change]) <==> contents.contains_key(change_table(change)),
{
    let changes = seq![change];
    assert(changes.drop_last() =~= Seq::<Change>::empty());
    assert(apply_changes(contents, changes.drop_last()) == contents);
    assert(changes[0] == change);
}

/// Pairs that hold entries of a table, and all of them, stand for the table.
pub proof fn lemma_collected(pairs: Seq<(Vec<u8>, Vec<u8>)>, entries: Entries)
    requires
        forall|i: int|
            0 <= i < pairs.len() ==> entries.contains_key((#[trigger] pairs[i]).0@)
                && entries[pairs[i].0@] == pairs[i].1@,
        forall|k: Seq<u8>| #[trigger]
            entries.contains_key(k) ==> exists|i: int|
                0 <= i < pairs.len() && (#[trigger] pairs[i]).0@ == k,
    ensures
        collected(pairs) == entries,
{
    lemma_collected_part(pairs, entries);
    assert forall|k: Seq<u8>| #[trigger] entries.contains_key(k) implies collected(
        pairs,
    ).contains_key(k) by {
        let i = choose|i: int| 0 <= i < pairs.len() && (#[trigger] pairs[i]).0@ == k;
        assert(pairs[i].0@ == k);
    }
    assert(collected(pairs) =~= entries);
}

proof fn lemma_collected_part(pairs: Seq<(Vec<u8>, Vec<u8>)>, entries: Entries)
    requires
        forall|i: int|
            0 <= i < pairs.len() ==> entries.contains_key((#[trigger] pairs[i]).0@)
                && entries[pairs[i].0@] == pairs[i].1@,
    ensures
        forall|i: int|
            0 <= i < pairs.len() ==> collected(pairs).contains_key((#[trigger] pairs[i]).0@),
        forall|k: Seq<u8>| #[trigger]
            collected(pairs).contains_key(k) ==> entries.contains_key(k) && collected(pairs)[k]
                == entries[k],
    decreases pairs.len(),
{
    if pairs.len() > 0 {
        let init = pairs.drop_last();
        assert forall|i: int| 0 <= i < init.len() implies entries.contains_key(
            (#[trigger] init[i]).0@,
        ) && entries[init[i].0@] == init[i].1@ by {
            assert(init[i] == pairs[i]);
        }
        lemma_collected_part(init, entries);
        assert(pairs[pairs.len() - 1] == pairs.last());
        assert forall|i: int| 0 <= i < pairs.len() implies collected(pairs).contains_key(
            (#[trigger] pairs[i]).0@,
        ) by {
            if i < init.len() {
                assert(init[i] == pairs[i]);
            }
        }
        assert forall|k: Seq<u8>| #[trigger] collected(pairs).contains_key(k)
            implies entries.contains_key(k) && collected(pairs)[k] == entries[k] by {
            if k != pairs.last().0@ {
                assert(collected(init).contains_key(k));
            }
        }
    }
}

/// Putting pairs into a table adds the entries that they stand for.
pub proof fn lemma_apply_puts(
    contents: Contents,
    table: Seq<char>,
    pairs: Seq<(Vec<u8>, Vec<u8>)>,
)
    requires
        contents.contains_key(table),
    ensures
        apply_changes(contents, puts(table, pairs)) == contents.insert(
            table,
            contents[table].union_prefer_right(collected(pairs)),
        ),
    decreases pairs.len(),
{
    if pairs.len() == 0 {
        assert(contents[table].union_prefer_right(collected(pairs)) =~= contents[table]);
        assert(contents.insert(table, contents[table]) =~= contents);
    } else {
        lemma_apply_puts(contents, table, pairs.drop_last());
        assert(puts(table, pairs).drop_last() =~= puts(table, pairs.drop_last()));
        let before = contents[table].union_prefer_right(collected(pairs.drop_last()));
        assert(before.insert(pairs.last().0@, pairs.last().1@)
            =~= contents[table].union_prefer_right(collected(pairs)));
        assert(apply_changes(contents, puts(table, pairs)) =~= contents.insert(
            table,
            contents[table].union_prefer_right(collected(pairs)),
        ));
    }
}

/// Deleting keys from a table leaves its other entries.
pub proof fn lemma_apply_deletes(contents: Contents, table: Seq<char>, keys: Seq<Seq<u8>>)
    requires
        contents.contains_key(table),
    ensures
        apply_changes(contents, deletes(table, keys)) == contents.insert(
            table,
            contents[table].remove_keys(keys.to_set()),
        ),
    decreases keys.len(),
{
    if keys.len() == 0 {
        assert(contents[table].remove_keys(keys.to_set()) =~= contents[table]);
        assert(contents.insert(table, contents[table]) =~= contents);
    } else {
        lemma_apply_deletes(contents, table, keys.drop_last());
        assert(deletes(table, keys).drop_last() =~= deletes(table, keys.drop_last()));
        assert forall|k: Seq<u8>| keys.to_set().contains(k) <==> (
        keys.drop_last().to_set().contains(k) || k == keys.last()) by {
            if keys.contains(k) {
                let i = choose|i: int| 0 <= i < keys.len() && keys[i] == k;
                if i < keys.len() - 1 {
                    assert(keys.drop_last()[i] == k);
                }
            }
            if keys.drop_last().contains(k) {
                let i = choose|i: int|
                    0 <= i < keys.drop_last().len() && keys.drop_last()[i] == k;
                assert(keys[i] == k);
            }
            assert(keys[keys.len() - 1] == keys.last());
        }
        assert(contents[table].remove_keys(keys.drop_last().to_set()).remove(keys.last())
            =~= contents[table].remove_keys(keys.to_set()));
        assert(apply_changes(contents, deletes(table, keys)) =~= contents.insert(
            table,
            contents[table].remove_keys(keys.to_set()),
        ));
    }
}

} // verus!
