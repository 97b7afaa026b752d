//! Copying entries from a hot store to a cold one, and collecting their deletion.

use crate::api::{bytes_of, leading_failure, lookup, with_prefix, with_suffix};
use crate::api::{Change, Contents, Entries};
use crate::api::{PrefixIterator, StorageBackend, StorageReadView, StoreError, WriteBatch};
use crate::batch::{collected, deletes, entries_in, puts, with_entries, with_entry};
use crate::batch::{lemma_apply_puts, lemma_collected, lemma_one_change};
use crate::bytes::{ends_with, has_prefix, has_suffix, starts_with};
use crate::migration::MigrationWorker;
use crate::scan::{copies, ending, keys_of, lead, lead_keys, removals};
use crate::scan::{lemma_ending_of_scan, lemma_ending_push, lemma_lead_of_scan};
use vstd::prelude::*;

verus! {

/// A write into `table` that was to turn `before` into `target` left `after`: the
/// target when it succeeded, and one of the two when it failed.
pub open spec fn attempted(
    done: bool,
    before: Contents,
    after: Contents,
    table: Seq<char>,
    target: Contents,
) -> bool {
    ||| before.contains_key(table) && after == target
    ||| !done && after == before
}

impl<F: Fn(u64) -> bool> MigrationWorker<F> {
    /// Copies one entry from the hot store to the cold one, if the hot store has it. Where
    /// the hot read fails or finds nothing, the cold store is left alone.
    pub fn copy_entry<R: StorageReadView, C: StorageBackend>(
        &self,
        cold: &mut C,
        hot_read: &R,
        table: &'static str,
        key: &[u8],
    ) -> (r: Result<(), StoreError>)
        ensures
            exists|found: Result<Option<Vec<u8>>, StoreError>|
                {
                    &&& #[trigger] call_ensures(R::get, (hot_read, table, key), found)
                    &&& match found {
                        Err(e) => r == Err::<(), StoreError>(e) && *final(cold) == *old(cold),
                        Ok(None) => r is Ok && *final(cold) == *old(cold),
                        Ok(value) => exists|store: &mut C|
                            {
                                &&& *store == *old(cold) && *final(store) == *final(cold)
                                &&& #[trigger] call_ensures(
                                    Self::copy_entry_raw::<C>,
                                    (self, store, table, key, &value),
                                    r,
                                )
                            },
                    }
                },
            r matches Err(e) ==> hot_read.reports(e) || old(cold).reports(e),
            r is Ok ==> hot_read.contents().contains_key(table@),
            match lookup(hot_read.contents(), table@, key@) {
                Some(value) => attempted(
                    r is Ok,
                    old(cold).contents(),
                    final(cold).contents(),
                    table@,
                    with_entry(old(cold).contents(), table@, key@, value),
                ),
                None => final(cold).contents() == old(cold).contents(),
            },
            forall|e: StoreError|
                #![trigger final(cold).reports(e)]
                final(cold).reports(e) ==> old(cold).reports(e),
            old(cold).infallible() ==> final(cold).infallible(),
            hot_read.infallible() && hot_read.contents().contains_key(table@) && (lookup(
                hot_read.contents(),
                table@,
                key@,
            ) is Some ==> old(cold).infallible() && old(cold).contents().contains_key(table@))
                ==> r is Ok,
    {
        let value = hot_read.get(table, key)?;
        self.copy_entry_raw(cold, table, key, &value)
    }

    /// Puts a value that has been read into the cold store, if there is one.
    pub fn copy_entry_raw<C: StorageBackend>(
        &self,
        cold: &mut C,
        table: &'static str,
        key: &[u8],
        value: &Option<Vec<u8>>,
    ) -> (r: Result<(), StoreError>)
        ensures
            match *value {
                Some(value) => exists|begun: Result<WriteBatch, StoreError>|
                    {
                        &&& #[trigger] call_ensures(C::begin_write, (&*old(cold),), begun)
                        &&& match begun {
                            Err(e) => r == Err::<(), StoreError>(e) && *final(cold) == *old(cold),
                            Ok(_) => exists|store: &mut C, batch: WriteBatch|
                                {
                                    &&& *store == *old(cold) && *final(store) == *final(cold)
                                    &&& batch@ == seq![Change::Put(table@, key@, value@)]
                                    &&& #[trigger] call_ensures(C::commit, (store, batch), r)
                                },
                        }
                    },
                None => r is Ok && *final(cold) == *old(cold),
            },
            r matches Err(e) ==> old(cold).reports(e),
            match bytes_of(*value) {
                Some(value) => {
                    &&& attempted(
                        r is Ok,
                        old(cold).contents(),
                        final(cold).contents(),
                        table@,
                        with_entry(old(cold).contents(), table@, key@, value),
                    )
                    &&& old(cold).infallible() && old(cold).contents().contains_key(table@)
                        ==> r is Ok
                },
                None => r is Ok && final(cold).contents() == old(cold).contents(),
            },
            forall|e: StoreError|
                #![trigger final(cold).reports(e)]
                final(cold).reports(e) ==> old(cold).reports(e),
            old(cold).infallible() ==> final(cold).infallible(),
    {
        match value {
            Some(v) => {
                let mut cold_write = cold.begin_write()?;
                cold_write.put(table, key, v.as_slice());
                proof {
                    lemma_one_change(cold.contents(), Change::Put(table@, key@, v@));
                    assert(cold_write@ =~= seq![Change::Put(table@, key@, v@)]);
                }
                cold.commit(cold_write)
            },
            None => Ok(()),
        }
    }

    /// Copies every entry of `table` whose key begins with `prefix` from the hot store
    /// to the cold one, in one batch. A scan that fails before it has come past them
    /// leaves the cold store as it was.
    pub fn copy_prefixed_entries<R: StorageReadView, C: StorageBackend>(
        &self,
        cold: &mut C,
        hot_read: &R,
        table: &'static str,
        prefix: &[u8],
    ) -> (r: Result<(), StoreError>)
        ensures
            exists|scan: Result<R::Iter, StoreError>|
                {
                    &&& #[trigger] call_ensures(
                        R::prefix_iterator,
                        (hot_read, table, prefix),
                        scan,
                    )
                    &&& match scan {
                        Err(e) => r == Err::<(), StoreError>(e) && *final(cold) == *old(cold),
                        Ok(iter) => match leading_failure(iter.remaining(), prefix@) {
                            Some(e) => r == Err::<(), StoreError>(e) && *final(cold) == *old(cold),
                            None => if lead(iter.remaining(), prefix@).len() == 0 {
                                r is Ok && *final(cold) == *old(cold)
                            } else {
                                exists|begun: Result<WriteBatch, StoreError>|
                                    {
                                        &&& #[trigger] call_ensures(
                                            C::begin_write,
                                            (&*old(cold),),
                                            begun,
                                        )
                                        &&& match begun {
                                            Err(e) => r == Err::<(), StoreError>(e) && *final(cold)
                                                == *old(cold),
                                            Ok(_) => exists|store: &mut C, batch: WriteBatch|
                                                {
                                                    &&& *store == *old(cold)
                                                    &&& *final(store) == *final(cold)
                                                    &&& batch@ == copies(
                                                        table@,
                                                        lead(iter.remaining(), prefix@),
                                                    )
                                                    &&& #[trigger] call_ensures(
                                                        C::commit,
                                                        (store, batch),
                                                        r,
                                                    )
                                                },
                                        }
                                    }
                            },
                        },
                    }
                },
            r matches Err(e) ==> hot_read.reports(e) || old(cold).reports(e),
            !hot_read.contents().contains_key(table@) ==> r is Err && final(cold).contents() == old(
                cold,
            ).contents(),
            ({
                let copied = with_prefix(hot_read.contents()[table@], prefix@);
                if copied == Map::<Seq<u8>, Seq<u8>>::empty() {
                    final(cold).contents() == old(cold).contents()
                } else {
                    attempted(
                        r is Ok,
                        old(cold).contents(),
                        final(cold).contents(),
                        table@,
                        with_entries(old(cold).contents(), table@, copied),
                    )
                }
            }),
            forall|e: StoreError|
                #![trigger final(cold).reports(e)]
                final(cold).reports(e) ==> old(cold).reports(e),
            old(cold).infallible() ==> final(cold).infallible(),
            hot_read.infallible() && hot_read.contents().contains_key(table@) && old(
                cold,
            ).infallible() && old(cold).contents().contains_key(table@) ==> r is Ok,
    {
        let empty: Vec<u8> = Vec::new();
        let pairs = self.collect_entries(hot_read, table, prefix, empty.as_slice())?;
        proof {
            lemma_any_suffix(with_prefix(hot_read.contents()[table@], prefix@));
        }
        self.put_entries(cold, table, pairs)
    }

    /// Copies every entry of `table` whose key ends with `suffix` from the hot store to
    /// the cold one, in one batch. There is no index of suffixes, so the whole table is
    /// scanned; a scan that fails leaves the cold store as it was.
    pub fn copy_suffixed_entries<R: StorageReadView, C: StorageBackend>(
        &self,
        cold: &mut C,
        hot_read: &R,
        table: &'static str,
        suffix: &[u8],
    ) -> (r: Result<(), StoreError>)
        ensures
            exists|whole: &[u8], scan: Result<R::Iter, StoreError>|
                {
                    &&& whole@ == Seq::<u8>::empty()
                    &&& #[trigger] call_ensures(R::prefix_iterator, (hot_read, table, whole), scan)
                    &&& match scan {
                        Err(e) => r == Err::<(), StoreError>(e) && *final(cold) == *old(cold),
                        Ok(iter) => match leading_failure(iter.remaining(), whole@) {
                            Some(e) => r == Err::<(), StoreError>(e) && *final(cold) == *old(cold),
                            None => {
                                let found = ending(lead(iter.remaining(), whole@), suffix@);
                                if found.len() == 0 {
                                    r is Ok && *final(cold) == *old(cold)
                                } else {
                                    exists|begun: Result<WriteBatch, StoreError>|
                                        {
                                            &&& #[trigger] call_ensures(
                                                C::begin_write,
                                                (&*old(cold),),
                                                begun,
                                            )
                                            &&& match begun {
                                                Err(e) => r == Err::<(), StoreError>(e) && *final(cold)
                                                    == *old(cold),
                                                Ok(_) => exists|store: &mut C, batch: WriteBatch|
                                                    {
                                                        &&& *store == *old(cold)
                                                        &&& *final(store) == *final(cold)
                                                        &&& batch@ == copies(table@, found)
                                                        &&& #[trigger] call_ensures(
                                                            C::commit,
                                                            (store, batch),
                                                            r,
                                                        )
                                                    },
                                            }
                                        }
                                }
                            },
                        },
                    }
                },
            r matches Err(e) ==> hot_read.reports(e) || old(cold).reports(e),
            !hot_read.contents().contains_key(table@) ==> r is Err && final(cold).contents() == old(
                cold,
            ).contents(),
            ({
                let copied = with_suffix(hot_read.contents()[table@], suffix@);
                if copied == Map::<Seq<u8>, Seq<u8>>::empty() {
                    final(cold).contents() == old(cold).contents()
                } else {
                    attempted(
                        r is Ok,
                        old(cold).contents(),
                        final(cold).contents(),
                        table@,
                        with_entries(old(cold).contents(), table@, copied),
                    )
                }
            }),
            forall|e: StoreError|
                #![trigger final(cold).reports(e)]
                final(cold).reports(e) ==> old(cold).reports(e),
            old(cold).infallible() ==> final(cold).infallible(),
            hot_read.infallible() && hot_read.contents().contains_key(table@) && old(
                cold,
            ).infallible() && old(cold).contents().contains_key(table@) ==> r is Ok,
    {
        let empty: Vec<u8> = Vec::new();
        let pairs = self.collect_entries(hot_read, table, empty.as_slice(), suffix)?;
        proof {
            lemma_any_prefix(hot_read.contents()[table@]);
        }
        self.put_entries(cold, table, pairs)
    }

    /// Adds to a batch the deletion of every entry of `table` in the hot store whose key
    /// begins with `prefix`, each once and in the order of the scan.
    pub fn delete_prefixed_entries<R: StorageReadView>(
        &self,
        hot_write: &mut WriteBatch,
        hot_read: &R,
        table: &'static str,
        prefix: &[u8],
    ) -> (r: Result<(), StoreError>)
        ensures
            exists|scan: Result<R::Iter, StoreError>|
                {
                    &&& #[trigger] call_ensures(
                        R::prefix_iterator,
                        (hot_read, table, prefix),
                        scan,
                    )
                    &&& match scan {
                        Err(e) => r == Err::<(), StoreError>(e) && final(hot_write)@ == old(
                            hot_write,
                        )@,
                        Ok(iter) => {
                            &&& final(hot_write)@ == old(hot_write)@ + removals(
                                table@,
                                lead(iter.remaining(), prefix@),
                            )
                            &&& match leading_failure(iter.remaining(), prefix@) {
                                Some(e) => r == Err::<(), StoreError>(e),
                                None => r is Ok,
                            }
                        },
                    }
                },
            r matches Err(e) ==> hot_read.reports(e),
            r is Ok ==> hot_read.contents().contains_key(table@),
            exists|keys: Seq<Seq<u8>>|
                {
                    let doomed = with_prefix(hot_read.contents()[table@], prefix@).dom();
                    &&& final(hot_write)@ == old(hot_write)@ + #[trigger] deletes(table@, keys)
                    &&& keys.no_duplicates()
                    &&& r is Ok ==> keys.to_set() == doomed
                    &&& r is Err ==> keys.to_set().subset_of(doomed)
                },
            hot_read.infallible() && hot_read.contents().contains_key(table@) ==> r is Ok,
    {
        assert(hot_write@ + deletes(table@, Seq::empty()) =~= hot_write@);
        let scan = hot_read.prefix_iterator(table, prefix);
        let ghost outcome = scan;
        let mut iter = scan?;
        let ghost items = iter.remaining();
        let ghost keys = lead_keys(items, prefix@);
        let ghost mut done: Seq<(Seq<u8>, Seq<u8>)> = Seq::empty();
        proof {
            lemma_lead_of_scan(hot_read.contents()[table@], items, prefix@);
            assert(deletes(table@, keys) =~= removals(table@, lead(items, prefix@)));
            assert(hot_write@ =~= old(hot_write)@ + removals(table@, done));
            assert(lead(items, prefix@) =~= done + lead(items, prefix@));
        }
        loop
            invariant_except_break
                iter.remaining().len() <= items.len(),
                iter.remaining() == items.skip(items.len() - iter.remaining().len()),
                leading_failure(items, prefix@) == leading_failure(iter.remaining(), prefix@),
                lead(items, prefix@) == done + lead(iter.remaining(), prefix@),
            invariant
                call_ensures(R::prefix_iterator, (hot_read, table, prefix), outcome),
                outcome matches Ok(iter) && iter.remaining() == items,
                hot_read.contents().contains_key(table@),
                deletes(table@, keys) == removals(table@, lead(items, prefix@)),
                keys.no_duplicates(),
                keys.to_set().subset_of(with_prefix(hot_read.contents()[table@], prefix@).dom()),
                hot_write@ == old(hot_write)@ + removals(table@, done),
                forall|i: int|
                    0 <= i < items.len() && (#[trigger] items[i]) is Failure ==> hot_read.reports(
                        items[i]->Failure_0,
                    ),
                hot_read.infallible() ==> forall|i: int|
                    0 <= i < items.len() ==> #[trigger] items[i] is Entry,
            ensures
                leading_failure(items, prefix@) is None,
                lead(items, prefix@) == done,
            decreases iter.remaining().len(),
        {
            let ghost rest = iter.remaining();
            let ghost at = items.len() - rest.len();
            let item = iter.next();
            proof {
                if rest.len() > 0 {
                    assert(rest[0] == items[at]);
                    assert(rest.skip(1) =~= items.skip(at + 1));
                }
            }
            match item {
                None => {
                    assert(lead(items, prefix@) =~= done);
                    break ;
                },
                Some(Err(e)) => {
                    assert(lead(items, prefix@) =~= done);
                    return Err(e);
                },
                Some(Ok(entry)) => {
                    if !starts_with(entry.0.as_slice(), prefix) {
                        assert(lead(items, prefix@) =~= done);
                        break ;
                    }
                    hot_write.delete(table, entry.0.as_slice());
                    proof {
                        let before = done;
                        done = done.push((entry.0@, entry.1@));
                        assert(done + lead(rest.skip(1), prefix@) =~= before + lead(rest, prefix@));
                        assert(hot_write@ =~= old(hot_write)@ + removals(table@, done));
                    }
                },
            }
        }
        Ok(())
    }

    /// Adds to a batch the deletion of every entry of `table` in the hot store whose key
    /// ends with `suffix`, each once and in the order of the scan. A scan that fails leaves
    /// the batch as it was.
    pub fn delete_suffixed_entries<R: StorageReadView>(
        &self,
        hot_write: &mut WriteBatch,
        hot_read: &R,
        table: &'static str,
        suffix: &[u8],
    ) -> (r: Result<(), StoreError>)
        ensures
            exists|whole: &[u8], scan: Result<R::Iter, StoreError>|
                {
                    &&& whole@ == Seq::<u8>::empty()
                    &&& #[trigger] call_ensures(R::prefix_iterator, (hot_read, table, whole), scan)
                    &&& match scan {
                        Err(e) => r == Err::<(), StoreError>(e),
                        Ok(iter) => match leading_failure(iter.remaining(), whole@) {
                            Some(e) => r == Err::<(), StoreError>(e),
                            None => r is Ok && final(hot_write)@ == old(hot_write)@ + removals(
                                table@,
                                ending(lead(iter.remaining(), whole@), suffix@),
                            ),
                        },
                    }
                },
            r matches Err(e) ==> hot_read.reports(e),
            r is Err ==> final(hot_write)@ == old(hot_write)@,
            r is Ok ==> hot_read.contents().contains_key(table@) && exists|keys: Seq<Seq<u8>>|
                {
                    &&& final(hot_write)@ == old(hot_write)@ + #[trigger] deletes(table@, keys)
                    &&& keys.no_duplicates()
                    &&& keys.to_set() == with_suffix(
                        hot_read.contents()[table@],
                        suffix@,
                    ).dom()
                },
            hot_read.infallible() && hot_read.contents().contains_key(table@) ==> r is Ok,
    {
        let empty: Vec<u8> = Vec::new();
        let pairs = self.collect_entries(hot_read, table, empty.as_slice(), suffix)?;
        let ghost found = entries_in(pairs@);
        let mut i: usize = 0;
        assert(hot_write@ =~= old(hot_write)@ + removals(table@, found.subrange(0, 0)));
        while i < pairs.len()
            invariant
                i <= pairs@.len(),
                found == entries_in(pairs@),
                hot_write@ == old(hot_write)@ + removals(table@, found.subrange(0, i as int)),
            decreases pairs@.len() - i,
        {
            let ghost done = found.subrange(0, i as int);
            hot_write.delete(table, pairs[i].0.as_slice());
            i += 1;
            assert(found.subrange(0, i as int) =~= done.push(found[i - 1]));
            assert(hot_write@ =~= old(hot_write)@ + removals(
                table@,
                found.subrange(0, i as int),
            ));
        }
        proof {
            assert(found.subrange(0, i as int) =~= found);
            assert(removals(table@, found) =~= deletes(table@, keys_of(found)));
            lemma_any_prefix(hot_read.contents()[table@]);
        }
        Ok(())
    }

    /// Collects the entries of `table` in the hot store whose keys begin with `prefix` and
    /// end with `suffix`, in the order of the scan.
    fn collect_entries<R: StorageReadView>(
        &self,
        hot_read: &R,
        table: &'static str,
        prefix: &[u8],
        suffix: &[u8],
    ) -> (r: Result<Vec<(Vec<u8>, Vec<u8>)>, StoreError>)
        ensures
            exists|scan: Result<R::Iter, StoreError>|
                {
                    &&& #[trigger] call_ensures(
                        R::prefix_iterator,
                        (hot_read, table, prefix),
                        scan,
                    )
                    &&& match scan {
                        Err(e) => r matches Err(e1) && e1 == e,
                        Ok(iter) => match leading_failure(iter.remaining(), prefix@) {
                            Some(e) => r matches Err(e1) && e1 == e,
                            None => r matches Ok(pairs) && entries_in(pairs@) == ending(
                                lead(iter.remaining(), prefix@),
                                suffix@,
                            ) && (suffix@.len() == 0 ==> entries_in(pairs@) == lead(
                                iter.remaining(),
                                prefix@,
                            )),
                        },
                    }
                },
            r matches Err(e) ==> hot_read.reports(e),
            r matches Ok(pairs) ==> {
                let wanted = with_suffix(
                    with_prefix(hot_read.contents()[table@], prefix@),
                    suffix@,
                );
                &&& hot_read.contents().contains_key(table@)
                &&& collected(pairs@) == wanted
                &&& pairs@.len() == 0 <==> wanted == Map::<Seq<u8>, Seq<u8>>::empty()
                &&& keys_of(entries_in(pairs@)).no_duplicates()
                &&& keys_of(entries_in(pairs@)).to_set() == wanted.dom()
            },
            hot_read.infallible() && hot_read.contents().contains_key(table@) ==> r is Ok,
    {
        let scan = hot_read.prefix_iterator(table, prefix);
        let ghost outcome = scan;
        let mut iter = scan?;
        let ghost items = iter.remaining();
        let ghost mut done: Seq<(Seq<u8>, Seq<u8>)> = Seq::empty();
        let mut pairs: Vec<(Vec<u8>, Vec<u8>)> = Vec::new();
        proof {
            lemma_ending_of_scan(hot_read.contents()[table@], items, prefix@, suffix@);
            reveal(Seq::filter);
            assert(lead(items, prefix@) =~= done + lead(items, prefix@));
            assert(entries_in(pairs@) =~= ending(done, suffix@));
        }
        loop
            invariant_except_break
                iter.remaining().len() <= items.len(),
                iter.remaining() == items.skip(items.len() - iter.remaining().len()),
                leading_failure(items, prefix@) == leading_failure(iter.remaining(), prefix@),
                lead(items, prefix@) == done + lead(iter.remaining(), prefix@),
            invariant
                call_ensures(R::prefix_iterator, (hot_read, table, prefix), outcome),
                outcome matches Ok(iter) && iter.remaining() == items,
                hot_read.contents().contains_key(table@),
                entries_in(pairs@) == ending(done, suffix@),
                forall|i: int|
                    0 <= i < items.len() && (#[trigger] items[i]) is Failure ==> hot_read.reports(
                        items[i]->Failure_0,
                    ),
                hot_read.infallible() ==> forall|i: int|
                    0 <= i < items.len() ==> #[trigger] items[i] is Entry,
            ensures
                leading_failure(items, prefix@) is None,
                lead(items, prefix@) == done,
            decreases iter.remaining().len(),
        {
            let ghost rest = iter.remaining();
            let ghost at = items.len() - rest.len();
            let item = iter.next();
            proof {
                if rest.len() > 0 {
                    assert(rest[0] == items[at]);
                    assert(rest.skip(1) =~= items.skip(at + 1));
                }
            }
            match item {
                None => {
                    assert(lead(items, prefix@) =~= done);
                    break ;
                },
                Some(Err(e)) => {
                    return Err(e);
                },
                Some(Ok((key, value))) => {
                    if !starts_with(key.as_slice(), prefix) {
                        assert(lead(items, prefix@) =~= done);
                        break ;
                    }
                    let ghost before = done;
                    let ghost entry = (key@, value@);
                    proof {
                        done = done.push(entry);
                        assert(done + lead(rest.skip(1), prefix@) =~= before + lead(rest, prefix@));
                        lemma_ending_push(before, entry, suffix@);
                    }
                    if ends_with(key.as_slice(), suffix) {
                        pairs.push((key, value));
                    }
                    assert(entries_in(pairs@) =~= ending(done, suffix@));
                },
            }
        }
        proof {
            let found = entries_in(pairs@);
            let wanted = with_suffix(with_prefix(hot_read.contents()[table@], prefix@), suffix@);
            assert forall|i: int| 0 <= i < pairs@.len() implies wanted.contains_key(
                (#[trigger] pairs@[i]).0@,
            ) && wanted[pairs@[i].0@] == pairs@[i].1@ by {
                assert(found[i] == (pairs@[i].0@, pairs@[i].1@));
            }
            assert forall|k: Seq<u8>| #[trigger] wanted.contains_key(k) implies exists|i: int|
                0 <= i < pairs@.len() && (#[trigger] pairs@[i]).0@ == k by {
                let i = choose|i: int| 0 <= i < keys_of(found).len() && keys_of(found)[i] == k;
                assert(pairs@[i].0@ == k);
            }
            lemma_collected(pairs@, wanted);
            assert(keys_of(found).to_set() =~= wanted.dom()) by {
                assert forall|k: Seq<u8>| keys_of(found).contains(k) implies wanted.contains_key(
                    k,
                ) by {
                    let i = choose|i: int| 0 <= i < keys_of(found).len() && keys_of(found)[i] == k;
                    assert(pairs@[i].0@ == k);
                }
            }
            if pairs@.len() > 0 {
                assert(wanted.contains_key(pairs@[0].0@));
            }
        }
        Ok(pairs)
    }

    /// Puts the entries, if there are any, into `table` of the cold store, in one batch.
    fn put_entries<C: StorageBackend>(
        &self,
        cold: &mut C,
        table: &'static str,
        pairs: Vec<(Vec<u8>, Vec<u8>)>,
    ) -> (r: Result<(), StoreError>)
        ensures
            if pairs@.len() == 0 {
                r is Ok && *final(cold) == *old(cold)
            } else {
                exists|begun: Result<WriteBatch, StoreError>|
                    {
                        &&& #[trigger] call_ensures(C::begin_write, (&*old(cold),), begun)
                        &&& match begun {
                            Err(e) => r == Err::<(), StoreError>(e) && *final(cold) == *old(cold),
                            Ok(_) => exists|store: &mut C, batch: WriteBatch|
                                {
                                    &&& *store == *old(cold) && *final(store) == *final(cold)
                                    &&& batch@ == copies(table@, entries_in(pairs@))
                                    &&& #[trigger] call_ensures(C::commit, (store, batch), r)
                                },
                        }
                    }
            },
            r matches Err(e) ==> old(cold).reports(e),
            pairs@.len() > 0 ==> attempted(
                r is Ok,
                old(cold).contents(),
                final(cold).contents(),
                table@,
                with_entries(old(cold).contents(), table@, collected(pairs@)),
            ),
            forall|e: StoreError|
                #![trigger final(cold).reports(e)]
                final(cold).reports(e) ==> old(cold).reports(e),
            old(cold).infallible() ==> final(cold).infallible(),
            old(cold).infallible() && old(cold).contents().contains_key(table@) ==> r is Ok,
    {
        if pairs.len() > 0 {
            let mut cold_write = cold.begin_write()?;
            let ghost list = pairs@;
            cold_write.put_batch(table, pairs);
            proof {
                assert(cold_write@ =~= puts(table@, list));
                assert(cold_write@ =~= copies(table@, entries_in(list)));
                if cold.contents().contains_key(table@) {
                    lemma_apply_puts(cold.contents(), table@, list);
                }
                assert(puts(table@, list)[0] is Put);
                assert(collected(list).contains_key(list.last().0@));
            }
            return cold.commit(cold_write);
        }
        Ok(())
    }
}

/// Every key begins with the empty prefix.
proof fn lemma_any_prefix(entries: Entries)
    ensures
        with_prefix(entries, Seq::empty()) == entries,
{
    assert forall|k: Seq<u8>| #[trigger] has_prefix(k, Seq::empty()) by {
        assert(k.subrange(0, 0) =~= Seq::empty());
    }
    assert(with_prefix(entries, Seq::empty()) =~= entries);
}

/// Every key ends with the empty suffix.
proof fn lemma_any_suffix(entries: Entries)
    ensures
        with_suffix(entries, Seq::empty()) == entries,
{
    assert forall|k: Seq<u8>| #[trigger] has_suffix(k, Seq::empty()) by {
        assert(k.subrange(k.len() as int, k.len() as int) =~= Seq::empty());
    }
    assert(with_suffix(entries, Seq::empty()) =~= entries);
}

} // verus!
