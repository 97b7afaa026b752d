use std::cell::Cell;
use std::collections::VecDeque;
use tiered_storage::api::{Contents, PrefixIterator, PrefixResult, ScanItems, StorageBackend};
use tiered_storage::api::{StorageReadView, StoreError, WriteBatch, WriteOp};
use tiered_storage::memory::{InMemoryBackend, MemoryLockedView, MemoryReadView};
use tiered_storage::migration::{MigrationWorker, COLD_MIGRATION_CURSOR_KEY, MIGRATION_BATCH_SIZE};
use tiered_storage::tables::{
    is_warm_table, BODIES, CANONICAL_BLOCK_HASHES, HEADERS, MISC_VALUES, RECEIPTS, TABLES,
    TRANSACTION_LOCATIONS, WARM_TABLES,
};
use tiered_storage::tiered::{TieredBackend, TieredReadView};
use tiered_storage::worker::{after_pass, next_action, Action, Phase, Report};

/// A store whose commits fail from some point on.
struct Flaky {
    inner: InMemoryBackend,
    commits_left: u64,
    refuses_batches: bool,
    refuses_reads: bool,
}

fn flaky(inner: InMemoryBackend, commits_left: u64) -> Flaky {
    Flaky { inner, commits_left, refuses_batches: false, refuses_reads: false }
}

fn custom(text: &str) -> StoreError {
    StoreError::Custom(text.to_string())
}

impl StorageBackend for Flaky {
    type ReadView<'a> = MemoryReadView<'a>;
    type LockedView<'a> = MemoryLockedView<'a>;

    fn contents(&self) -> Contents {
        unreachable!()
    }

    fn infallible(&self) -> bool {
        unreachable!()
    }

    fn reports(&self, _: StoreError) -> bool {
        unreachable!()
    }

    fn clear_table(&mut self, table: &'static str) -> Result<(), StoreError> {
        self.inner.clear_table(table)
    }

    fn begin_read<'a>(&'a self) -> Result<MemoryReadView<'a>, StoreError> {
        if self.refuses_reads {
            return Err(custom("no read"));
        }
        self.inner.begin_read()
    }

    fn begin_write(&self) -> Result<WriteBatch, StoreError> {
        if self.refuses_batches {
            return Err(custom("no batch"));
        }
        self.inner.begin_write()
    }

    fn commit(&mut self, batch: WriteBatch) -> Result<(), StoreError> {
        if self.commits_left == 0 {
            return Err(custom("out of order"));
        }
        self.commits_left -= 1;
        self.inner.commit(batch)
    }

    fn begin_locked<'a>(&'a self, table: &'static str) -> Result<MemoryLockedView<'a>, StoreError> {
        self.inner.begin_locked(table)
    }
}

fn get<B: StorageBackend>(store: &B, table: &'static str, key: &[u8]) -> Option<Vec<u8>> {
    let read = match store.begin_read() {
        Ok(read) => read,
        Err(_) => panic!("no read"),
    };
    let value = read.get(table, key).expect("get");
    value
}

/// A view that answers as it is told: `items` to every scan, `found` to every read.
struct Scripted {
    found: Result<Option<Vec<u8>>, &'static str>,
    items: Result<Vec<Result<(&'static str, &'static str), &'static str>>, &'static str>,
    asked: Cell<u64>,
}

struct ScriptedScan {
    items: VecDeque<PrefixResult>,
}

impl PrefixIterator for ScriptedScan {
    fn remaining(&self) -> ScanItems {
        unreachable!()
    }

    fn next(&mut self) -> Option<PrefixResult> {
        self.items.pop_front()
    }
}

impl StorageReadView for Scripted {
    type Iter = ScriptedScan;

    fn contents(&self) -> Contents {
        unreachable!()
    }

    fn infallible(&self) -> bool {
        unreachable!()
    }

    fn bounded_scans(&self) -> bool {
        unreachable!()
    }

    fn reports(&self, _: StoreError) -> bool {
        unreachable!()
    }

    fn get(&self, _: &'static str, _: &[u8]) -> Result<Option<Vec<u8>>, StoreError> {
        self.asked.set(self.asked.get() + 1);
        self.found.clone().map_err(custom)
    }

    fn prefix_iterator(&self, _: &'static str, _: &[u8]) -> Result<ScriptedScan, StoreError> {
        self.asked.set(self.asked.get() + 1);
        let items = self.items.clone().map_err(custom)?;
        let items = items
            .into_iter()
            .map(|item| match item {
                Ok((k, v)) => Ok((k.as_bytes().to_vec(), v.as_bytes().to_vec())),
                Err(text) => Err(custom(text)),
            })
            .collect();
        Ok(ScriptedScan { items })
    }
}

fn scripted_get(found: Result<Option<&str>, &'static str>) -> Scripted {
    let found = found.map(|v| v.map(|v| v.as_bytes().to_vec()));
    Scripted { found, items: Ok(Vec::new()), asked: Cell::new(0) }
}

fn scripted_scan(
    items: Result<Vec<Result<(&'static str, &'static str), &'static str>>, &'static str>,
) -> Scripted {
    Scripted { found: Ok(None), items, asked: Cell::new(0) }
}

fn hash(n: u64) -> Vec<u8> {
    format!("hash_{n:05}").into_bytes()
}

fn receipt_key(n: u64, i: u8) -> Vec<u8> {
    let mut key = hash(n);
    key.push(i);
    key
}

/// The key of a transaction that several blocks may hold.
fn location_key(tx: u8, n: u64) -> Vec<u8> {
    let mut key = vec![tx; 32];
    key.extend(hash(n));
    key
}

fn chain(blocks: u64) -> InMemoryBackend {
    let mut hot = InMemoryBackend::open();
    for n in 0..blocks {
        let mut w = hot.begin_write().expect("write");
        w.put(CANONICAL_BLOCK_HASHES, &n.to_le_bytes(), &hash(n));
        w.put(HEADERS, &hash(n), b"header");
        w.put(BODIES, &hash(n), b"body");
        w.put(RECEIPTS, &receipt_key(n, 0), b"receipt0");
        w.put(RECEIPTS, &receipt_key(n, 1), b"receipt1");
        w.put(TRANSACTION_LOCATIONS, &location_key(0, n), b"location0");
        w.put(TRANSACTION_LOCATIONS, &location_key(1, n), b"location1");
        hot.commit(w).expect("commit");
    }
    hot
}

fn cold_store() -> InMemoryBackend {
    InMemoryBackend::open_with_tables(&WARM_TABLES)
}

fn worker(hot_blocks: u64, head_block: u64) -> MigrationWorker<fn(u64) -> bool> {
    fn never(_: u64) -> bool {
        false
    }
    MigrationWorker { hot_blocks, shutdown: never, head_block }
}

#[test]
fn a_block_moves_with_its_receipts_and_locations() {
    let mut hot = chain(3);
    let mut cold = cold_store();
    worker(1, 3).migrate_block(&mut hot, &mut cold, 1).expect("migrate");
    assert_eq!(get(&hot, HEADERS, &hash(1)), None);
    assert_eq!(get(&hot, BODIES, &hash(1)), None);
    assert_eq!(get(&hot, RECEIPTS, &receipt_key(1, 0)), None);
    assert_eq!(get(&hot, RECEIPTS, &receipt_key(1, 1)), None);
    assert_eq!(get(&cold, HEADERS, &hash(1)), Some(b"header".to_vec()));
    assert_eq!(get(&cold, BODIES, &hash(1)), Some(b"body".to_vec()));
    assert_eq!(get(&cold, RECEIPTS, &receipt_key(1, 0)), Some(b"receipt0".to_vec()));
    assert_eq!(get(&cold, RECEIPTS, &receipt_key(1, 1)), Some(b"receipt1".to_vec()));
    // So do the locations of its transactions, and those alone.
    for tx in 0..2 {
        let location = Some(format!("location{tx}").into_bytes());
        assert_eq!(get(&hot, TRANSACTION_LOCATIONS, &location_key(tx, 1)), None);
        assert_eq!(get(&cold, TRANSACTION_LOCATIONS, &location_key(tx, 1)), location);
        for n in [0, 2] {
            assert_eq!(get(&hot, TRANSACTION_LOCATIONS, &location_key(tx, n)), location);
            assert_eq!(get(&cold, TRANSACTION_LOCATIONS, &location_key(tx, n)), None);
        }
    }
    // Canonical hashes stay.
    assert_eq!(get(&hot, CANONICAL_BLOCK_HASHES, &1u64.to_le_bytes()), Some(hash(1)));
    // The neighbours stay.
    assert_eq!(get(&hot, HEADERS, &hash(0)), Some(b"header".to_vec()));
    assert_eq!(get(&hot, RECEIPTS, &receipt_key(2, 0)), Some(b"receipt0".to_vec()));
    assert_eq!(get(&cold, HEADERS, &hash(2)), None);
}

#[test]
fn a_block_without_a_canonical_hash_is_skipped() {
    let mut hot = chain(1);
    let mut cold = cold_store();
    worker(1, 9).migrate_block(&mut hot, &mut cold, 7).expect("migrate");
    assert_eq!(get(&hot, HEADERS, &hash(0)), Some(b"header".to_vec()));
}

#[test]
fn a_block_without_a_body_moves_what_it_has() {
    let mut hot = InMemoryBackend::open();
    let mut w = hot.begin_write().expect("write");
    w.put(CANONICAL_BLOCK_HASHES, &0u64.to_le_bytes(), &hash(0));
    w.put(HEADERS, &hash(0), b"header");
    hot.commit(w).expect("commit");
    let mut cold = cold_store();
    worker(1, 9).migrate_block(&mut hot, &mut cold, 0).expect("migrate");
    assert_eq!(get(&cold, HEADERS, &hash(0)), Some(b"header".to_vec()));
    assert_eq!(get(&cold, BODIES, &hash(0)), None);
}

#[test]
fn migrating_twice_changes_nothing_more() {
    let mut hot = chain(2);
    let mut cold = cold_store();
    let w = worker(1, 2);
    w.migrate_block(&mut hot, &mut cold, 0).expect("first");
    w.migrate_block(&mut hot, &mut cold, 0).expect("second");
    assert_eq!(get(&cold, HEADERS, &hash(0)), Some(b"header".to_vec()));
    assert_eq!(get(&hot, HEADERS, &hash(0)), None);
    assert_eq!(get(&hot, HEADERS, &hash(1)), Some(b"header".to_vec()));
}

#[test]
fn a_pass_within_the_hot_window_does_nothing() {
    let mut hot = chain(3);
    let mut cold = cold_store();
    assert_eq!(worker(5, 5).run_migration_pass(&mut hot, &mut cold), Ok((0, 0, 0)));
    assert_eq!(worker(5, 0).run_migration_pass(&mut hot, &mut cold), Ok((0, 0, 0)));
    assert_eq!(get(&hot, HEADERS, &hash(0)), Some(b"header".to_vec()));
}

#[test]
fn a_pass_moves_up_to_the_cutoff() {
    let mut hot = chain(10);
    let mut cold = cold_store();
    let w = worker(4, 10);
    assert_eq!(w.run_migration_pass(&mut hot, &mut cold), Ok((6, 6, 6)));
    assert_eq!(get(&hot, HEADERS, &hash(5)), None);
    assert_eq!(get(&hot, HEADERS, &hash(6)), Some(b"header".to_vec()));
    // The last block that was moved is recorded.
    assert_eq!(w.read_cursor(&hot), Ok(Some(5)));
    assert_eq!(get(&hot, MISC_VALUES, b"cold_migration_cursor"), Some(5u64.to_le_bytes().to_vec()));
    // Nothing is left to do.
    assert_eq!(w.run_migration_pass(&mut hot, &mut cold), Ok((0, 6, 6)));
    // The head moves on.
    assert_eq!(worker(4, 12).run_migration_pass(&mut hot, &mut cold), Ok((2, 8, 8)));
}

#[test]
fn a_pass_moves_at_most_a_batch() {
    let mut hot = chain(0);
    let mut cold = cold_store();
    let w = worker(1_024, 2_000);
    assert_eq!(MIGRATION_BATCH_SIZE, 512);
    assert_eq!(w.run_migration_pass(&mut hot, &mut cold), Ok((512, 512, 976)));
    assert_eq!(w.run_migration_pass(&mut hot, &mut cold), Ok((464, 976, 976)));
    assert_eq!(w.run_migration_pass(&mut hot, &mut cold), Ok((0, 976, 976)));
}

#[test]
fn a_pass_goes_on_behind_the_last_block_that_was_moved() {
    let mut hot = chain(4);
    let mut cold = cold_store();
    // Block 0 alone is recorded, which is not the same as nothing.
    assert_eq!(worker(1, 2).run_migration_pass(&mut hot, &mut cold), Ok((1, 1, 1)));
    assert_eq!(worker(1, 2).read_cursor(&hot), Ok(Some(0)));
    assert_eq!(worker(1, 2).run_migration_pass(&mut hot, &mut cold), Ok((0, 1, 1)));
    assert_eq!(worker(1, 4).run_migration_pass(&mut hot, &mut cold), Ok((2, 3, 3)));
    assert_eq!(worker(1, 4).read_cursor(&hot), Ok(Some(2)));
    assert_eq!(get(&cold, TRANSACTION_LOCATIONS, &location_key(1, 2)), Some(b"location1".to_vec()));
    assert_eq!(get(&hot, TRANSACTION_LOCATIONS, &location_key(1, 3)), Some(b"location1".to_vec()));
}

#[test]
fn a_pass_stops_between_blocks() {
    let mut hot = chain(6);
    let mut cold = cold_store();
    let looks = Cell::new(0u64);
    let w = MigrationWorker {
        hot_blocks: 1,
        shutdown: |n| {
            assert_eq!(n, looks.get());
            looks.set(n + 1);
            n == 2
        },
        head_block: 6,
    };
    assert_eq!(w.run_migration_pass(&mut hot, &mut cold), Ok((2, 2, 5)));
    assert_eq!(w.read_cursor(&hot), Ok(Some(1)));
    assert_eq!(get(&hot, HEADERS, &hash(1)), None);
    assert_eq!(get(&hot, HEADERS, &hash(2)), Some(b"header".to_vec()));
}

#[test]
fn a_pass_that_is_stopped_at_once_records_nothing() {
    let mut hot = chain(6);
    let mut cold = cold_store();
    let w = MigrationWorker { hot_blocks: 1, shutdown: |_| true, head_block: 6 };
    assert_eq!(w.run_migration_pass(&mut hot, &mut cold), Ok((0, 0, 5)));
    assert_eq!(get(&hot, MISC_VALUES, COLD_MIGRATION_CURSOR_KEY.as_bytes()), None);
}

#[test]
fn a_pass_near_the_end_of_the_numbers_does_not_overflow() {
    let mut hot = chain(0);
    let mut cold = cold_store();
    let w = worker(1_024, u64::MAX);
    w.write_cursor(&mut hot, u64::MAX - 1_030).expect("write");
    assert_eq!(
        w.run_migration_pass(&mut hot, &mut cold),
        Ok((5, u64::MAX - 1_024, u64::MAX - 1_024))
    );
    w.write_cursor(&mut hot, u64::MAX).expect("write");
    assert_eq!(
        w.run_migration_pass(&mut hot, &mut cold),
        Ok((0, u64::MAX, u64::MAX - 1_024))
    );
}

#[test]
fn the_cursor_is_read_back() {
    let mut hot = InMemoryBackend::open();
    let w = worker(1, 1);
    assert_eq!(w.read_cursor(&hot), Ok(None));
    for value in [0, 1, 0x0102_0304_0506_0708, u64::MAX] {
        w.write_cursor(&mut hot, value).expect("write");
        assert_eq!(w.read_cursor(&hot), Ok(Some(value)));
    }
    let mut batch = hot.begin_write().expect("write");
    batch.put(MISC_VALUES, COLD_MIGRATION_CURSOR_KEY.as_bytes(), b"seven b");
    hot.commit(batch).expect("commit");
    assert_eq!(w.read_cursor(&hot), Ok(None));
}

#[test]
fn a_missing_table_is_reported() {
    let empty = InMemoryBackend::open_with_tables(&[]);
    assert_eq!(worker(1, 1).read_cursor(&empty), Err(StoreError::TableNotFound(MISC_VALUES)));
}

#[test]
fn a_failed_migration_loses_nothing_and_is_made_good() {
    // The hot store fails when the block is to be deleted: it is then in both.
    let mut hot = flaky(chain(2), 0);
    let mut cold = cold_store();
    let w = worker(1, 2);
    assert_eq!(
        w.run_migration_pass(&mut hot, &mut cold),
        Err(custom("out of order"))
    );
    assert_eq!(get(&hot, HEADERS, &hash(0)), Some(b"header".to_vec()));
    assert_eq!(get(&cold, HEADERS, &hash(0)), Some(b"header".to_vec()));
    assert_eq!(w.read_cursor(&hot), Ok(None));
    // The next pass finishes the work.
    hot.commits_left = 9;
    assert_eq!(w.run_migration_pass(&mut hot, &mut cold), Ok((1, 1, 1)));
    assert_eq!(get(&hot, HEADERS, &hash(0)), None);
    assert_eq!(get(&cold, RECEIPTS, &receipt_key(0, 1)), Some(b"receipt1".to_vec()));
}

#[test]
fn a_cold_store_that_fails_keeps_the_block_hot() {
    for commits_left in 0..4 {
        let mut hot = chain(1);
        let mut cold = flaky(cold_store(), commits_left);
        assert!(worker(1, 2).migrate_block(&mut hot, &mut cold, 0).is_err());
        assert_eq!(get(&hot, HEADERS, &hash(0)), Some(b"header".to_vec()));
        assert_eq!(get(&hot, BODIES, &hash(0)), Some(b"body".to_vec()));
        assert_eq!(get(&hot, RECEIPTS, &receipt_key(0, 1)), Some(b"receipt1".to_vec()));
    }
}

#[test]
fn a_cursor_that_cannot_be_recorded_fails_the_pass() {
    let mut hot = flaky(chain(3), 2);
    let mut cold = cold_store();
    assert!(worker(1, 3).run_migration_pass(&mut hot, &mut cold).is_err());
    assert_eq!(get(&cold, HEADERS, &hash(1)), Some(b"header".to_vec()));
    assert_eq!(worker(1, 3).read_cursor(&hot), Ok(None));
}

#[test]
fn a_hot_store_that_refuses_a_batch_is_heard() {
    let backend = TieredBackend {
        hot: Flaky { refuses_batches: true, ..flaky(chain(0), 9) },
        cold: cold_store(),
        hot_blocks: 1_024,
        head_block: 0,
    };
    match backend.begin_write() {
        Ok(_) => panic!("a batch was opened"),
        Err(e) => assert_eq!(e, custom("no batch")),
    }
}

#[test]
fn a_number_without_a_hash_needs_no_write() {
    let mut hot = Flaky { refuses_batches: true, ..flaky(chain(1), 0) };
    let mut cold = Flaky { refuses_batches: true, refuses_reads: true, ..flaky(cold_store(), 0) };
    assert_eq!(worker(1, 9).migrate_block(&mut hot, &mut cold, 7), Ok(()));
    hot.refuses_reads = true;
    assert_eq!(worker(1, 9).migrate_block(&mut hot, &mut cold, 7), Err(custom("no read")));
    assert_eq!(worker(1, 9).read_cursor(&hot), Err(custom("no read")));
}

#[test]
fn a_block_that_fails_ends_the_pass() {
    // Block 0 is deleted, block 1 cannot be: it is then in both stores.
    let mut hot = flaky(chain(6), 1);
    let mut cold = cold_store();
    let w = worker(1, 6);
    assert_eq!(w.run_migration_pass(&mut hot, &mut cold), Err(custom("out of order")));
    assert_eq!(get(&hot, HEADERS, &hash(0)), None);
    assert_eq!(get(&cold, HEADERS, &hash(0)), Some(b"header".to_vec()));
    assert_eq!(get(&hot, HEADERS, &hash(1)), Some(b"header".to_vec()));
    assert_eq!(get(&cold, RECEIPTS, &receipt_key(1, 1)), Some(b"receipt1".to_vec()));
    for n in 2..5 {
        assert_eq!(get(&hot, HEADERS, &hash(n)), Some(b"header".to_vec()));
        assert_eq!(get(&cold, HEADERS, &hash(n)), None);
    }
    assert_eq!(w.read_cursor(&hot), Ok(None));
}

#[test]
fn a_cursor_that_is_not_committed_is_not_changed() {
    let mut hot = flaky(chain(1), 1);
    let w = worker(1, 1);
    assert_eq!(w.write_cursor(&mut hot, 7), Ok(()));
    assert_eq!(w.write_cursor(&mut hot, 8), Err(custom("out of order")));
    assert_eq!(w.read_cursor(&hot), Ok(Some(7)));
    hot.refuses_batches = true;
    assert_eq!(w.write_cursor(&mut hot, 9), Err(custom("no batch")));
    assert_eq!(w.read_cursor(&hot), Ok(Some(7)));
}

#[test]
fn an_entry_that_is_not_there_is_copied_without_a_write() {
    let mut cold = Flaky { refuses_batches: true, ..flaky(cold_store(), 0) };
    let w = worker(1, 1);
    assert_eq!(w.copy_entry(&mut cold, &scripted_get(Ok(None)), HEADERS, b"k"), Ok(()));
    let failing = scripted_get(Err("no value"));
    assert_eq!(w.copy_entry(&mut cold, &failing, HEADERS, b"k"), Err(custom("no value")));
    let found = scripted_get(Ok(Some("v")));
    assert_eq!(w.copy_entry(&mut cold, &found, HEADERS, b"k"), Err(custom("no batch")));
}

#[test]
fn a_scan_that_fails_copies_nothing() {
    let mut cold = cold_store();
    let w = worker(1, 1);
    let scan = scripted_scan(Err("no scan"));
    let r = w.copy_prefixed_entries(&mut cold, &scan, RECEIPTS, b"p");
    assert_eq!(r, Err(custom("no scan")));
    let scan = scripted_scan(Ok(vec![Ok(("p1", "a")), Err("torn"), Ok(("p2", "b"))]));
    let r = w.copy_prefixed_entries(&mut cold, &scan, RECEIPTS, b"p");
    assert_eq!(r, Err(custom("torn")));
    assert_eq!(get(&cold, RECEIPTS, b"p1"), None);
    // Past the prefix nothing matters.
    let scan = scripted_scan(Ok(vec![Ok(("p1", "a")), Ok(("q", "b")), Err("torn")]));
    assert_eq!(w.copy_prefixed_entries(&mut cold, &scan, RECEIPTS, b"p"), Ok(()));
    assert_eq!(get(&cold, RECEIPTS, b"p1"), Some(b"a".to_vec()));
    assert_eq!(get(&cold, RECEIPTS, b"q"), None);
    // Without entries no write is begun.
    let mut cold = Flaky { refuses_batches: true, ..flaky(cold_store(), 0) };
    let scan = scripted_scan(Ok(vec![Ok(("q", "b"))]));
    assert_eq!(w.copy_prefixed_entries(&mut cold, &scan, RECEIPTS, b"p"), Ok(()));
}

#[test]
fn a_suffix_is_looked_for_in_the_whole_table() {
    let w = worker(1, 1);
    let items = || vec![Ok(("b-x", "1")), Ok(("x-a", "2")), Ok(("a-x", "3")), Ok(("x", "4"))];
    let mut cold = cold_store();
    let scan = scripted_scan(Ok(items()));
    assert_eq!(w.copy_suffixed_entries(&mut cold, &scan, TRANSACTION_LOCATIONS, b"x"), Ok(()));
    assert_eq!(get(&cold, TRANSACTION_LOCATIONS, b"b-x"), Some(b"1".to_vec()));
    assert_eq!(get(&cold, TRANSACTION_LOCATIONS, b"x-a"), None);
    assert_eq!(get(&cold, TRANSACTION_LOCATIONS, b"a-x"), Some(b"3".to_vec()));
    assert_eq!(get(&cold, TRANSACTION_LOCATIONS, b"x"), Some(b"4".to_vec()));
    let mut batch = WriteBatch::new();
    let scan = scripted_scan(Ok(items()));
    assert_eq!(w.delete_suffixed_entries(&mut batch, &scan, TRANSACTION_LOCATIONS, b"-x"), Ok(()));
    assert_eq!(deleted_keys(&batch), vec![&b"b-x"[..], &b"a-x"[..]]);
    // A scan that fails copies and deletes nothing.
    let torn = || scripted_scan(Ok(vec![Ok(("c-x", "1")), Err("torn")]));
    let r = w.copy_suffixed_entries(&mut cold, &torn(), TRANSACTION_LOCATIONS, b"x");
    assert_eq!(r, Err(custom("torn")));
    assert_eq!(get(&cold, TRANSACTION_LOCATIONS, b"c-x"), None);
    let r = w.delete_suffixed_entries(&mut batch, &torn(), TRANSACTION_LOCATIONS, b"x");
    assert_eq!(r, Err(custom("torn")));
    assert_eq!(batch.ops.len(), 2);
    // Without entries no write is begun.
    let mut cold = Flaky { refuses_batches: true, ..flaky(cold_store(), 0) };
    let scan = scripted_scan(Ok(items()));
    assert_eq!(w.copy_suffixed_entries(&mut cold, &scan, TRANSACTION_LOCATIONS, b"y"), Ok(()));
}

#[test]
fn copying_ends_with_the_first_failure() {
    // A commit each for the header, the body, the receipts and the locations.
    for commits_left in 0..5 {
        let hot = chain(1);
        let mut cold = flaky(cold_store(), commits_left);
        let read = hot.begin_read().expect("read");
        let r = worker(1, 1).copy_block_entries(&mut cold, &read, &hash(0));
        if commits_left < 4 {
            assert_eq!(r, Err(custom("out of order")));
        } else {
            assert_eq!(r, Ok(true));
        }
        assert_eq!(get(&cold, HEADERS, &hash(0)).is_some(), commits_left > 0);
        assert_eq!(get(&cold, BODIES, &hash(0)).is_some(), commits_left > 1);
        assert_eq!(get(&cold, RECEIPTS, &receipt_key(0, 1)).is_some(), commits_left > 2);
        let location = get(&cold, TRANSACTION_LOCATIONS, &location_key(1, 0));
        assert_eq!(location.is_some(), commits_left > 3);
    }
}

fn deleted_keys(batch: &WriteBatch) -> Vec<&[u8]> {
    batch
        .ops
        .iter()
        .map(|op| match op {
            WriteOp::Delete { key, .. } => key.as_slice(),
            WriteOp::Put { .. } => panic!("a put"),
        })
        .collect()
}

#[test]
fn deletions_come_in_the_order_of_the_scan() {
    let w = worker(1, 1);
    let mut batch = WriteBatch::new();
    let scan = scripted_scan(Ok(vec![Ok(("p2", "a")), Ok(("p1", "b")), Ok(("q", "c"))]));
    assert_eq!(w.delete_prefixed_entries(&mut batch, &scan, RECEIPTS, b"p"), Ok(()));
    let scan = scripted_scan(Ok(vec![Ok(("p3", "a")), Err("torn"), Ok(("p4", "b"))]));
    let r = w.delete_prefixed_entries(&mut batch, &scan, RECEIPTS, b"p");
    assert_eq!(r, Err(custom("torn")));
    assert_eq!(deleted_keys(&batch), vec![&b"p2"[..], &b"p1"[..], &b"p3"[..]]);
}

#[test]
fn the_cold_tier_is_asked_after_the_hot_one_found_nothing() {
    let view = |hot, cold| TieredReadView { hot: scripted_get(hot), cold: scripted_get(cold) };
    let v = view(Err("hot"), Err("cold"));
    assert_eq!(v.get(HEADERS, b"k"), Err(custom("hot")));
    assert_eq!(v.cold.asked.get(), 0);
    let v = view(Ok(Some("v")), Err("cold"));
    assert_eq!(v.get(HEADERS, b"k"), Ok(Some(b"v".to_vec())));
    assert_eq!(v.cold.asked.get(), 0);
    let v = view(Ok(None), Err("cold"));
    assert_eq!(v.get(HEADERS, b"k"), Err(custom("cold")));
    let v = view(Ok(None), Err("cold"));
    assert_eq!(v.get(MISC_VALUES, b"k"), Ok(None));
    assert_eq!(v.cold.asked.get(), 0);
}

#[test]
fn the_first_tier_whose_scan_fails_is_heard() {
    let view = |hot, cold| TieredReadView { hot: scripted_scan(hot), cold: scripted_scan(cold) };
    let v = view(Err("hot"), Err("cold"));
    assert_eq!(v.prefix_iterator(HEADERS, b"p").err(), Some(custom("hot")));
    assert_eq!(v.cold.asked.get(), 0);
    let v = view(Ok(Vec::new()), Err("cold"));
    assert_eq!(v.prefix_iterator(HEADERS, b"p").err(), Some(custom("cold")));
    let v = view(Ok(vec![Err("torn"), Ok(("p", "v"))]), Err("cold"));
    let mut scan = v.prefix_iterator(MISC_VALUES, b"p").expect("scan");
    assert_eq!(scan.next(), Some(Err(custom("torn"))));
    assert_eq!(scan.next(), Some(Ok((b"p".to_vec(), b"v".to_vec()))));
    assert_eq!(scan.next(), None);
    assert_eq!(v.cold.asked.get(), 0);
}

#[test]
fn the_first_store_that_refuses_a_read_is_heard() {
    let tiers = |hot_fails, cold_fails| TieredBackend {
        hot: Flaky { refuses_reads: hot_fails, ..flaky(chain(1), 0) },
        cold: Flaky { refuses_reads: cold_fails, ..flaky(InMemoryBackend::open_with_tables(&[]), 0) },
        hot_blocks: 1_024,
        head_block: 0,
    };
    assert!(tiers(false, false).begin_read().is_ok());
    assert_eq!(tiers(true, false).begin_read().err(), Some(custom("no read")));
    assert_eq!(tiers(false, true).begin_read().err(), Some(custom("no read")));
    // The cold store lacks the table, of which the hot one is cleared by then.
    let mut t = tiers(false, false);
    assert_eq!(t.clear_table(HEADERS), Err(StoreError::TableNotFound(HEADERS)));
    assert_eq!(get(&t.hot, HEADERS, &hash(0)), None);
}

#[test]
fn a_hot_store_that_is_not_cleared_leaves_the_cold_one() {
    let mut cold = cold_store();
    let mut batch = cold.begin_write().expect("write");
    batch.put(HEADERS, b"k", b"v");
    cold.commit(batch).expect("commit");
    let mut t = TieredBackend {
        hot: InMemoryBackend::open_with_tables(&[]),
        cold,
        hot_blocks: 1_024,
        head_block: 0,
    };
    assert_eq!(t.clear_table(HEADERS), Err(StoreError::TableNotFound(HEADERS)));
    assert_eq!(get(&t.cold, HEADERS, b"k"), Some(b"v".to_vec()));
}

#[test]
fn copying_takes_only_what_is_there() {
    let hot = chain(1);
    let mut cold = cold_store();
    let w = worker(1, 1);
    let read = hot.begin_read().expect("read");
    w.copy_entry(&mut cold, &read, HEADERS, &hash(0)).expect("copy");
    w.copy_entry(&mut cold, &read, HEADERS, b"absent").expect("copy");
    assert_eq!(get(&cold, HEADERS, &hash(0)), Some(b"header".to_vec()));
    assert_eq!(get(&cold, HEADERS, b"absent"), None);
    w.copy_entry_raw(&mut cold, BODIES, b"k", &Some(b"v".to_vec())).expect("copy");
    w.copy_entry_raw(&mut cold, BODIES, b"l", &None).expect("copy");
    assert_eq!(get(&cold, BODIES, b"k"), Some(b"v".to_vec()));
    assert_eq!(get(&cold, BODIES, b"l"), None);
    w.copy_prefixed_entries(&mut cold, &read, RECEIPTS, &hash(0)).expect("copy");
    assert_eq!(get(&cold, RECEIPTS, &receipt_key(0, 1)), Some(b"receipt1".to_vec()));
    let mut batch = hot.begin_write().expect("write");
    w.delete_prefixed_entries(&mut batch, &read, RECEIPTS, &hash(0)).expect("delete");
    assert_eq!(batch.ops.len(), 2);
}

#[test]
fn four_tables_are_warm() {
    let warm: Vec<&str> = TABLES.iter().copied().filter(|t| is_warm_table(t)).collect();
    assert_eq!(warm, vec![HEADERS, BODIES, RECEIPTS, TRANSACTION_LOCATIONS]);
    assert!(!is_warm_table("header"));
}

#[test]
fn the_worker_waits_for_a_head() {
    assert_eq!(next_action(Phase::AwaitingHead, false, 0), (Phase::AwaitingHead, Action::Sleep(5_000)));
    assert_eq!(next_action(Phase::AwaitingHead, false, 1), (Phase::Migrating, Action::Look));
    assert_eq!(next_action(Phase::Migrating, false, 1), (Phase::Migrating, Action::RunPass));
    assert_eq!(next_action(Phase::Migrating, false, 0), (Phase::Migrating, Action::RunPass));
}

#[test]
fn a_shutdown_stops_the_worker_in_any_phase() {
    assert_eq!(next_action(Phase::AwaitingHead, true, 7).1, Action::Stop);
    assert_eq!(next_action(Phase::Migrating, true, 7).1, Action::Stop);
}

#[test]
fn the_worker_rests_according_to_the_pass() {
    assert_eq!(after_pass(Ok((0, 3, 5))), (Report::Idle, 30_000));
    assert_eq!(
        after_pass(Ok((2, 3, 5))),
        (Report::Migrated { blocks: 2, cursor: 3, cutoff: 5, remaining: 2 }, 100)
    );
    assert_eq!(
        after_pass(Ok((2, 6, 5))),
        (Report::Migrated { blocks: 2, cursor: 6, cutoff: 5, remaining: 0 }, 100)
    );
    let e = StoreError::Custom("x".to_string());
    assert_eq!(after_pass(Err(e)), (Report::Failed(StoreError::Custom("x".to_string())), 60_000));
}
