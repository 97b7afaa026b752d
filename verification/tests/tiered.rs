use tiered_storage::api::{PrefixIterator, StorageBackend, StorageLockedView, StorageReadView, StoreError};
use tiered_storage::memory::InMemoryBackend;
use tiered_storage::migration::MigrationWorker;
use tiered_storage::tables::{
    ACCOUNT_TRIE_NODES, BODIES, CANONICAL_BLOCK_HASHES, HEADERS, RECEIPTS, WARM_TABLES,
};
use tiered_storage::tiered::{open_cold_db, TieredBackend, DEFAULT_HOT_BLOCKS};

type Tiered = TieredBackend<InMemoryBackend, InMemoryBackend>;

fn make_tiered(hot_blocks: u64) -> Tiered {
    TieredBackend::open(
        "hot",
        "cold",
        hot_blocks,
        |_| Ok(InMemoryBackend::open()),
        |_, tables| Ok(InMemoryBackend::open_with_tables(tables.as_slice())),
    )
    .expect("open tiered")
}

fn put<B: StorageBackend>(store: &mut B, table: &'static str, key: &[u8], value: &[u8]) {
    let mut w = store.begin_write().expect("write");
    w.put(table, key, value);
    store.commit(w).expect("commit");
}

fn drain<I: PrefixIterator>(mut iter: I) -> Vec<(Vec<u8>, Vec<u8>)> {
    let mut all = Vec::new();
    while let Some(item) = iter.next() {
        all.push(item.expect("item"));
    }
    all
}

#[test]
fn read_falls_through_for_warm_tables() {
    let mut backend = make_tiered(100);

    // Write a value directly to the cold DB for a warm table.
    put(&mut backend.cold, HEADERS, b"hash1", b"header_data");

    // Read through the tiered view: found via cold fallback.
    let read = backend.begin_read().expect("read");
    let val = read.get(HEADERS, b"hash1").expect("get");
    assert_eq!(val, Some(b"header_data".to_vec()));
}

#[test]
fn read_does_not_fall_through_for_hot_only_tables() {
    let mut backend = make_tiered(100);

    put(&mut backend.cold, HEADERS, b"hash_cold_only", b"header_data");

    // The cold store has no such table: the read must not try it.
    let read = backend.begin_read().expect("read");
    let val = read.get(ACCOUNT_TRIE_NODES, b"nonexistent").expect("get");
    assert_eq!(val, None);

    // The warm table does fall through.
    let val = read.get(HEADERS, b"hash_cold_only").expect("get");
    assert_eq!(val, Some(b"header_data".to_vec()));
}

#[test]
fn hot_takes_precedence_over_cold() {
    let mut backend = make_tiered(100);

    put(&mut backend.hot, BODIES, b"hash2", b"hot_body");
    put(&mut backend.cold, BODIES, b"hash2", b"cold_body");

    let read = backend.begin_read().expect("read");
    let val = read.get(BODIES, b"hash2").expect("get");
    assert_eq!(val, Some(b"hot_body".to_vec()));
}

#[test]
fn prefix_iterator_merges_hot_and_cold() {
    let mut backend = make_tiered(100);

    let prefix = b"block_";

    put(&mut backend.hot, RECEIPTS, b"block_1_r0", b"receipt_hot");
    put(&mut backend.cold, RECEIPTS, b"block_1_r1", b"receipt_cold");

    let read = backend.begin_read().expect("read");
    let iter = read.prefix_iterator(RECEIPTS, prefix).expect("iter");
    let results = drain(iter);

    assert_eq!(results.len(), 2);
    assert!(results.iter().any(|(_, v)| v == b"receipt_hot"));
    assert!(results.iter().any(|(_, v)| v == b"receipt_cold"));
}

#[test]
fn prefix_iterator_deduplicates_keys() {
    let mut backend = make_tiered(100);

    let key = b"block_dup";

    put(&mut backend.hot, HEADERS, key, b"hot_version");
    put(&mut backend.cold, HEADERS, key, b"cold_version");

    let read = backend.begin_read().expect("read");
    let iter = read.prefix_iterator(HEADERS, b"block_").expect("iter");
    let results = drain(iter);

    // Only one entry: hot wins.
    assert_eq!(results.len(), 1);
    assert_eq!(results[0].1.to_vec(), b"hot_version".to_vec());
}

#[test]
fn migration_worker_moves_data_to_cold() {
    let mut backend = make_tiered(5);

    // Ten blocks: canonical hashes, headers, bodies.
    for block_num in 0u64..10 {
        let hash_key = format!("hash_{block_num}");
        let hash_bytes = hash_key.as_bytes();
        let header_data = format!("header_{block_num}");
        let body_data = format!("body_{block_num}");

        let mut w = backend.hot.begin_write().expect("write");
        w.put(CANONICAL_BLOCK_HASHES, &block_num.to_le_bytes(), hash_bytes);
        w.put(HEADERS, hash_bytes, header_data.as_bytes());
        w.put(BODIES, hash_bytes, body_data.as_bytes());
        backend.hot.commit(w).expect("commit");
    }

    // Head 10 with a window of 5: blocks 0..5 are to be migrated.
    backend.notify_head(10);

    let worker = MigrationWorker { hot_blocks: 5, shutdown: |_| false, head_block: 10 };

    let (migrated, _cursor, _cutoff) = worker
        .run_migration_pass(&mut backend.hot, &mut backend.cold)
        .expect("migration pass");
    assert!(migrated > 0, "should have migrated some blocks");

    // Block 0's header is now in cold and removed from hot.
    let hash_0 = b"hash_0";
    let cold_read = backend.cold.begin_read().expect("cold read");
    assert!(
        cold_read.get(HEADERS, hash_0).expect("get").is_some(),
        "header should be in cold"
    );

    let hot_read = backend.hot.begin_read().expect("hot read");
    assert!(
        hot_read.get(HEADERS, hash_0).expect("get").is_none(),
        "header should be removed from hot"
    );

    // Block 9's header is still in hot, within the window.
    let hash_9 = b"hash_9";
    assert!(
        hot_read.get(HEADERS, hash_9).expect("get").is_some(),
        "recent header should remain in hot"
    );

    // A read through both tiers finds both.
    let tiered_read = backend.begin_read().expect("tiered read");
    assert!(tiered_read.get(HEADERS, hash_0).expect("get").is_some());
    assert!(tiered_read.get(HEADERS, hash_9).expect("get").is_some());
}

#[test]
fn hot_window_has_a_least_size() {
    assert_eq!(make_tiered(0).hot_blocks(), 1_024);
    assert_eq!(make_tiered(1_023).hot_blocks(), 1_024);
    assert_eq!(make_tiered(1_024).hot_blocks(), 1_024);
    assert_eq!(make_tiered(1_025).hot_blocks(), 1_025);
    assert_eq!(make_tiered(DEFAULT_HOT_BLOCKS).hot_blocks(), 100_000);
}

#[test]
fn head_is_unknown_until_notified() {
    let mut backend = make_tiered(2_000);
    assert_eq!(backend.head_block, 0);
    backend.notify_head(77);
    assert_eq!(backend.head_block, 77);
    assert_eq!(backend.hot_blocks(), 2_000);
    let worker = backend.migration_worker(|_| true);
    assert_eq!(worker.head_block, 77);
    assert_eq!(worker.hot_blocks, 2_000);
    assert!((worker.shutdown)(0));
}

#[test]
fn cold_store_is_opened_with_the_warm_tables() {
    let opened = open_cold_db("dir", |path: &str, tables| {
        assert_eq!(path, "dir");
        Ok::<Vec<&'static str>, StoreError>(tables)
    });
    assert_eq!(opened.expect("open"), WARM_TABLES.to_vec());
    let refused: Result<(), StoreError> =
        open_cold_db("dir", |_, _| Err(StoreError::Custom("no space".to_string())));
    assert_eq!(refused, Err(StoreError::Custom("no space".to_string())));
}

#[test]
fn a_failure_to_open_either_store_is_handed_on() {
    let no_hot: Result<Tiered, StoreError> = TieredBackend::open(
        (),
        (),
        1,
        |_| Err(StoreError::Custom("hot".to_string())),
        |_, _| panic!("the cold store must not be opened"),
    );
    assert_eq!(no_hot.err(), Some(StoreError::Custom("hot".to_string())));
    let no_cold: Result<Tiered, StoreError> = TieredBackend::open(
        (),
        (),
        1,
        |_| Ok(InMemoryBackend::open()),
        |_, _| Err(StoreError::Custom("cold".to_string())),
    );
    assert_eq!(no_cold.err(), Some(StoreError::Custom("cold".to_string())));
}

#[test]
fn writes_go_to_the_hot_store() {
    let mut backend = make_tiered(100);
    put(&mut backend.cold, HEADERS, b"h", b"old");
    let mut w = backend.begin_write().expect("write");
    w.put(HEADERS, b"h", b"new");
    backend.commit(w).expect("commit");
    let read = backend.begin_read().expect("read");
    assert_eq!(read.get(HEADERS, b"h").expect("get"), Some(b"new".to_vec()));
    assert_eq!(read.cold.get(HEADERS, b"h").expect("get"), Some(b"old".to_vec()));
}

#[test]
fn a_deletion_uncovers_the_cold_entry() {
    let mut backend = make_tiered(100);
    put(&mut backend.cold, BODIES, b"h", b"old");
    put(&mut backend.hot, BODIES, b"h", b"new");
    let mut w = backend.begin_write().expect("write");
    w.delete(BODIES, b"h");
    backend.commit(w).expect("commit");
    let read = backend.begin_read().expect("read");
    assert_eq!(read.get(BODIES, b"h").expect("get"), Some(b"old".to_vec()));
}

#[test]
fn a_batch_takes_effect_in_its_order() {
    let mut backend = make_tiered(100);
    let mut w = backend.begin_write().expect("write");
    w.put(HEADERS, b"a", b"1");
    w.put(HEADERS, b"a", b"2");
    w.put_batch(BODIES, vec![(b"x".to_vec(), b"1".to_vec()), (b"x".to_vec(), b"2".to_vec())]);
    w.put(HEADERS, b"b", b"1");
    w.delete(HEADERS, b"b");
    backend.commit(w).expect("commit");
    let read = backend.begin_read().expect("read");
    assert_eq!(read.get(HEADERS, b"a").expect("get"), Some(b"2".to_vec()));
    assert_eq!(read.get(BODIES, b"x").expect("get"), Some(b"2".to_vec()));
    assert_eq!(read.get(HEADERS, b"b").expect("get"), None);
}

#[test]
fn a_batch_on_a_missing_table_changes_nothing() {
    let mut store = InMemoryBackend::open_with_tables(&[HEADERS]);
    let mut w = store.begin_write().expect("write");
    w.put(HEADERS, b"a", b"1");
    w.put(BODIES, b"a", b"1");
    assert_eq!(store.commit(w), Err(StoreError::TableNotFound(BODIES)));
    let read = store.begin_read().expect("read");
    assert_eq!(read.get(HEADERS, b"a"), Ok(None));
    assert_eq!(read.get(BODIES, b"a"), Err(StoreError::TableNotFound(BODIES)));
    assert!(read.prefix_iterator(BODIES, b"a").is_err());
}

#[test]
fn clearing_a_warm_table_clears_both_stores() {
    let mut backend = make_tiered(100);
    put(&mut backend.hot, HEADERS, b"a", b"1");
    put(&mut backend.cold, HEADERS, b"b", b"2");
    put(&mut backend.cold, BODIES, b"b", b"3");
    backend.clear_table(HEADERS).expect("clear");
    let read = backend.begin_read().expect("read");
    assert_eq!(read.get(HEADERS, b"a").expect("get"), None);
    assert_eq!(read.get(HEADERS, b"b").expect("get"), None);
    assert_eq!(read.get(BODIES, b"b").expect("get"), Some(b"3".to_vec()));
}

#[test]
fn clearing_a_hot_only_table_leaves_the_cold_store_alone() {
    let mut backend = make_tiered(100);
    put(&mut backend.hot, ACCOUNT_TRIE_NODES, b"a", b"1");
    // The cold store has no such table, so trying it would fail.
    backend.clear_table(ACCOUNT_TRIE_NODES).expect("clear");
    let read = backend.begin_read().expect("read");
    assert_eq!(read.get(ACCOUNT_TRIE_NODES, b"a").expect("get"), None);
    assert_eq!(backend.clear_table("no such table"), Err(StoreError::TableNotFound("no such table")));
}

#[test]
fn a_locked_view_reads_the_hot_store() {
    let mut backend = make_tiered(100);
    put(&mut backend.hot, ACCOUNT_TRIE_NODES, b"a", b"1");
    put(&mut backend.cold, HEADERS, b"b", b"2");
    let nodes = backend.begin_locked(ACCOUNT_TRIE_NODES).expect("locked");
    assert_eq!(nodes.get(b"a").expect("get"), Some(b"1".to_vec()));
    assert_eq!(nodes.get(b"b").expect("get"), None);
    let headers = backend.begin_locked(HEADERS).expect("locked");
    assert_eq!(headers.get(b"b").expect("get"), None);
    assert!(backend.begin_locked("no such table").is_err());
}

#[test]
fn a_checkpoint_is_made_of_the_hot_store() {
    let mut backend = make_tiered(100);
    put(&mut backend.hot, HEADERS, b"a", b"hot");
    let done = backend.create_checkpoint("there", |hot, path| {
        assert_eq!(path, "there");
        let read = hot.begin_read().expect("read");
        assert_eq!(read.get(HEADERS, b"a").expect("get"), Some(b"hot".to_vec()));
        Err(StoreError::Custom("disk full".to_string()))
    });
    assert_eq!(done, Err(StoreError::Custom("disk full".to_string())));
}

#[test]
fn a_scan_yields_hot_entries_first() {
    let mut backend = make_tiered(100);
    put(&mut backend.hot, RECEIPTS, b"p2", b"hot2");
    put(&mut backend.hot, RECEIPTS, b"p4", b"hot4");
    put(&mut backend.hot, RECEIPTS, b"q", b"other");
    put(&mut backend.cold, RECEIPTS, b"p1", b"cold1");
    put(&mut backend.cold, RECEIPTS, b"p2", b"cold2");
    put(&mut backend.cold, RECEIPTS, b"p3", b"cold3");
    let read = backend.begin_read().expect("read");
    let all = drain(read.prefix_iterator(RECEIPTS, b"p").expect("iter"));
    let expected: Vec<(Vec<u8>, Vec<u8>)> = vec![
        (b"p2".to_vec(), b"hot2".to_vec()),
        (b"p4".to_vec(), b"hot4".to_vec()),
        (b"p1".to_vec(), b"cold1".to_vec()),
        (b"p3".to_vec(), b"cold3".to_vec()),
    ];
    assert_eq!(all, expected);
}

#[test]
fn a_scan_of_a_hot_only_table_stays_hot() {
    let mut backend = make_tiered(100);
    put(&mut backend.hot, ACCOUNT_TRIE_NODES, b"p1", b"a");
    let read = backend.begin_read().expect("read");
    let all = drain(read.prefix_iterator(ACCOUNT_TRIE_NODES, b"").expect("iter"));
    assert_eq!(all, vec![(b"p1".to_vec(), b"a".to_vec())]);
}
