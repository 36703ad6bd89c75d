use magnumdb::config::Config;
use magnumdb::storage::btree::{BTree, Node, MAX_KEY_SIZE};
use magnumdb::storage::buffer_pool::BufferPool;
use magnumdb::storage::pager::{Page, Pager, PagerError};
use magnumdb::storage::{Database, StorageError};

fn setup_btree() -> BTree {
    let pager = Pager::new();
    let buffer_pool = BufferPool::new(pager, 100);
    BTree::new(buffer_pool).unwrap()
}

fn test_config(wal_enabled: bool) -> Config {
    let mut config = Config::default();
    config.wal.enabled = wal_enabled;
    config.storage.sync_interval = 0;
    config
}

#[test]
fn test_pager_round_trip() {
    let mut pager = Pager::new();

    // Page 0 initialized automatically
    assert_eq!(pager.num_pages(), 1);

    let page_id = pager.allocate_page();
    assert_eq!(page_id, 1);
    assert_eq!(pager.num_pages(), 2);

    let mut page = Page::default();
    page.data[0] = 42;
    page.data[4095] = 99;

    pager.write_page(page_id, &page);

    let read_page = pager.read_page(page_id);
    assert_eq!(read_page.data[0], 42);
    assert_eq!(read_page.data[4095], 99);
}

#[test]
fn test_pager_free_list_recycling() {
    let mut pager = Pager::new();

    let page1 = pager.allocate_page();
    let page2 = pager.allocate_page();

    pager.free_page(page1);

    let reused_page = pager.allocate_page();
    assert_eq!(reused_page, page1);

    let new_page = pager.allocate_page();
    assert_ne!(new_page, page1);
    assert_ne!(new_page, page2);
}

#[test]
fn test_pager_magic_bytes_validation() {
    // A new store carries the magic bytes, so reopening its image succeeds.
    let image = Pager::new().to_image();
    assert!(Pager::from_image(&image).is_ok());
    let reopened = Pager::from_image(&image).unwrap();
    assert!(Pager::from_image(&reopened.to_image()).is_ok());
}

#[test]
fn pager_rejects_image_without_magic() {
    let image = vec![0u8; 4096];
    assert!(matches!(Pager::from_image(&image), Err(PagerError::MagicMismatch)));
}

#[test]
fn pager_image_round_trip_keeps_pages() {
    let mut pager = Pager::new();
    let id = pager.allocate_page();
    let mut page = Page::default();
    page.data[7] = 7;
    pager.write_page(id, &page);
    let image = pager.to_image();
    assert_eq!(image.len(), 2 * 4096);
    let reopened = Pager::from_image(&image).unwrap();
    assert_eq!(reopened.num_pages(), 2);
    assert_eq!(reopened.read_page(id).data[7], 7);
}

#[test]
fn test_pager_checkpoint_lsn() {
    let mut pager = Pager::new();

    assert_eq!(pager.read_checkpoint_lsn(), 0);
    pager.write_checkpoint_lsn(42);
    assert_eq!(pager.read_checkpoint_lsn(), 42);
}

#[test]
fn test_buffer_pool_eviction() {
    let pager = Pager::new();
    let mut pool = BufferPool::new(pager, 2);

    let id0 = pool.allocate_page();
    let id1 = pool.allocate_page();
    let id2 = pool.allocate_page();

    for (id, value) in [(id0, 100u8), (id1, 101u8), (id2, 102u8)] {
        let mut p = pool.fetch_page(id);
        p.data[0] = value;
        pool.write_page(id, &p);
        pool.mark_dirty(id);
    }

    // Page 0 of the three was evicted from a pool of two frames, so the store holds it.
    let read_page0 = pool.pager().read_page(id0);
    assert_eq!(read_page0.data[0], 100);
}

#[test]
fn test_buffer_pool_flush_and_sync() {
    let pager = Pager::new();
    let mut pool = BufferPool::new(pager, 10);

    let id = pool.allocate_page();
    {
        let mut p = pool.fetch_page(id);
        p.data[0] = 77;
        pool.write_page(id, &p);
        pool.mark_dirty(id);
    }

    pool.flush_and_sync();

    let read_page = pool.pager().read_page(id);
    assert_eq!(read_page.data[0], 77);
}

#[test]
fn buffer_pool_reads_back_a_write_before_flush() {
    let mut pool = BufferPool::new(Pager::new(), 4);
    let id = pool.allocate_page();
    let mut p = pool.fetch_page(id);
    p.data[10] = 9;
    pool.write_page(id, &p);
    assert_eq!(pool.fetch_page(id).data[10], 9);
}

#[test]
fn buffer_pool_capacity_zero_still_caches_one_page() {
    let mut pool = BufferPool::new(Pager::new(), 0);
    let id = pool.allocate_page();
    let mut p = pool.fetch_page(id);
    p.data[1] = 5;
    pool.write_page(id, &p);
    assert_eq!(pool.fetch_page(id).data[1], 5);
}

#[test]
fn test_btree_insert_get_delete() {
    let mut btree = setup_btree();

    btree.insert(b"key1", b"value1").unwrap();
    btree.insert(b"key2", b"value2").unwrap();

    assert_eq!(btree.search(b"key1").unwrap().unwrap(), b"value1");
    assert_eq!(btree.search(b"key2").unwrap().unwrap(), b"value2");
    assert!(btree.search(b"key3").unwrap().is_none());

    btree.delete(b"key1").unwrap();
    assert!(btree.search(b"key1").unwrap().is_none());
    assert_eq!(btree.search(b"key2").unwrap().unwrap(), b"value2");
}

#[test]
fn test_btree_overflow_large_record() {
    let mut btree = setup_btree();
    let key = b"large_key";
    let val = vec![42u8; 10000]; // 10KB payload

    btree.insert(key, &val).unwrap();
    let read_val = btree.search(key).unwrap().unwrap();
    assert_eq!(read_val, val);

    btree.delete(key).unwrap();
    assert!(btree.search(key).unwrap().is_none());
}

#[test]
fn test_btree_rejects_oversized_key() {
    let mut btree = setup_btree();
    let big_key = vec![b'x'; MAX_KEY_SIZE + 1];
    let result = btree.insert(&big_key, b"val");
    assert!(result.is_err());
    assert_eq!(result, Err(StorageError::KeyTooLarge { size: MAX_KEY_SIZE + 1 }));
}

#[test]
fn test_btree_prefix_scan() {
    let mut btree = setup_btree();
    btree.insert(b"user:1", b"alice").unwrap();
    btree.insert(b"user:2", b"bob").unwrap();
    btree.insert(b"post:1", b"hello").unwrap();

    let users = btree.scan_prefix(b"user:").unwrap();
    assert_eq!(users.len(), 2);
    assert_eq!(users[0].0, b"user:1");
    assert_eq!(users[1].0, b"user:2");

    let posts = btree.scan_prefix(b"post:").unwrap();
    assert_eq!(posts.len(), 1);
    assert_eq!(posts[0].0, b"post:1");
}

#[test]
fn test_btree_split_behavior() {
    let mut btree = setup_btree();

    for i in 0..300 {
        let key = format!("key{:03}", i);
        let val = format!("val{:03}", i);
        btree.insert(key.as_bytes(), val.as_bytes()).unwrap();
    }

    for i in 0..300 {
        let key = format!("key{:03}", i);
        let val = format!("val{:03}", i);
        assert_eq!(btree.search(key.as_bytes()).unwrap().unwrap(), val.as_bytes());
    }

    let root_id = btree.root_page_id();
    let root = btree.read_node(root_id);
    assert!(matches!(root, Node::Internal(_)));
}

#[test]
fn test_btree_randomized_sequence() {
    // A fixed linear congruential sequence drives inserts, deletes and lookups.
    let mut btree = setup_btree();
    let mut reference = std::collections::BTreeMap::new();
    let mut state: u64 = 42;
    let mut next = |bound: u64| {
        state = state.wrapping_mul(6364136223846793005).wrapping_add(1442695040888963407);
        (state >> 33) % bound
    };

    for _ in 0..1000 {
        let op = next(100);
        let key = format!("k{}", next(200));
        if op < 70 {
            let val = format!("v{}", next(1000));
            btree.insert(key.as_bytes(), val.as_bytes()).unwrap();
            reference.insert(key, val);
        } else if op < 85 {
            btree.delete(key.as_bytes()).unwrap();
            reference.remove(&key);
        } else {
            let res = btree.search(key.as_bytes()).unwrap();
            match reference.get(&key) {
                Some(v) => assert_eq!(res.unwrap(), v.as_bytes()),
                None => assert!(res.is_none()),
            }
        }
    }

    for (k, v) in reference {
        assert_eq!(btree.search(k.as_bytes()).unwrap().unwrap(), v.as_bytes());
    }
}

#[test]
fn btree_scan_lists_all_pairs_in_key_order() {
    let mut btree = setup_btree();
    btree.insert(b"b", b"2").unwrap();
    btree.insert(b"a", b"1").unwrap();
    btree.insert(b"c", b"3").unwrap();
    let all = btree.scan().unwrap();
    let keys: Vec<Vec<u8>> = all.iter().map(|p| p.0.clone()).collect();
    assert_eq!(keys, vec![b"a".to_vec(), b"b".to_vec(), b"c".to_vec()]);
}

#[test]
fn btree_reopens_from_a_flushed_store() {
    let mut btree = setup_btree();
    btree.insert(b"persist", b"me").unwrap();
    btree.flush_all();
    let image = btree.buffer_pool().pager().to_image();
    let pager = Pager::from_image(&image).unwrap();
    let mut reopened = BTree::new(BufferPool::new(pager, 10)).unwrap();
    assert_eq!(reopened.search(b"persist").unwrap().unwrap(), b"me");
}

#[test]
fn test_database_close_wal_disabled() {
    let config = test_config(false);
    let image = {
        let mut db = Database::open(config.clone(), &[], &[]).unwrap();
        db.put(b"hello", b"world").unwrap();
        db.close() // Should flush data to btree pages
    };

    let mut db = Database::open(config, &image, &[]).unwrap();
    let val = db.get(b"hello").unwrap().unwrap();
    assert_eq!(val, b"world");
}

#[test]
fn test_database_wal_checkpoint() {
    let config = test_config(true);
    let image = {
        let mut db = Database::open(config.clone(), &[], &[]).unwrap();
        for i in 0..100 {
            let k = format!("k{}", i);
            let v = format!("v{}", i);
            db.put(k.as_bytes(), v.as_bytes()).unwrap();
        }
        db.close() // Checkpoints: the log is no longer needed
    };

    // After close the log is truncated: reopen with an empty log.
    let mut db = Database::open(config, &image, &[]).unwrap();
    for i in 0..100 {
        let k = format!("k{}", i);
        let v = format!("v{}", i);
        let val = db.get(k.as_bytes()).unwrap().unwrap();
        assert_eq!(val, v.as_bytes());
    }
}

#[test]
fn test_database_tx_commit_durable() {
    let config = test_config(true);

    let (image, log) = {
        let mut db = Database::open(config.clone(), &[], &[]).unwrap();
        db.begin_tx(1).unwrap();
        db.put_with_tx(1, b"txkey", b"txval").unwrap();
        db.commit_tx(1).unwrap();
        // Don't call close — simulate crash: only the store and the log survive.
        (db.data_image(), db.take_wal_frames())
    };

    let mut db = Database::open(config, &image, &log).unwrap();
    let val = db.get(b"txkey").unwrap();
    assert!(val.is_some());
    assert_eq!(val.unwrap(), b"txval");
}

#[test]
fn test_wal_crash_recovery() {
    let mut config = test_config(true);
    config.wal.sync_on_write = true;

    // Phase 1: Write and "Crash"
    let (image, log) = {
        let mut db = Database::open(config.clone(), &[], &[]).expect("Failed to open db");
        db.put(b"key1", b"value1").unwrap();
        db.put(b"key2", b"value2").unwrap();
        db.put(b"key1", b"value1_updated").unwrap();
        assert!(db.take_wal_sync_request());
        // The pool is not flushed: the data is only safely in the log.
        (db.data_image(), db.take_wal_frames())
    };

    // Phase 2: Recover
    let mut db = Database::open(config, &image, &log).expect("Failed to recover db");
    // key1 was updated
    assert_eq!(db.get(b"key1").unwrap(), Some(b"value1_updated".to_vec()));
    // key2 should exist
    assert_eq!(db.get(b"key2").unwrap(), Some(b"value2".to_vec()));
}

#[test]
fn database_rolled_back_transaction_is_not_recovered() {
    let config = test_config(true);
    let (image, log) = {
        let mut db = Database::open(config.clone(), &[], &[]).unwrap();
        db.begin_tx(7).unwrap();
        db.put_with_tx(7, b"gone", b"x").unwrap();
        db.rollback_tx(7).unwrap();
        (Pager::new().to_image(), db.take_wal_frames())
    };
    let mut db = Database::open(config, &image, &log).unwrap();
    assert_eq!(db.get(b"gone").unwrap(), None);
}

#[test]
fn database_open_rejects_a_store_without_magic() {
    let image = vec![1u8; 4096];
    assert!(Database::open(test_config(false), &image, &[]).is_err());
}

#[test]
fn test_write_after_checkpoint_survives_crash() {
    let config = test_config(true);
    let image = {
        let mut db = Database::open(config.clone(), &[], &[]).unwrap();
        for i in 0..5 {
            let k = format!("k{}", i);
            db.put(k.as_bytes(), b"old").unwrap();
        }
        db.close()
    };
    let (image2, log2) = {
        let mut db = Database::open(config.clone(), &image, &[]).unwrap();
        db.put(b"after", b"checkpoint").unwrap();
        // Crash: only the store as it stands and the log survive.
        (db.data_image(), db.take_wal_frames())
    };
    let mut db = Database::open(config, &image2, &log2).unwrap();
    assert_eq!(db.get(b"after").unwrap(), Some(b"checkpoint".to_vec()));
    assert_eq!(db.get(b"k3").unwrap(), Some(b"old".to_vec()));
}

#[test]
fn test_new_store_replays_committed_log() {
    let config = test_config(true);
    let log = {
        let mut db = Database::open(config.clone(), &[], &[]).unwrap();
        db.put(b"a", b"1").unwrap();
        db.put(b"b", b"2").unwrap();
        db.delete(b"a").unwrap();
        db.take_wal_frames()
    };
    let mut db = Database::open(config, &[], &log).unwrap();
    assert_eq!(db.get(b"a").unwrap(), None);
    assert_eq!(db.get(b"b").unwrap(), Some(b"2".to_vec()));
}
