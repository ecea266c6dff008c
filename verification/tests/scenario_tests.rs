//! End-to-end scenarios over the whole store.
use lsm_store::cache_trait::NoCache;
use lsm_store::database::Database;

#[test]
fn fill_two_memtables_and_read_back() {
    let mut db: Database<NoCache> = Database::create(NoCache::new(), 1000);
    for i in 0..2000 {
        db.insert(i, i).unwrap();
    }
    for i in 0..2000 {
        assert_eq!(db.get(i), Some(i));
    }
    assert!(db.b_trees.iter().any(|s| s.is_some()));
}

#[test]
fn small_range() {
    let mut db: Database<NoCache> = Database::create(NoCache::new(), 100);
    db.insert(5, 50).unwrap();
    db.insert(3, 30).unwrap();
    db.insert(7, 70).unwrap();
    db.insert(1, 10).unwrap();
    assert_eq!(db.range(2, 6), vec![(3, 30), (5, 50)]);
}

#[test]
fn range_across_flushes() {
    let mut db: Database<NoCache> = Database::create(NoCache::new(), 1000);
    for k in 0..10000 {
        db.insert(k, k).unwrap();
    }
    let expect: Vec<(i64, i64)> = (5000..=5010).map(|k| (k, k)).collect();
    assert_eq!(db.range(5000, 5010), expect);
}

#[test]
fn last_write_wins_after_flush() {
    let mut db: Database<NoCache> = Database::create(NoCache::new(), 100);
    db.insert(5, 1).unwrap();
    db.insert(5, 2).unwrap();
    db.insert(5, 3).unwrap();
    db.close().unwrap();
    assert_eq!(db.mem_table.len(), 0);
    assert_eq!(db.get(5), Some(3));
}

#[test]
fn reversed_range_is_empty() {
    let mut db: Database<NoCache> = Database::create(NoCache::new(), 100);
    for k in 0..10 {
        db.insert(k, k).unwrap();
    }
    assert_eq!(db.range(7, 1), vec![]);
}

#[test]
fn insert_descending_read_back() {
    let mut db: Database<NoCache> = Database::create(NoCache::new(), 64);
    for i in (0..500).rev() {
        db.insert(i, i + 7).unwrap();
    }
    for i in 0..500 {
        assert_eq!(db.get(i), Some(i + 7));
    }
    assert_eq!(db.get(500), None);
    assert_eq!(db.get(-1), None);
}

#[test]
fn range_deduplicates_across_memtable_and_slots() {
    let mut db: Database<NoCache> = Database::create(NoCache::new(), 4);
    for k in 0..5 {
        db.insert(k, k).unwrap();
    }
    // overwrite keys that already sit in a slot
    db.insert(0, 100).unwrap();
    db.insert(2, 102).unwrap();
    assert_eq!(db.range(0, 10), vec![(0, 100), (1, 1), (2, 102), (3, 3), (4, 4)]);
}

#[test]
fn negative_keys_round_trip() {
    let mut db: Database<NoCache> = Database::create(NoCache::new(), 8);
    for i in -50..50 {
        db.insert(i, -i).unwrap();
    }
    for i in -50..50 {
        assert_eq!(db.get(i), Some(-i));
    }
    let expect: Vec<(i64, i64)> = (-3..=3).map(|k| (k, -k)).collect();
    assert_eq!(db.range(-3, 3), expect);
}
