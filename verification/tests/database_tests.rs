//! The database facade over the in-memory page store.
use lsm_store::cache_trait::NoCache;
use lsm_store::database::{get_level_number, Database, Error};
use lsm_store::TOMBSTONE;

#[test]
fn level_number() {
    assert_eq!(get_level_number("b_tree_10_hello_world.world"), 10);
}

#[test]
fn level_number_edges() {
    assert_eq!(get_level_number("b_tree_0"), 0);
    assert_eq!(get_level_number("b_tree_"), usize::MAX);
    assert_eq!(get_level_number("bloom_3"), usize::MAX);
    assert_eq!(get_level_number("b_tree_99999999999999999999999"), usize::MAX);
}

#[test]
fn test_database_small() {
    let mut database: Database<NoCache> = Database::create(NoCache::new(), 1000);
    for i in 0..2000 {
        database.insert(i, i).unwrap();
    }
    for i in 0..2000 {
        assert_eq!(database.get(i), Some(i));
    }
}

#[test]
fn test_database_larger() {
    let mut database: Database<NoCache> = Database::create(NoCache::new(), 1000);
    for i in 0..8000 {
        database.insert(i, i).unwrap();
    }
    for i in 0..8000 {
        assert_eq!(database.get(i), Some(i));
    }
}

#[test]
fn test_database_larger2() {
    let mut database: Database<NoCache> = Database::create(NoCache::new(), 1000);
    for i in 0..8001 {
        database.insert(i, i).unwrap();
    }
    for i in 0..8001 {
        assert_eq!(database.get(i), Some(i));
    }
}

#[test]
fn sentinel_rejected() {
    let mut db: Database<NoCache> = Database::create(NoCache::new(), 10);
    assert_eq!(db.insert(5, TOMBSTONE), Err(Error::InvalidValue));
    assert_eq!(db.insert(TOMBSTONE, 5), Err(Error::InvalidValue));
    assert_eq!(db.get(5), None);
    db.insert(5, 50).unwrap();
    assert_eq!(db.get(5), Some(50));
    assert_eq!(db.get(TOMBSTONE), None);
}

#[test]
fn memtable_fullness_triggers_one_flush() {
    let mut db: Database<NoCache> = Database::create(NoCache::new(), 10);
    for i in 0..10 {
        db.insert(i, i).unwrap();
    }
    assert_eq!(db.b_trees.len(), 0);
    assert_eq!(db.mem_table.len(), 10);
    db.insert(10, 10).unwrap();
    assert_eq!(db.b_trees.len(), 1);
    assert!(db.b_trees[0].is_some());
    assert_eq!(db.mem_table.len(), 1);
    for i in 11..20 {
        db.insert(i, i).unwrap();
    }
    assert_eq!(db.b_trees.len(), 1);
    assert_eq!(db.mem_table.len(), 10);
    for i in 0..20 {
        assert_eq!(db.get(i), Some(i));
    }
}

#[test]
fn overwrite_across_levels() {
    let mut db: Database<NoCache> = Database::create(NoCache::new(), 4);
    for round in 0..6 {
        for k in 0..8 {
            db.insert(k, k * 100 + round).unwrap();
        }
    }
    for k in 0..8 {
        assert_eq!(db.get(k), Some(k * 100 + 5));
    }
}

#[test]
fn close_and_reopen() {
    let mut db: Database<NoCache> = Database::create(NoCache::new(), 4);
    for i in 0..9 {
        db.insert(i, i * 2).unwrap();
    }
    let manifest = db.close().unwrap();
    assert_eq!(manifest.max_mem_table_size, 4);
    assert_eq!(manifest.b_trees_file_names_and_levels.len(), db.b_trees.len());
    for (i, entry) in manifest.b_trees_file_names_and_levels.iter().enumerate() {
        match &db.b_trees[i] {
            Some(slot) => assert_eq!(*entry, Some((i as u64, slot.b_tree.levels))),
            None => assert_eq!(*entry, None),
        }
    }
    let Database { cache, .. } = db;
    let mut db2: Database<NoCache> = Database::open(cache, &manifest);
    for i in 0..9 {
        assert_eq!(db2.get(i), Some(i * 2));
    }
    assert_eq!(db2.get(100), None);
}
