//! The static index: building, point lookups, and range scans.
use lsm_store::b_tree::{items_file_id, BTreeReader, BTreeWriter};
use lsm_store::cache_trait::{Cache, NoCache};
use lsm_store::PAGE_SIZE;

#[test]
fn test_writer_one_level() {
    let mut cache = NoCache::new();
    let mut writer = BTreeWriter::new(0, &mut cache);
    for i in 0..PAGE_SIZE / 16 {
        writer.add_item((i as i64, (i + 1) as i64), &mut cache);
    }
    assert_eq!(writer.finish(&mut cache), 1);
    let reader = BTreeReader::new(0, 0, &cache);
    for i in 0..PAGE_SIZE / 16 {
        let item = reader.get_item(i as i64, &mut cache);
        assert_eq!(item, Some((i + 1) as i64));
    }
    reader.delete(&mut cache);
}

#[test]
fn test_writer_level_2() {
    let mut cache = NoCache::new();
    let mut writer = BTreeWriter::new(0, &mut cache);
    for i in 0..PAGE_SIZE / 16 * PAGE_SIZE / 8 - 10 {
        writer.add_item((i as i64, (i + 1) as i64), &mut cache);
    }
    assert_eq!(writer.finish(&mut cache), 1);
    let reader = BTreeReader::new(0, 1, &cache);
    let item = reader.get_item(256, &mut cache);
    assert_eq!(item, Some(257));
    let item = reader.get_item(256 * 230, &mut cache);
    assert_eq!(item, Some(256 * 230 + 1));
    let item = reader.get_item(256 * 210 + 70, &mut cache);
    assert_eq!(item, Some(256 * 210 + 70 + 1));
    reader.delete(&mut cache);
}

#[test]
fn test_level_3() {
    let mut cache = NoCache::new();
    let mut writer = BTreeWriter::new(0, &mut cache);
    let length = PAGE_SIZE / 16 * PAGE_SIZE / 8 * 10;
    for i in 0..length {
        writer.add_item((i as i64, (i + 1) as i64), &mut cache);
    }
    assert_eq!(writer.finish(&mut cache), 2);
    let reader = BTreeReader::new(0, 2, &cache);
    let iter: Vec<_> = reader.into_level_iter(&mut cache);
    for i in 0..length {
        assert_eq!(iter[i], (i as i64, (i + 1) as i64));
    }
    assert_eq!(iter.len(), PAGE_SIZE / 16 * PAGE_SIZE / 8 * 10);
    let reader = BTreeReader::new(0, 2, &cache);
    assert_eq!(reader.get_item(length as i64 - 10, &mut cache), Some((length - 9) as i64));
    assert_eq!(cache.num_pages(items_file_id(0)) * 256, length as u64);
    let item = reader.get_item(256 * 256 * 5 + 70 + 1, &mut cache);
    assert_eq!(item, Some(256 * 256 * 5 + 70 + 2));
    let item = reader.get_item(256, &mut cache);
    assert_eq!(item, Some(257));
    let item = reader.get_item(256 * 230, &mut cache);
    assert_eq!(item, Some(256 * 230 + 1));
    let item = reader.get_item(256 * 210 + 70, &mut cache);
    assert_eq!(item, Some(256 * 210 + 70 + 1));
}

fn setup_btree(items: Vec<(i64, i64)>) -> (BTreeReader, NoCache) {
    let mut cache = NoCache::new();
    let mut writer = BTreeWriter::new(0, &mut cache);
    for item in items {
        writer.add_item(item, &mut cache);
    }
    let levels = writer.finish(&mut cache);
    let reader = BTreeReader::new(0, levels, &cache);
    (reader, cache)
}

#[test]
fn test_range_single_item() {
    let (reader, mut cache) = setup_btree(vec![(5, 50)]);
    let result = reader.range(0, 10, &mut cache);
    assert_eq!(result, vec![(5, 50)]);
}

#[test]
fn test_range_multiple_items() {
    let (reader, mut cache) = setup_btree(vec![(1, 10), (3, 30), (5, 50), (7, 70)]);
    let result = reader.range(2, 6, &mut cache);
    assert_eq!(result, vec![(3, 30), (5, 50)]);
}

#[test]
fn test_range_lower_bound() {
    let (reader, mut cache) = setup_btree(vec![(1, 10), (3, 30), (5, 50), (7, 70)]);
    let result = reader.range(3, 10, &mut cache);
    assert_eq!(result, vec![(3, 30), (5, 50), (7, 70)]);
}

#[test]
fn test_range_upper_bound() {
    let (reader, mut cache) = setup_btree(vec![(1, 10), (3, 30), (5, 50), (7, 70)]);
    let result = reader.range(0, 5, &mut cache);
    assert_eq!(result, vec![(1, 10), (3, 30), (5, 50)]);
}

#[test]
fn test_range_exact_bounds() {
    let (reader, mut cache) = setup_btree(vec![(1, 10), (3, 30), (5, 50), (7, 70)]);
    let result = reader.range(1, 7, &mut cache);
    assert_eq!(result, vec![(1, 10), (3, 30), (5, 50), (7, 70)]);
}

#[test]
fn test_range_out_of_bounds() {
    let (reader, mut cache) = setup_btree(vec![(1, 10), (3, 30), (5, 50), (7, 70)]);
    let result = reader.range(10, 20, &mut cache);
    assert_eq!(result, vec![]);
}

#[test]
fn test_range_large_dataset() {
    let items: Vec<_> = (0..10000).map(|i| (i, i * 10)).collect();
    let (reader, mut cache) = setup_btree(items);
    let item = reader.get_item(5000, &mut cache);
    assert_eq!(item, Some(50000));
    let result = reader.range(5000, 5010, &mut cache);
    assert_eq!(
        result,
        vec![
            (5000, 50000),
            (5001, 50010),
            (5002, 50020),
            (5003, 50030),
            (5004, 50040),
            (5005, 50050),
            (5006, 50060),
            (5007, 50070),
            (5008, 50080),
            (5009, 50090),
            (5010, 50100)
        ]
    );
}

#[test]
fn test_range_reverse_bounds() {
    let (reader, mut cache) = setup_btree(vec![(1, 10), (3, 30), (5, 50), (7, 70)]);
    let result = reader.range(7, 1, &mut cache);
    assert_eq!(result, vec![]);
}

#[test]
fn test_range_same_bounds() {
    let (reader, mut cache) = setup_btree(vec![(1, 10), (3, 30), (5, 50), (7, 70)]);
    let result = reader.range(5, 5, &mut cache);
    assert_eq!(result, vec![(5, 50)]);
}

#[test]
fn test_range_non_existent_bounds() {
    let (reader, mut cache) = setup_btree(vec![(1, 10), (3, 30), (5, 50), (7, 70)]);
    let result = reader.range(2, 6, &mut cache);
    assert_eq!(result, vec![(3, 30), (5, 50)]);
}

#[test]
fn test_range_with_duplicates() {
    let (reader, mut cache) = setup_btree(vec![(1, 10), (3, 30), (3, 31), (5, 50), (5, 51), (7, 70)]);
    let result = reader.range(2, 6, &mut cache);
    assert_eq!(result, vec![(3, 30), (3, 31), (5, 50), (5, 51)]);
}
