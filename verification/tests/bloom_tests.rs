//! The blocked bloom filter: no false negatives, few false positives.
use lsm_store::bloom_filter::{BloomFilterReader, BloomFilterWriter};
use lsm_store::cache_trait::{Cache, NoCache};
use lsm_store::PAGE_SIZE;

#[test]
fn test_bloom_filter_one_page() {
    let mut cache = NoCache::new();
    let mut bloom_filter_writer = BloomFilterWriter::new(100);
    for i in 0..100 {
        bloom_filter_writer.add_key(i);
    }
    bloom_filter_writer.write_to_disk(1, &mut cache);
    let bloom_filter_reader = BloomFilterReader::new(1, &cache);
    assert_eq!(bloom_filter_reader.num_pages, 1);
    for i in 0..100 {
        assert!(bloom_filter_reader.check_item(i, &mut cache));
    }
    for i in 100..200 {
        assert!(!bloom_filter_reader.check_item(i, &mut cache));
    }
}

#[test]
fn test_bloom_filter_two_pages() {
    let mut cache = NoCache::new();
    let mut bloom_filter_writer = BloomFilterWriter::new((PAGE_SIZE * 2) as u64);
    for i in 0..1000 {
        bloom_filter_writer.add_key(i);
    }
    bloom_filter_writer.write_to_disk(1, &mut cache);
    let bloom_filter_reader = BloomFilterReader::new(1, &cache);
    assert_eq!(bloom_filter_reader.num_pages, 2);
    for i in 0..1000 {
        assert!(bloom_filter_reader.check_item(i, &mut cache));
    }
    for i in 1000..2000 {
        assert!(!bloom_filter_reader.check_item(i, &mut cache));
    }
}

#[test]
fn bloom_false_positive_rate() {
    let mut cache = NoCache::new();
    let mut writer = BloomFilterWriter::new(1000);
    for i in 0..1000 {
        writer.add_key(i);
    }
    writer.write_to_disk(1, &mut cache);
    let reader = BloomFilterReader::new(1, &cache);
    assert_eq!(reader.num_pages, 1);
    for i in 0..1000 {
        assert!(reader.check_item(i, &mut cache));
    }
    let mut false_positives = 0;
    for i in 1000..1100 {
        if reader.check_item(i, &mut cache) {
            false_positives += 1;
        }
    }
    assert!(false_positives <= 8);
}

#[test]
fn add_key_is_idempotent_bit_for_bit() {
    let mut cache = NoCache::new();
    let mut once = BloomFilterWriter::new(300);
    let mut twice = BloomFilterWriter::new(300);
    for i in 0..300 {
        once.add_key(i);
        twice.add_key(i);
        twice.add_key(i);
    }
    once.write_to_disk(1, &mut cache);
    twice.write_to_disk(2, &mut cache);
    let pages = cache.num_pages(1);
    assert_eq!(pages, cache.num_pages(2));
    for p in 0..pages {
        let a = cache.get_page(1, p, true, false);
        let b = cache.get_page(2, p, true, false);
        assert_eq!(a.as_slice_i64(), b.as_slice_i64());
    }
}
