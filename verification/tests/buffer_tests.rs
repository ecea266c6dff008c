//! The page buffer's typed views.
use lsm_store::buffer::Buffer;
use lsm_store::{PAGE_SIZE_I64, TOMBSTONE};

#[test]
fn test_buffer() {
    let mut buffer = Buffer::new();
    for i in 0..PAGE_SIZE_I64 {
        buffer.set_word(i, i as i64);
    }
    for i in 0..PAGE_SIZE_I64 {
        assert_eq!(buffer.as_slice_i64()[i], i as i64);
    }
    for i in 0..PAGE_SIZE_I64 / 2 {
        assert_eq!(buffer.pair_at(i), (i as i64 * 2 as i64, i as i64 * 2 + 1 as i64));
    }
    for i in 0..PAGE_SIZE_I64 / 2 {
        buffer.set_pair(i, (i as i64, i as i64));
    }
    for i in 0..PAGE_SIZE_I64 / 2 {
        assert_eq!(buffer.pair_at(i), (i as i64, i as i64));
        assert_eq!(buffer.as_slice_i64()[i * 2], i as i64);
    }
}

#[test]
fn check_empty_buffer() {
    let buffer = Buffer::new();
    assert_eq!(buffer.as_slice_i64(), vec![TOMBSTONE; PAGE_SIZE_I64].as_slice());
}

#[test]
fn byte_view_round_trip() {
    let mut buffer = Buffer::new_0();
    buffer.set_word(0, 0x0102030405060708);
    buffer.set_word(511, -1);
    let bytes = buffer.as_slice_u8();
    assert_eq!(bytes.len(), 4096);
    assert_eq!(bytes[0], 0x08);
    assert_eq!(bytes[7], 0x01);
    assert_eq!(bytes[4095], 0xFF);
    let lines = buffer.as_cache_lines();
    assert_eq!(lines.len(), 64);
    assert_eq!(lines[0][0], 0x08);
    assert_eq!(lines[63][63], 0xFF);
}

#[test]
fn bit_ops() {
    let mut buffer = Buffer::new_0();
    assert!(!buffer.test_bit(3, 77));
    buffer.set_bit(3, 77);
    assert!(buffer.test_bit(3, 77));
    buffer.set_bit(3, 511);
    assert!(buffer.test_bit(3, 77));
    assert!(buffer.test_bit(3, 511));
    assert!(!buffer.test_bit(4, 77));
}
