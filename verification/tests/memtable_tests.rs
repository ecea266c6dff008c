//! The in-memory ordered table.
use lsm_store::avl_tree::{MemoryTable, Node};

#[test]
fn avl_tree_test_insert() {
    let mut mem_table = MemoryTable::new(100);
    for i in 0..100 {
        assert!(mem_table.insert(i, i));
    }
    assert!(!mem_table.insert(100, 100));
    for i in 0..100 {
        assert_eq!(mem_table.get(i), Some(i));
    }
}

#[test]
pub fn into_iter2() {
    let num = 2;
    let mut root = Node::new(0, 0);
    let mut mem_table = MemoryTable::new(100);
    for i in 0..num {
        mem_table.insert(i, i);
    }
    let mut root2 = Node::new(0, 0);
    for i in 1..num {
        root = Node::insert(Some(root), i, i);
        root2 = Node::insert(Some(root2), i, i);
    }
    let iter = mem_table.iter();
    let iter2 = root2.into_iter();
    for i in 0..num {
        assert_eq!(iter2[i as usize], (i, i));
        assert_eq!(iter[i as usize], (i, i));
    }
    let expect: Vec<(i64, i64)> = (0..num).map(|x| (x, x)).collect();
    assert_eq!(mem_table.iter(), expect);
    assert_eq!(root.into_iter(), expect);
}

#[test]
pub fn into_iter() {
    let mut root = Node::new(0, 0);
    let mut root2 = Node::new(0, 0);
    for i in 1..100 {
        root = Node::insert(Some(root), i, i);
        root2 = Node::insert(Some(root2), i, i);
    }
    let iter2 = root2.into_iter();
    for i in 0..100 {
        assert_eq!(iter2[i as usize], (i, i));
    }
    let expect: Vec<(i64, i64)> = (0..100).map(|x| (x, x)).collect();
    assert_eq!(root.into_iter(), expect);
}

#[test]
fn test_scan() {
    let mut mem_table = MemoryTable::new(1000);
    for i in 500..1000 {
        assert!(mem_table.insert(i, i));
    }
    let expect: Vec<(i64, i64)> = (500..1000).map(|x| (x, x)).collect();
    assert_eq!(mem_table.scan(0, 1000), expect);
}

#[test]
fn test_scan_on_insert_backwards() {
    let mut mem_table = MemoryTable::new(10000);
    for i in (500..10000).rev() {
        assert!(mem_table.insert(i, i));
    }
    let expect: Vec<(i64, i64)> = (500..10000).map(|x| (x, x)).collect();
    assert_eq!(mem_table.scan(0, 10000), expect);
}

#[test]
fn overwrite_keeps_count() {
    let mut mem_table = MemoryTable::new(10);
    assert!(mem_table.insert(1, 10));
    let before = mem_table.len();
    assert!(mem_table.insert(1, 20));
    assert_eq!(mem_table.len(), before);
    assert_eq!(mem_table.get(1), Some(20));
}

#[test]
fn overwrite_succeeds_at_capacity() {
    let mut mem_table = MemoryTable::new(2);
    assert!(mem_table.insert(1, 10));
    assert!(mem_table.insert(2, 20));
    assert!(!mem_table.insert(3, 30));
    assert!(mem_table.insert(2, 25));
    assert_eq!(mem_table.get(2), Some(25));
    assert_eq!(mem_table.len(), 2);
}
