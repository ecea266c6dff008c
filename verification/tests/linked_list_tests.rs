//! The handle-addressed list.
use lsm_store::linked_list::LinkedList;

#[test]
fn test_numbers() {
    let mut linked_list_head = LinkedList::new();
    assert_eq!(linked_list_head.len(), 0);
    assert!(linked_list_head.is_empty());
    let first = linked_list_head.push_front(1);
    let second = linked_list_head.push_front(2);
    linked_list_head.push_front(3);
    assert_eq!(linked_list_head.len(), 3);
    assert_eq!(linked_list_head.to_vec(), vec![3, 2, 1]);
    linked_list_head.pop(second);
    assert_eq!(linked_list_head.to_vec(), vec![3, 1]);
    linked_list_head.pop_front();
    assert_eq!(linked_list_head.to_vec(), vec![1]);
    assert_eq!(linked_list_head.len(), 1);
    linked_list_head.pop(first);
    assert!(linked_list_head.to_vec() == Vec::<i32>::new());
    assert!(linked_list_head.len() == 0);
    for i in (0..1000).rev() {
        linked_list_head.push_front(i);
    }
    assert_eq!(linked_list_head.len(), 1000);
    let collected: Vec<i32> = linked_list_head.to_vec();
    assert_eq!(collected, (0..1000).collect::<Vec<_>>());
    assert_eq!(linked_list_head.len(), 1000);
    for _i in 0..999 {
        linked_list_head.pop_back();
    }
    let mut it = linked_list_head.iter();
    let mut found = None;
    while let Some(v) = it.next() {
        if v == 0 {
            found = Some(v);
        }
    }
    assert_eq!(found, Some(0));
    assert_eq!(linked_list_head.len(), 1);
    assert_eq!(linked_list_head.to_vec(), vec![0]);
}

#[test]
fn into_iter_drains_front_to_back() {
    let mut list = LinkedList::new();
    list.push_front(30);
    list.push_front(20);
    list.push_front(10);
    let mut it = list.into_iter();
    assert_eq!(it.next(), Some(10));
    assert_eq!(it.next(), Some(20));
    assert_eq!(it.next(), Some(30));
    assert_eq!(it.next(), None);
}

#[test]
fn test() {
}
