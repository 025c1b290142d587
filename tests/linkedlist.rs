use classic_structures::linkedlist::DoublyLinkedList;

#[test]
fn build_linkedlist() {
    let mut dll = DoublyLinkedList::<i32>::new();
    dll.push_front(1);
    dll.push_front(2);
    dll.push_front(3);
    dll.push_front(4);
    dll.push_front(5);
    assert_eq!(dll.pop_front().unwrap().value, 5);
    assert_eq!(dll.pop_front().unwrap().value, 4);
    assert_eq!(dll.pop_front().unwrap().value, 3);
    assert_eq!(dll.pop_front().unwrap().value, 2);
    assert_eq!(dll.pop_front().unwrap().value, 1);
    assert!(dll.pop_front().is_none());
    assert!(dll.pop_back().is_none());
    dll.push_back(1);
    dll.push_back(2);
    dll.push_back(3);
    dll.push_back(4);
    dll.push_back(5);
    assert_eq!(dll.pop_back().unwrap().value, 5);
    assert_eq!(dll.pop_back().unwrap().value, 4);
    assert_eq!(dll.pop_back().unwrap().value, 3);
    assert_eq!(dll.pop_back().unwrap().value, 2);
    assert_eq!(dll.pop_back().unwrap().value, 1);
    assert!(dll.pop_back().is_none());
}

#[test]
fn push_back_pop_front_keeps_order() {
    let mut dll = DoublyLinkedList::<u64>::new();
    for v in 0..20u64 {
        dll.push_back(v * 3);
    }
    assert_eq!(dll.len(), 20);
    for v in 0..20u64 {
        let node = dll.pop_front().unwrap();
        assert_eq!(node.value, v * 3);
        assert!(node.prev.is_none());
        assert!(node.next.is_none());
    }
    assert!(dll.pop_front().is_none());
    assert_eq!(dll.len(), 0);
}

#[test]
fn push_front_pop_front_reverses() {
    let mut dll = DoublyLinkedList::<char>::new();
    for c in ['a', 'b', 'c'] {
        dll.push_front(c);
    }
    assert_eq!(dll.pop_front().unwrap().value, 'c');
    assert_eq!(dll.pop_front().unwrap().value, 'b');
    assert_eq!(dll.pop_front().unwrap().value, 'a');
    assert!(dll.pop_front().is_none());
}

#[test]
fn empty_pops_keep_size() {
    let mut dll = DoublyLinkedList::<i8>::new();
    assert!(dll.pop_front().is_none());
    assert!(dll.pop_back().is_none());
    assert_eq!(dll.len(), 0);
    dll.push_back(4);
    assert_eq!(dll.len(), 1);
    assert_eq!(dll.pop_front().unwrap().value, 4);
    assert!(dll.pop_back().is_none());
    assert_eq!(dll.len(), 0);
}

#[test]
fn mixed_ends() {
    let mut dll = DoublyLinkedList::<i32>::new();
    dll.push_back(2);
    dll.push_front(1);
    dll.push_back(3);
    assert_eq!(dll.pop_back().unwrap().value, 3);
    assert_eq!(dll.pop_front().unwrap().value, 1);
    assert_eq!(dll.pop_back().unwrap().value, 2);
    assert!(dll.pop_front().is_none());
}

#[test]
fn long_queue_use_stays_correct() {
    let mut dll = DoublyLinkedList::<u32>::new();
    for round in 0..1000u32 {
        dll.push_back(round);
        dll.push_back(round + 1);
        assert_eq!(dll.pop_front().unwrap().value, round);
        assert_eq!(dll.pop_back().unwrap().value, round + 1);
        assert_eq!(dll.len(), 0);
    }
    dll.push_front(7);
    dll.push_back(8);
    dll.push_front(6);
    assert_eq!(dll.pop_front().unwrap().value, 6);
    assert_eq!(dll.pop_front().unwrap().value, 7);
    assert_eq!(dll.pop_front().unwrap().value, 8);
}
