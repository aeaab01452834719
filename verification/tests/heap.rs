use miniscript_taproot::heap::{key_le, HeapKey, MinHeap};

fn key(weight: u128, age: usize) -> HeapKey {
    HeapKey { weight, age }
}

fn drain(heap: &mut MinHeap) -> Vec<(u128, usize)> {
    let mut order = Vec::new();
    while let Some(least) = heap.pop() {
        order.push((least.weight, least.age));
    }
    order
}

#[test]
fn keys_order_by_weight_then_age() {
    assert!(key_le(key(1, 9), key(2, 0)));
    assert!(!key_le(key(2, 0), key(1, 9)));
    assert!(key_le(key(3, 1), key(3, 2)));
    assert!(!key_le(key(3, 2), key(3, 1)));
    assert!(key_le(key(3, 3), key(3, 3)));
}

#[test]
fn empty_heap_gives_nothing() {
    let mut heap = MinHeap::new();
    assert_eq!(heap.len(), 0);
    assert!(heap.pop().is_none());
    assert_eq!(heap.len(), 0);
}

#[test]
fn heap_gives_keys_in_order() {
    let mut heap = MinHeap::new();
    for (age, weight) in [5u128, 1, 4, 1, 9, 2, 6, 5, 3, 5].iter().enumerate() {
        heap.push(key(*weight, age));
    }
    assert_eq!(heap.len(), 10);
    assert_eq!(
        drain(&mut heap),
        vec![(1, 1), (1, 3), (2, 5), (3, 8), (4, 2), (5, 0), (5, 7), (5, 9), (6, 6), (9, 4)]
    );
    assert_eq!(heap.len(), 0);
}

#[test]
fn heap_takes_keys_between_pops() {
    let mut heap = MinHeap::new();
    heap.push(key(2, 0));
    heap.push(key(2, 1));
    heap.push(key(1, 2));
    let first = heap.pop().unwrap();
    assert_eq!((first.weight, first.age), (1, 2));
    heap.push(key(2, 3));
    heap.push(key(0, 4));
    assert_eq!(drain(&mut heap), vec![(0, 4), (2, 0), (2, 1), (2, 3)]);
}

#[test]
fn heap_of_equal_weights_is_a_queue() {
    let mut heap = MinHeap::new();
    for age in (0..100usize).rev() {
        heap.push(key(7, age));
    }
    let order: Vec<usize> = drain(&mut heap).into_iter().map(|(_, age)| age).collect();
    assert_eq!(order, (0..100usize).collect::<Vec<_>>());
}
