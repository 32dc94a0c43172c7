use index_list::{ForwardIter, IndexList};

fn values(list: &IndexList<u32>) -> Vec<u32> {
    let mut out = Vec::new();
    let mut it = list.iter();
    while let Some(v) = it.next() {
        out.push(*v);
    }
    out
}

#[test]
fn push_back_keeps_insertion_order() {
    let mut list: IndexList<u32> = IndexList::new();
    for v in [5, 3, 9, 1] {
        list.push_back(v);
    }
    assert_eq!(values(&list), vec![5, 3, 9, 1]);
}

#[test]
fn push_front_reverses_insertion_order() {
    let mut list: IndexList<u32> = IndexList::new();
    for v in [5, 3, 9, 1] {
        list.push_front(v);
    }
    assert_eq!(values(&list), vec![1, 9, 3, 5]);
}

#[test]
fn push_front_three_scenario() {
    let mut list: IndexList<u32> = IndexList::new();
    list.push_front(100);
    list.push_front(200);
    list.push_front(300);
    assert_eq!(list.head(), Some(&300));
    assert_eq!(list.tail(), Some(&100));
    assert_eq!(values(&list), vec![300, 200, 100]);
}

#[test]
fn interleaved_front_and_back() {
    let mut list: IndexList<u32> = IndexList::new();
    list.push_back(2);
    list.push_front(1);
    list.push_back(3);
    list.push_front(0);
    assert_eq!(values(&list), vec![0, 1, 2, 3]);
    assert_eq!(list.head(), Some(&0));
    assert_eq!(list.tail(), Some(&3));
    let mut owned = Vec::new();
    let mut it = list.into_iter();
    while let Some(v) = it.next() {
        owned.push(v);
    }
    assert_eq!(owned, vec![0, 1, 2, 3]);
}

#[test]
fn remove_then_reuse_scenario() {
    let mut list: IndexList<u32> = IndexList::new();
    list.push_back(100);
    list.push_back(200);
    let key_300 = list.push_back(300);
    list.push_back(400);
    list.push_back(500);
    assert_eq!(list.remove(&key_300), Some(300));
    assert_eq!(values(&list), vec![100, 200, 400, 500]);
    assert_eq!(list.tail(), Some(&500));
    assert_eq!(list.next_free(), Some(2));
    let key_900 = list.push_back(900);
    assert_eq!(list.slot_count(), 5);
    assert_eq!(key_900.generation(), 1);
    assert_eq!(list.get(&key_300), None);
    assert_eq!(list.tail(), Some(&900));
    assert_eq!(values(&list), vec![100, 200, 400, 500, 900]);
}

#[test]
fn stale_handle_stays_absent_after_reuse() {
    let mut list: IndexList<u32> = IndexList::new();
    let old = list.push_back(7);
    assert_eq!(list.remove(&old), Some(7));
    let new = list.push_front(8);
    assert_eq!(list.slot_count(), 1);
    assert_eq!(list.get(&old), None);
    assert_eq!(list.get_mut(&old), None);
    assert_eq!(list.remove(&old), None);
    assert_eq!(list.get(&new), Some(&8));
    assert_eq!(list.generation(), 1);
}

#[test]
fn second_remove_returns_none() {
    let mut list: IndexList<u32> = IndexList::new();
    let a = list.push_back(1);
    list.push_back(2);
    assert_eq!(list.remove(&a), Some(1));
    assert_eq!(list.remove(&a), None);
    assert_eq!(list.generation(), 1);
    assert_eq!(values(&list), vec![2]);
}

#[test]
fn remove_sole_element_empties_list() {
    let mut list: IndexList<u32> = IndexList::new();
    let a = list.push_back(1);
    assert_eq!(list.remove(&a), Some(1));
    assert_eq!(list.head(), None);
    assert_eq!(list.tail(), None);
    assert_eq!(list.head_index(), None);
    assert_eq!(list.tail_index(), None);
    list.push_back(2);
    list.push_back(3);
    assert_eq!(values(&list), vec![2, 3]);
    assert_eq!(list.head(), Some(&2));
    assert_eq!(list.tail(), Some(&3));
}

#[test]
fn remove_head_and_tail_move_ends() {
    let mut list: IndexList<u32> = IndexList::new();
    let a = list.push_back(1);
    list.push_back(2);
    list.push_back(3);
    let d = list.push_back(4);
    assert_eq!(list.remove(&a), Some(1));
    assert_eq!(list.head(), Some(&2));
    assert_eq!(list.head_index(), Some(1));
    assert_eq!(list.remove(&d), Some(4));
    assert_eq!(list.tail(), Some(&3));
    assert_eq!(list.tail_index(), Some(2));
    assert_eq!(values(&list), vec![2, 3]);
}

#[test]
fn free_slots_are_reused_last_freed_first() {
    let mut list: IndexList<u32> = IndexList::new();
    let a = list.push_back(1);
    let b = list.push_back(2);
    list.push_back(3);
    list.remove(&a);
    list.remove(&b);
    assert_eq!(list.next_free(), Some(1));
    list.push_back(4);
    assert_eq!(list.next_free(), Some(0));
    list.push_back(5);
    assert_eq!(list.next_free(), None);
    assert_eq!(list.slot_count(), 3);
    assert_eq!(values(&list), vec![3, 4, 5]);
}

#[test]
fn generation_unaffected_by_insert_and_lookup() {
    let mut list: IndexList<u32> = IndexList::new();
    let a = list.push_back(1);
    list.push_front(2);
    let _ = list.get(&a);
    let _ = list.head();
    assert_eq!(list.generation(), 0);
    list.remove(&a);
    assert_eq!(list.generation(), 1);
    list.remove(&a);
    assert_eq!(list.generation(), 1);
}

#[test]
fn mutable_access_writes_through() {
    let mut list: IndexList<u32> = IndexList::new();
    let a = list.push_back(1);
    let b = list.push_back(2);
    list.push_back(3);
    if let Some(v) = list.get_mut(&b) {
        *v = 20;
    }
    if let Some(v) = list.head_mut() {
        *v = 10;
    }
    if let Some(v) = list.tail_mut() {
        *v = 30;
    }
    assert_eq!(values(&list), vec![10, 20, 30]);
    assert_eq!(list.get(&a), Some(&10));
}

#[test]
fn empty_list_accessors() {
    let mut list: IndexList<u32> = IndexList::default();
    assert_eq!(list.head_mut(), None);
    assert_eq!(list.tail_mut(), None);
    assert_eq!(values(&list), Vec::<u32>::new());
    let mut it = list.into_iter();
    assert_eq!(it.next(), None);
}

#[test]
fn into_iter_yields_each_value_once() {
    let mut list: IndexList<u32> = IndexList::new();
    let keys: Vec<_> = (0..6u32).map(|v| list.push_back(v)).collect();
    list.remove(&keys[0]);
    list.remove(&keys[3]);
    let mut out = Vec::new();
    let mut it = list.into_iter();
    while let Some(v) = it.next() {
        out.push(v);
    }
    assert_eq!(out, vec![1, 2, 4, 5]);
    assert_eq!(it.next(), None);
}

#[test]
fn forward_iter_from_a_slot() {
    let mut list: IndexList<u32> = IndexList::new();
    list.push_back(1);
    list.push_back(2);
    list.push_back(3);
    let mut it = ForwardIter::new(&list, Some(1));
    assert_eq!(it.next(), Some(&2));
    assert_eq!(it.next(), Some(&3));
    assert_eq!(it.next(), None);
    let mut none = ForwardIter::new(&list, None);
    assert_eq!(none.next(), None);
}
