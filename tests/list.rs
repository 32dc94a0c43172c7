use index_list::IndexList;

#[test]
fn it_works() {
    let test_list: IndexList<usize> = IndexList::new();
    assert_eq!(test_list.slot_count(), 0);
    assert_eq!(test_list.generation(), 0);
    assert_eq!(test_list.next_free(), None);
    assert_eq!(test_list.head_index(), None);
    assert_eq!(test_list.tail_index(), None);
}

#[test]
fn test_with_capacity() {
    let test_list: IndexList<usize> = IndexList::new_with_capacity(10);
    assert_eq!(test_list.capacity(), 10);
    assert_eq!(test_list.generation(), 0);
    assert_eq!(test_list.next_free(), None);
    assert_eq!(test_list.head_index(), None);
    assert_eq!(test_list.tail_index(), None);
}

#[test]
fn test_push_back_item() {
    let mut test_list: IndexList<usize> = IndexList::new();
    assert_eq!(test_list.head(), None);
    assert_eq!(test_list.tail(), None);

    test_list.push_back(100);
    assert_eq!(test_list.head(), Some(&100));

    test_list.push_back(200);
    test_list.push_back(300);
    test_list.push_back(400);

    assert_eq!(test_list.head(), Some(&100));
    assert_eq!(test_list.tail(), Some(&400));

    assert_eq!(test_list.head_mut(), Some(&mut 100));
    assert_eq!(test_list.tail_mut(), Some(&mut 400));
}

#[test]
fn test_push_forward_item() {
    let mut test_list: IndexList<usize> = IndexList::new();
    assert_eq!(test_list.head(), None);
    assert_eq!(test_list.tail(), None);

    test_list.push_front(100);
    assert_eq!(test_list.head(), Some(&100));

    test_list.push_front(200);
    test_list.push_front(300);
    test_list.push_front(400);

    assert_eq!(test_list.head(), Some(&400));
    assert_eq!(test_list.tail(), Some(&100));
}

#[test]
fn test_key_values() {
    let mut test_list: IndexList<usize> = IndexList::new();

    let key_100 = test_list.push_back(100);
    let key_200 = test_list.push_back(200);
    let key_300 = test_list.push_back(300);
    let key_400 = test_list.push_back(400);

    assert_eq!(test_list.get(&key_100), Some(&100));
    assert_eq!(test_list.get(&key_200), Some(&200));
    assert_eq!(test_list.get(&key_300), Some(&300));
    assert_eq!(test_list.get(&key_400), Some(&400));

    assert_eq!(test_list.get_mut(&key_100), Some(&mut 100));
    assert_eq!(test_list.get_mut(&key_200), Some(&mut 200));
    assert_eq!(test_list.get_mut(&key_300), Some(&mut 300));
    assert_eq!(test_list.get_mut(&key_400), Some(&mut 400));
}

#[test]
fn test_remove() {
    let mut test_list: IndexList<usize> = IndexList::new();

    let key_100 = test_list.push_back(100);
    test_list.push_back(200);
    let key_300 = test_list.push_back(300);
    test_list.push_back(400);
    test_list.push_back(500);

    let val_300 = test_list.remove(&key_300);

    assert_eq!(val_300, Some(300));
    assert_eq!(test_list.get(&key_300), None);
    assert_eq!(test_list.generation(), 1);

    // The freed slot is used again
    let key_900 = test_list.push_back(900);
    assert_eq!(key_900.generation(), 1);
    assert_eq!(test_list.get(&key_900), Some(&900));
    assert_eq!(test_list.tail(), Some(&900));

    // The head moves on
    let val_100 = test_list.remove(&key_100);
    assert_eq!(val_100, Some(100));
    assert_eq!(test_list.generation(), 2);
    assert_eq!(test_list.head(), Some(&200));

    // The tail moves back
    test_list.remove(&key_900);
    assert_eq!(test_list.generation(), 3);
    assert_eq!(test_list.tail(), Some(&500));
}

#[test]
fn test_iter() {
    let mut test_list: IndexList<usize> = IndexList::new();

    test_list.push_back(100);
    test_list.push_back(200);
    let key = test_list.push_back(300);
    test_list.push_back(400);
    test_list.push_back(500);

    let mut iter = test_list.iter();
    assert_eq!(iter.next(), Some(&100));
    assert_eq!(iter.next(), Some(&200));
    assert_eq!(iter.next(), Some(&300));
    assert_eq!(iter.next(), Some(&400));
    assert_eq!(iter.next(), Some(&500));
    assert_eq!(iter.next(), None);
    drop(iter);

    test_list.remove(&key);
    let mut iter = test_list.iter();
    assert_eq!(iter.next(), Some(&100));
    assert_eq!(iter.next(), Some(&200));
    assert_eq!(iter.next(), Some(&400));
    assert_eq!(iter.next(), Some(&500));
    assert_eq!(iter.next(), None);
}

#[test]
fn test_into_iter() {
    let mut test_list: IndexList<usize> = IndexList::new();

    test_list.push_back(100);
    test_list.push_back(200);
    test_list.push_back(300);
    test_list.push_back(400);

    let mut iter = test_list.into_iter();
    assert_eq!(iter.next(), Some(100));
    assert_eq!(iter.next(), Some(200));
    assert_eq!(iter.next(), Some(300));
    assert_eq!(iter.next(), Some(400));
    assert_eq!(iter.next(), None);
}
