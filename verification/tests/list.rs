use fixed_containers::List;

fn list_of(elems: &[u32], capacity: usize) -> List<u32> {
    let mut list = List::new(capacity);
    for e in elems {
        list.push_back(*e);
    }
    list
}

#[test]
fn list_test_push_back() {
    let mut list = List::<u32>::new(10);
    let mut exp_backing = [None; 10];
    let mut exp_len = 0;

    assert_eq!(list.arr, exp_backing);
    assert_eq!(list.len, exp_len);

    list.push_back(1);
    exp_backing[0] = Some(1);
    exp_len = 1;

    assert_eq!(list.arr, exp_backing);
    assert_eq!(list.len, exp_len);

    list.push_back(2);
    exp_backing[1] = Some(2);
    exp_len += 1;

    assert_eq!(list.arr, exp_backing);
    assert_eq!(list.len, exp_len);

    list.push_back(3);
    exp_backing[2] = Some(3);
    exp_len += 1;

    assert_eq!(list.arr, exp_backing);
    assert_eq!(list.len, exp_len);

    list.push_back(4);
    exp_backing[3] = Some(4);
    exp_len += 1;

    assert_eq!(list.arr, exp_backing);
    assert_eq!(list.len, exp_len);

    list.push_back(5);
    exp_backing[4] = Some(5);
    exp_len += 1;

    assert_eq!(list.arr, exp_backing);
    assert_eq!(list.len, exp_len);

    list.push_back(6);
    exp_backing[5] = Some(6);
    exp_len += 1;

    assert_eq!(list.arr, exp_backing);
    assert_eq!(list.len, exp_len);
    list.push_back(7);
    exp_backing[6] = Some(7);
    exp_len += 1;

    assert_eq!(list.arr, exp_backing);
    assert_eq!(list.len, exp_len);
    list.push_back(8);
    exp_backing[7] = Some(8);
    exp_len += 1;

    assert_eq!(list.arr, exp_backing);
    assert_eq!(list.len, exp_len);
    list.push_back(9);
    exp_backing[8] = Some(9);
    exp_len += 1;

    assert_eq!(list.arr, exp_backing);
    assert_eq!(list.len, exp_len);
    list.push_back(0);
    exp_backing[9] = Some(0);
    exp_len += 1;

    assert_eq!(list.arr, exp_backing);
    assert_eq!(list.len, exp_len);
}

#[test]
fn test_list_macro() {
    let list: List<u32> = list_of(&[1, 2, 3, 4, 5, 6, 7, 8, 9, 0], 10);
    assert_eq!(list.len, 10);
    assert_eq!(list.arr, [1, 2, 3, 4, 5, 6, 7, 8, 9, 0].map(Some))
}

#[test]
fn test_pop_back() {
    let mut list: List<u32> = list_of(&[1, 2, 3, 4, 5, 6, 7, 8, 9, 0], 10);
    let mut exp_arr = list.arr.clone();
    let mut exp_len = list.len();

    assert_eq!(list.arr, exp_arr);
    assert_eq!(list.len, exp_len);

    assert_eq!(list.pop_back(), Some(0));
    exp_arr[9] = None;
    exp_len -= 1;

    assert_eq!(list.arr, exp_arr);
    assert_eq!(list.len, exp_len);

    assert_eq!(list.pop_back(), Some(9));
    exp_arr[8] = None;
    exp_len -= 1;

    assert_eq!(list.arr, exp_arr);
    assert_eq!(list.len, exp_len);

    assert_eq!(list.pop_back(), Some(8));
    exp_arr[7] = None;
    exp_len -= 1;

    assert_eq!(list.arr, exp_arr);
    assert_eq!(list.len, exp_len);

    assert_eq!(list.remove(exp_len - 1), 7);
    exp_arr[6] = None;
    exp_len -= 1;

    assert_eq!(list.arr, exp_arr);
    assert_eq!(list.len, exp_len);

    assert_eq!(list.pop_back(), Some(6));
    exp_arr[5] = None;
    exp_len -= 1;

    assert_eq!(list.arr, exp_arr);
    assert_eq!(list.len, exp_len);

    assert_eq!(list.pop_back(), Some(5));
    exp_arr[4] = None;
    exp_len -= 1;

    assert_eq!(list.arr, exp_arr);
    assert_eq!(list.len, exp_len);

    assert_eq!(list.pop_back(), Some(4));
    exp_arr[3] = None;
    exp_len -= 1;

    assert_eq!(list.arr, exp_arr);
    assert_eq!(list.len, exp_len);

    assert_eq!(list.pop_back(), Some(3));
    exp_arr[2] = None;
    exp_len -= 1;

    assert_eq!(list.arr, exp_arr);
    assert_eq!(list.len, exp_len);

    assert_eq!(list.pop_back(), Some(2));
    exp_arr[1] = None;
    exp_len -= 1;

    assert_eq!(list.arr, exp_arr);
    assert_eq!(list.len, exp_len);

    assert_eq!(list.pop_back(), Some(1));
    exp_arr[0] = None;
    exp_len -= 1;

    assert_eq!(list.arr, exp_arr);
    assert_eq!(list.len, exp_len);

    assert_eq!(list.pop_back(), None);
    assert_eq!(list.arr, exp_arr);
    assert_eq!(list.len, exp_len);
}

#[test]
fn list_test_remove() {
    let mut list: List<u32> = list_of(&[1, 2, 3, 4, 5], 10);
    let mut exp_arr = list.arr.clone();

    list.remove(2);
    exp_arr[2] = Some(4);
    exp_arr[3] = Some(5);
    exp_arr[4] = None;

    assert_eq!(list.len, 4);
    assert_eq!(list.arr, exp_arr);
}

#[test]
fn test_remove_by() {
    let mut list: List<u32> = list_of(&[1, 2, 3, 4, 5], 10);
    let mut exp_arr = list.arr.clone();

    list.remove_by(|i| i * i == 9);
    exp_arr[2] = Some(4);
    exp_arr[3] = Some(5);
    exp_arr[4] = None;

    assert_eq!(list.len, 4);
    assert_eq!(list.arr, exp_arr);
}

#[test]
fn list_test_index() {
    let list: List<u32> = list_of(&[0, 1, 2, 3, 4, 5, 6, 7, 8, 9], 10);
    for i in 0..10 {
        assert_eq!(i, *list.index(i) as usize);
    }
}

#[test]
fn list_test_iter() {
    let list: List<u32> = list_of(&[0, 1, 2, 3, 4, 5, 6, 7, 8, 9], 10);
    let mut it = list.iter();
    let mut i = 0usize;
    while let Some(n) = it.next() {
        assert_eq!(i, *n as usize);
        i += 1;
    }
    assert_eq!(i, 10);
}

#[test]
fn list_test_remove_by_last_match() {
    let mut list: List<u32> = list_of(&[2, 7, 2, 9], 10);
    // the last matching element is the one removed
    assert_eq!(list.remove_by(|i| *i == 2), Some(2));
    assert_eq!(list.len, 3);
    assert_eq!(list.arr[0], Some(2));
    assert_eq!(list.arr[1], Some(7));
    assert_eq!(list.arr[2], Some(9));
    assert_eq!(list.remove_by(|i| *i > 100), None);
    assert_eq!(list.len, 3);
}

#[test]
fn list_test_index_mut() {
    let mut list: List<u32> = list_of(&[1, 2, 3], 10);
    *list.index_mut(1) = 20;
    assert_eq!(*list.index(1), 20);
    assert_eq!(list.len, 3);
}
