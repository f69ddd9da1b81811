use exact_reader::vec_deq::VecDeque;

fn contents(d: &VecDeque) -> Vec<u8> {
    let (a, b) = d.as_slices();
    let mut v = a.to_vec();
    v.extend_from_slice(b);
    v
}

fn check(d: &VecDeque, expected: &[u8]) {
    assert_eq!(contents(d), expected.to_vec());
    assert_eq!(d.len(), expected.len());
    assert!(d.len() <= d.capacity());
}

#[test]
fn ring_push_pop_both_ends_matches_history() {
    let mut d = VecDeque::new();
    check(&d, &[]);
    assert_eq!(d.pop_front(), None);
    assert_eq!(d.pop_back(), None);

    d.push_back(2);
    check(&d, &[2]);
    d.push_back(3);
    check(&d, &[2, 3]);
    d.push_front(1);
    check(&d, &[1, 2, 3]);
    assert_eq!(d.front(), Some(1));
    assert_eq!(d.back(), Some(3));

    assert_eq!(d.pop_front(), Some(1));
    check(&d, &[2, 3]);
    assert_eq!(d.pop_back(), Some(3));
    check(&d, &[2]);
    d.push_front(9);
    d.push_back(8);
    check(&d, &[9, 2, 8]);
}

#[test]
fn ring_wraparound_keeps_order() {
    let mut d = VecDeque::with_capacity(4);
    assert_eq!(d.capacity(), 4);
    d.push_back(1);
    d.push_back(2);
    d.push_back(3);
    d.push_back(4);
    assert_eq!(d.pop_front(), Some(1));
    assert_eq!(d.pop_front(), Some(2));
    // The next pushes wrap past the end of the allocation.
    d.push_back(5);
    d.push_back(6);
    check(&d, &[3, 4, 5, 6]);
    assert_eq!(d.capacity(), 4);
    let (a, b) = d.as_slices();
    assert!(!b.is_empty());
    assert_eq!(a, &[3, 4]);
    assert_eq!(b, &[5, 6]);

    // Growing a wrapped buffer relocates a segment but keeps the order.
    d.push_back(7);
    check(&d, &[3, 4, 5, 6, 7]);
    assert_eq!(d.capacity(), 8);
}

#[test]
fn ring_grows_by_doubling_with_a_floor() {
    let mut d = VecDeque::new();
    assert_eq!(d.capacity(), 0);
    d.push_back(1);
    assert_eq!(d.capacity(), 8);
    let mut i = 0u8;
    while d.len() < 8 {
        d.push_back(i);
        i += 1;
    }
    d.push_back(99);
    assert_eq!(d.capacity(), 16);
    assert_eq!(d.len(), 9);
}

#[test]
fn ring_extend_both_ends() {
    let mut d = VecDeque::new();
    d.extend_back(&[3, 4]);
    check(&d, &[3, 4]);
    d.extend_front(&[1, 2]);
    check(&d, &[1, 2, 3, 4]);
    d.extend_back(&[5, 6, 7, 8, 9]);
    check(&d, &[1, 2, 3, 4, 5, 6, 7, 8, 9]);
    d.extend_front(&[]);
    check(&d, &[1, 2, 3, 4, 5, 6, 7, 8, 9]);
}

#[test]
fn ring_clear_front_and_back_drop_only_when_more_is_held() {
    let mut d = VecDeque::new();
    d.extend_back(&[1, 2, 3, 4, 5]);
    d.clear_front(2);
    check(&d, &[3, 4, 5]);
    d.clear_back(1);
    check(&d, &[3, 4]);
    // Dropping as many bytes as are held (or more) is a no-op.
    d.clear_front(2);
    check(&d, &[3, 4]);
    d.clear_back(5);
    check(&d, &[3, 4]);
}

#[test]
fn ring_get_contains_and_swap() {
    let mut d = VecDeque::new();
    d.extend_back(&[10, 20, 30]);
    assert_eq!(d.get(0), Some(10));
    assert_eq!(d.get(2), Some(30));
    assert_eq!(d.get(3), None);
    assert!(d.contains(&20));
    assert!(!d.contains(&99));
    d.swap(0, 2);
    check(&d, &[30, 20, 10]);
}

#[test]
fn ring_swap_remove_both_ends() {
    let mut d = VecDeque::new();
    d.extend_back(&[1, 2, 3, 4]);
    assert_eq!(d.swap_remove_front(2), Some(3));
    check(&d, &[2, 1, 4]);
    assert_eq!(d.swap_remove_back(0), Some(2));
    check(&d, &[4, 1]);
    assert_eq!(d.swap_remove_front(5), None);
    check(&d, &[4, 1]);
}

#[test]
fn ring_insert_and_remove_shift_around_the_ring() {
    let mut d = VecDeque::with_capacity(4);
    d.extend_back(&[1, 2, 4]);
    // Wrap the live range before editing in the middle.
    d.pop_front();
    d.push_back(5);
    d.push_front(1);
    d.push_front(0);
    check(&d, &[0, 1, 2, 4, 5]);

    d.insert(3, 3);
    check(&d, &[0, 1, 2, 3, 4, 5]);
    d.insert(0, 9);
    check(&d, &[9, 0, 1, 2, 3, 4, 5]);
    d.insert(7, 6);
    check(&d, &[9, 0, 1, 2, 3, 4, 5, 6]);

    assert_eq!(d.remove(0), Some(9));
    check(&d, &[0, 1, 2, 3, 4, 5, 6]);
    assert_eq!(d.remove(6), Some(6));
    check(&d, &[0, 1, 2, 3, 4, 5]);
    assert_eq!(d.remove(2), Some(2));
    check(&d, &[0, 1, 3, 4, 5]);
    assert_eq!(d.remove(9), None);
    check(&d, &[0, 1, 3, 4, 5]);
}

#[test]
fn ring_binary_search_sorted() {
    let mut d = VecDeque::new();
    d.extend_back(&[2, 4, 4, 6, 9]);
    assert!(matches!(d.binary_search(&4), Ok(1) | Ok(2)));
    assert_eq!(d.binary_search(&2), Ok(0));
    assert_eq!(d.binary_search(&9), Ok(4));
    assert_eq!(d.binary_search(&1), Err(0));
    assert_eq!(d.binary_search(&5), Err(3));
    assert_eq!(d.binary_search(&10), Err(5));
}

#[test]
fn ring_binary_search_by_comparator() {
    let mut d = VecDeque::new();
    d.extend_back(&[10, 20, 30, 40]);
    assert_eq!(d.binary_search_by(|v| v.cmp(&30)), Ok(2));
    assert_eq!(d.binary_search_by(|v| v.cmp(&35)), Err(3));
    assert_eq!(d.binary_search_by(|v| v.cmp(&5)), Err(0));
    assert_eq!(d.binary_search_by(|v| v.cmp(&99)), Err(4));
}

#[test]
fn ring_binary_search_by_key_doubled() {
    let mut d = VecDeque::new();
    d.extend_back(&[5, 10, 15, 20]);
    assert_eq!(d.binary_search_by_key(&30, |v| v * 2), Ok(2));
    assert_eq!(d.binary_search_by_key(&25, |v| v * 2), Err(2));
    assert_eq!(d.binary_search_by_key(&0, |v| v * 2), Err(0));
}

#[test]
fn ring_partition_point_and_retain() {
    let mut d = VecDeque::new();
    d.extend_back(&[1, 3, 5, 4, 2]);
    assert_eq!(d.partition_point(|v| v % 2 == 1), 3);
    assert_eq!(d.partition_point(|_| false), 0);
    assert_eq!(d.partition_point(|_| true), 5);

    d.retain(|v| v % 2 == 0);
    check(&d, &[4, 2]);
    d.retain(|_| false);
    check(&d, &[]);
}

#[test]
fn ring_make_contiguous_unifies_the_slices() {
    let mut d = VecDeque::with_capacity(4);
    d.extend_back(&[1, 2, 3, 4]);
    d.pop_front();
    d.pop_front();
    d.push_back(5);
    d.push_back(6);
    let (_, b) = d.as_slices();
    assert!(!b.is_empty());
    d.make_contiguous();
    let (a, b) = d.as_slices();
    assert_eq!(a, &[3, 4, 5, 6]);
    assert!(b.is_empty());
    assert_eq!(d.capacity(), 4);
}

#[test]
fn ring_append_moves_everything() {
    let mut a = VecDeque::new();
    a.extend_back(&[1, 2]);
    let mut b = VecDeque::new();
    b.extend_back(&[3, 4, 5]);
    a.append(&mut b);
    check(&a, &[1, 2, 3, 4, 5]);
    check(&b, &[]);
}

#[test]
fn ring_rotations() {
    let mut d = VecDeque::new();
    d.extend_back(&[1, 2, 3, 4, 5]);
    d.rotate_left(2);
    check(&d, &[3, 4, 5, 1, 2]);
    d.rotate_right(2);
    check(&d, &[1, 2, 3, 4, 5]);
    d.rotate_left(5);
    check(&d, &[1, 2, 3, 4, 5]);
    d.rotate_right(0);
    check(&d, &[1, 2, 3, 4, 5]);
    d.rotate_left(4);
    check(&d, &[5, 1, 2, 3, 4]);
}

#[test]
fn ring_split_off_keeps_order_and_allocation() {
    let mut d = VecDeque::with_capacity(8);
    d.extend_back(&[1, 2, 3, 4, 5]);
    let tail = d.split_off(2);
    check(&d, &[1, 2]);
    check(&tail, &[3, 4, 5]);
    assert_eq!(d.capacity(), 8);
    assert_eq!(tail.capacity(), 3);

    let mut d2 = VecDeque::new();
    d2.extend_back(&[7, 8]);
    let all = d2.split_off(0);
    check(&d2, &[]);
    check(&all, &[7, 8]);
}

#[test]
fn ring_shrink_to_respects_the_floor_of_held_bytes() {
    let mut d = VecDeque::with_capacity(16);
    d.extend_back(&[1, 2, 3, 4]);
    d.shrink_to(8);
    check(&d, &[1, 2, 3, 4]);
    assert_eq!(d.capacity(), 8);
    d.shrink_to(2);
    check(&d, &[1, 2, 3, 4]);
    assert_eq!(d.capacity(), 4);
    d.shrink_to(10);
    assert_eq!(d.capacity(), 4);
}

#[test]
fn ring_pushes_within_capacity_do_not_reallocate() {
    let mut d = VecDeque::with_capacity(4);
    d.push_back(1);
    assert_eq!(d.capacity(), 4);
    d.push_front(0);
    assert_eq!(d.capacity(), 4);
    d.insert(1, 9);
    assert_eq!(d.capacity(), 4);
    d.extend_back(&[5]);
    assert_eq!(d.capacity(), 4);
    check(&d, &[0, 9, 1, 5]);
    d.push_back(6);
    assert_eq!(d.capacity(), 8);
}

#[test]
fn ring_truncate_clear_and_shrink() {
    let mut d = VecDeque::with_capacity(16);
    d.extend_back(&[1, 2, 3, 4, 5]);
    d.truncate(3);
    check(&d, &[1, 2, 3]);
    d.truncate(9);
    check(&d, &[1, 2, 3]);
    d.shrink_to_fit();
    check(&d, &[1, 2, 3]);
    assert_eq!(d.capacity(), 3);
    d.clear();
    check(&d, &[]);
    assert!(d.is_empty());
}
