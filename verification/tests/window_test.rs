use ferrous_ta::{Accumulator, SlidingWindow};

#[test]
fn window_new_is_empty() {
    let w = SlidingWindow::<_, 12>::new(0);
    assert_eq!(w.length(), 0);
    assert_eq!(w.capacity(), 12);
    assert_eq!(w.index(), 0);
    assert!(w.iter().is_empty());
}

#[test]
fn window_from_slice_keeps_last_items() {
    let w = SlidingWindow::<_, 3>::from_slice(&[3, 6, 12, 24]).unwrap();
    assert_eq!(w.iter(), vec![6, 12, 24]);
    assert_eq!(w.length(), 3);
    assert_eq!(w.index(), 0);
}

#[test]
fn window_from_short_slice_is_none() {
    assert!(SlidingWindow::<i32, 3>::from_slice(&[1, 2]).is_none());
    assert!(SlidingWindow::<i32, 3>::from_slice(&[]).is_none());
    assert!(SlidingWindow::<i32, 3>::from_slice(&[1, 2, 3]).is_some());
}

#[test]
fn window_push_ejects_when_full() {
    let mut w = SlidingWindow::<_, 2>::new(0.0);
    assert_eq!(None, w.push(16.5));
    assert_eq!(None, w.push(20.0));
    assert_eq!(Some(16.5), w.push(21.0));
    assert_eq!(Some(20.0), w.push(22.0));
    assert_eq!(w.iter(), vec![21.0, 22.0]);
}

#[test]
fn window_push_many_returns_last_ejection() {
    let mut w = SlidingWindow::<_, 2>::new(0.0);
    assert_eq!(Some(12.7), w.push_many(&[12.7, 13.6, 14.5]));
    assert_eq!(w.iter(), vec![13.6, 14.5]);
    let mut v = SlidingWindow::<_, 4>::new(0);
    assert_eq!(None, v.push_many(&[1, 2, 3]));
    assert_eq!(None, v.push_many(&[]));
    assert_eq!(Some(1), v.push_many(&[4, 5]));
    assert_eq!(v.iter(), vec![2, 3, 4, 5]);
}

#[test]
fn window_length_and_capacity() {
    const PERIODS: usize = 25;
    let w = SlidingWindow::<_, PERIODS>::new(0);
    assert_eq!(w.capacity(), PERIODS);
    let mut v = SlidingWindow::<_, 4>::new(0);
    v.push_many(&[1, 2, 3]);
    assert_eq!(v.length(), 3);
    v.push_many(&[4, 5, 6, 7]);
    assert_eq!(v.length(), 4);
}

#[test]
fn window_index_moves_with_pushes() {
    let mut w = SlidingWindow::<_, 2>::new(0);
    w.push_many(&[31, 33]);
    assert_eq!(w.index(), 0);
    w.push(28);
    assert_eq!(w.index(), 1);
    w.push(29);
    assert_eq!(w.index(), 0);
}

#[test]
fn window_front_and_back() {
    let w = SlidingWindow::<_, 3>::from_slice(&[0, 1, 2, 3, 4]).unwrap();
    assert_eq!(*w.front(), 2);
    let w = SlidingWindow::<_, 3>::from_slice(&[4, 9, 10]).unwrap();
    assert_eq!(*w.back(), 10);
    let mut v = SlidingWindow::<_, 3>::new(0);
    v.push(7);
    v.push(8);
    assert_eq!(*v.front(), 7);
    assert_eq!(*v.back(), 8);
    v.push_many(&[9, 10]);
    assert_eq!(*v.front(), 8);
    assert_eq!(*v.back(), 10);
}

#[test]
fn window_at_wraps_around() {
    let slice = [90, 91, 97, 99, 101, 104, 105];
    let w = SlidingWindow::<_, 4>::from_slice(&slice).unwrap();
    assert_eq!(*w.at(5), slice[4]);
    assert_eq!(*w.at(0), 99);
    assert_eq!(*w.at(3), 105);
    let mut v = SlidingWindow::<_, 4>::new(0);
    v.push_many(&[1, 2, 3, 4, 5, 6]);
    assert_eq!(*v.at(0), 3);
    assert_eq!(*v.at(1), 4);
    assert_eq!(*v.at(3), 6);
    assert_eq!(*v.at(6), 5);
    let mut u = SlidingWindow::<_, 4>::new(0);
    u.push_many(&[8, 9]);
    assert_eq!(*u.at(3), 9);
}

#[test]
fn window_as_slices_in_order() {
    let mut w = SlidingWindow::<_, 3>::from_slice(&[15, 14, 11]).unwrap();
    w.push_many(&[9, 6]);
    assert_eq!(w.as_slices(), (&[11][..], &[9, 6][..]));
    let mut v = SlidingWindow::<_, 3>::new(0);
    v.push(1);
    assert_eq!(v.as_slices(), (&[1][..], &[][..]));
}

#[test]
fn window_reset_empties() {
    let mut w = SlidingWindow::<_, 3>::new(0);
    w.push_many(&[1, 2, 3, 4]);
    w.reset();
    assert_eq!(w.length(), 0);
    assert_eq!(w.index(), 0);
    assert_eq!(w.push(5), None);
    assert_eq!(w.iter(), vec![5]);
}

#[test]
fn accumulator_sums_window() {
    let mut acc = Accumulator::<i64, 3>::new(0);
    assert_eq!(acc.push(1), None);
    assert_eq!(acc.push(2), None);
    assert_eq!(acc.push(3), None);
    assert_eq!(acc.push(4), Some(9));
    assert_eq!(acc.push(10), Some(17));
}

#[test]
fn accumulator_starts_at_nil() {
    let mut acc = Accumulator::<i64, 2>::new(10);
    assert_eq!(acc.push(1), None);
    assert_eq!(acc.push(2), None);
    assert_eq!(acc.push(3), Some(15));
    acc.reset();
    assert_eq!(acc.push(4), None);
    assert_eq!(acc.push(5), None);
    assert_eq!(acc.push(6), Some(21));
}

#[test]
fn window_from_slice_matches_pushes() {
    let items = [5, 8, 13, 21, 34, 55];
    let made = SlidingWindow::<_, 4>::from_slice(&items).unwrap();
    let mut pushed = SlidingWindow::<_, 4>::new(0);
    pushed.push_many(&items);
    assert_eq!(made.iter(), pushed.iter());
    assert_eq!(made.iter(), vec![13, 21, 34, 55]);
}

#[test]
fn window_index_counts_pushes_modulo_capacity() {
    let mut w = SlidingWindow::<_, 3>::new(0);
    w.push_many(&[1, 2]);
    assert_eq!(w.index(), 2);
    w.push_many(&[3, 4, 5, 6]);
    assert_eq!(w.index(), 6 % 3);
    w.push(7);
    assert_eq!(w.index(), 7 % 3);
    assert_eq!(w.length(), 3);
    assert_eq!(w.as_slices(), (&[5, 6][..], &[7][..]));
}

#[test]
fn accumulator_i128_first_some_after_n_pushes() {
    let mut acc = Accumulator::<i128, 3>::new(100);
    let results: Vec<Option<i128>> = [1, 2, 3, 4, 5, 6].iter().map(|&x| acc.push(x)).collect();
    assert_eq!(results, vec![None, None, None, Some(109), Some(112), Some(115)]);
}
