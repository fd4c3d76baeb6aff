use std::collections::VecDeque;

use consciousness_sim::history::{push_bounded, push_keep_latest};

#[test]
fn window_drops_oldest_when_full() {
    let mut w: VecDeque<u32> = VecDeque::new();
    for x in 0..5u32 {
        push_bounded(&mut w, x, 3);
        assert!(w.len() <= 3);
        assert_eq!(*w.back().unwrap(), x);
    }
    assert_eq!(w.iter().copied().collect::<Vec<_>>(), vec![2, 3, 4]);
}

#[test]
fn window_below_capacity_keeps_everything() {
    let mut w: VecDeque<f64> = VecDeque::new();
    push_bounded(&mut w, 0.5, 20);
    push_bounded(&mut w, -0.25, 20);
    assert_eq!(w.iter().copied().collect::<Vec<_>>(), vec![0.5, -0.25]);
}

#[test]
fn window_of_capacity_zero_still_takes_the_item() {
    let mut w: VecDeque<u8> = VecDeque::new();
    push_bounded(&mut w, 7, 0);
    assert_eq!(w.len(), 1);
    push_bounded(&mut w, 8, 0);
    assert_eq!(w.iter().copied().collect::<Vec<_>>(), vec![7, 8]);
}

#[test]
fn keep_latest_caps_the_list() {
    let mut list: Vec<u32> = Vec::new();
    for x in 0..13u32 {
        push_keep_latest(&mut list, x, 10);
        assert!(list.len() <= 10);
        assert_eq!(*list.last().unwrap(), x);
    }
    assert_eq!(list, (3..13).collect::<Vec<u32>>());
}

#[test]
fn keep_latest_with_room_appends() {
    let mut list = vec![1u8, 2];
    push_keep_latest(&mut list, 3, 10);
    assert_eq!(list, vec![1, 2, 3]);
    let mut none: Vec<u8> = vec![4, 5];
    push_keep_latest(&mut none, 6, 0);
    assert!(none.is_empty());
}
