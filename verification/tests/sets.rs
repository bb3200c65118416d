use procstats::ordered_set::OrderedSet;
use procstats::pagemap::SwapSlot;

#[test]
fn new_set_is_empty() {
    let set: OrderedSet<u64> = OrderedSet::new();
    assert_eq!(set.len(), 0);
    assert!(set.is_empty());
    assert!(!set.contains(0));
    assert_eq!(set.to_vec(), Vec::<u64>::new());
}

#[test]
fn insert_reports_whether_the_key_is_new() {
    let mut set: OrderedSet<u64> = OrderedSet::new();
    assert!(set.insert(7));
    assert!(set.insert(3));
    assert!(!set.insert(7));
    assert!(set.insert(u64::MAX));
    assert!(set.insert(0));
    assert_eq!(set.len(), 4);
    assert_eq!(set.to_vec(), vec![0, 3, 7, u64::MAX]);
    assert!(set.contains(3));
    assert!(!set.contains(4));
    assert!(!set.is_empty());
}

#[test]
fn from_vec_sorts_and_drops_repeats() {
    let set = OrderedSet::from_vec(&vec![9u64, 1, 9, 4, 1, 1, 0, 12, 4]);
    assert_eq!(set.to_vec(), vec![0, 1, 4, 9, 12]);
    assert_eq!(set.len(), 5);
    let single = OrderedSet::from_vec(&vec![5u64]);
    assert_eq!(single.to_vec(), vec![5]);
    let none = OrderedSet::from_vec(&Vec::<u64>::new());
    assert!(none.is_empty());
}

#[test]
fn from_vec_of_a_long_list() {
    let mut keys: Vec<u64> = Vec::new();
    for i in 0..1000u64 {
        keys.push((i * 7919) % 503);
    }
    let set = OrderedSet::from_vec(&keys);
    assert_eq!(set.len(), 503);
    let listing = set.to_vec();
    for i in 0..503usize {
        assert_eq!(listing[i], i as u64);
    }
}

#[test]
fn union_and_extend_hold_the_members_of_both() {
    let a = OrderedSet::from_vec(&vec![1u64, 3, 5]);
    let b = OrderedSet::from_vec(&vec![2u64, 3, 6, 7]);
    assert_eq!(a.union(&b).to_vec(), vec![1, 2, 3, 5, 6, 7]);
    assert_eq!(b.union(&a).to_vec(), vec![1, 2, 3, 5, 6, 7]);
    let mut c = a.duplicate();
    c.extend(&b);
    assert_eq!(c.to_vec(), vec![1, 2, 3, 5, 6, 7]);
    let empty: OrderedSet<u64> = OrderedSet::new();
    assert_eq!(a.union(&empty).to_vec(), vec![1, 3, 5]);
    assert_eq!(empty.union(&a).to_vec(), vec![1, 3, 5]);
}

#[test]
fn difference_holds_what_the_other_lacks() {
    let a = OrderedSet::from_vec(&vec![1u64, 3, 5, 8]);
    let b = OrderedSet::from_vec(&vec![3u64, 4, 8, 9]);
    assert_eq!(a.difference(&b).to_vec(), vec![1, 5]);
    assert_eq!(b.difference(&a).to_vec(), vec![4, 9]);
    assert!(a.difference(&a).is_empty());
    let empty: OrderedSet<u64> = OrderedSet::new();
    assert_eq!(a.difference(&empty).to_vec(), vec![1, 3, 5, 8]);
}

#[test]
fn swap_slots_are_ordered_by_device_then_offset() {
    let slots = vec![
        SwapSlot { swap_type: 1, offset: 0 },
        SwapSlot { swap_type: 0, offset: u64::MAX },
        SwapSlot { swap_type: 0, offset: 2 },
        SwapSlot { swap_type: 1, offset: 0 },
    ];
    let set = OrderedSet::from_vec(&slots);
    assert_eq!(
        set.to_vec(),
        vec![
            SwapSlot { swap_type: 0, offset: 2 },
            SwapSlot { swap_type: 0, offset: u64::MAX },
            SwapSlot { swap_type: 1, offset: 0 },
        ]
    );
    assert!(set.contains(SwapSlot { swap_type: 0, offset: 2 }));
    assert!(!set.contains(SwapSlot { swap_type: 2, offset: 0 }));
}
