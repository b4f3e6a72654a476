use dakv_skiplist::cmp::DefaultComparator;
use dakv_skiplist::random::Random;
use dakv_skiplist::skiplist::SkipList;
use dakv_skiplist::skiplist_iter::SkipListIter;

type List = SkipList<Random, DefaultComparator>;

#[test]
fn skiplist_iter_test_basic() {
    let mut sl: List = SkipList::default();
    for i in 0..100u8 {
        sl.insert(vec![i]);
    }

    let mut iter = SkipListIter::new(&sl);
    assert!(!iter.valid());
    iter.seek_to_first();
    assert!(iter.valid());
    assert_eq!(iter.key(), &[0]);
    iter.seek_to_last();
    assert_eq!(iter.key(), &[99]);

    iter.seek(&[88]);
    assert_eq!(iter.key(), &[88]);
}

#[test]
fn test_seek_prev_next() {
    // seek, one step back, one step forward: back on the sought key
    let mut sl: List = SkipList::default();
    for i in [3u8, 4, 6, 7, 1, 2, 5] {
        sl.insert(vec![i]);
    }
    let mut it = SkipListIter::new(&sl);
    it.seek(&[4]);
    assert_eq!(it.key(), &[4]);
    it.prev();
    assert!(it.valid());
    assert!(it.key() <= &[4u8][..]);
    assert_eq!(it.key(), &[3]);
    it.next();
    assert_eq!(it.key(), &[4]);
}

#[test]
fn test_prev_before_first() {
    let mut sl: List = SkipList::default();
    sl.insert(vec![1u8]);
    let mut it = SkipListIter::new(&sl);
    it.seek_to_first();
    assert!(it.valid());
    it.prev();
    assert!(!it.valid());
}

#[test]
fn test_seek_between_keys() {
    let mut sl: List = SkipList::default();
    for i in [10u8, 20, 30] {
        sl.insert(vec![i]);
    }
    let mut it = SkipListIter::new(&sl);
    // seek lands on the first key not below the probe
    it.seek(&[15]);
    assert_eq!(it.key(), &[20]);
    it.seek(&[31]);
    assert!(!it.valid());
}

#[test]
fn test_next_walks_everything() {
    let mut sl: List = SkipList::default();
    for i in 0..50u8 {
        sl.insert(vec![i]);
    }
    let mut it = SkipListIter::new(&sl);
    it.seek_to_first();
    let mut n = 0u8;
    while it.valid() {
        assert_eq!(it.key(), &[n]);
        it.next();
        n += 1;
    }
    assert_eq!(n, 50);
}
