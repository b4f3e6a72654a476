use dakv_skiplist::cmp::DefaultComparator;
use dakv_skiplist::random::Random;
use dakv_skiplist::skiplist::SkipList;
use dakv_skiplist::skiplist_iter::SkipListIter;

type List = SkipList<Random, DefaultComparator>;

#[test]
fn skiplist_test_basic() {
    let mut sl: List = SkipList::default();
    for i in 0..100u8 {
        sl.insert(vec![i]);
    }
    assert_eq!(sl.len(), 100);
    for i in 0..100 {
        assert!(sl.contains(&[i]));
    }
    for i in 100..120 {
        assert_eq!(sl.contains(&[i]), false);
    }
}

#[test]
fn test_clear() {
    let mut sl: List = SkipList::default();
    for i in 0..12 {
        sl.insert(vec![i]);
    }
    sl.clear();
    assert!(sl.is_empty());
    assert_eq!(sl.to_string(), "[]");
}

#[test]
fn test_extend() {
    // each value of 0..10 inserted as a single-byte key
    let mut sl: List = SkipList::default();
    for i in 0..10u8 {
        sl.insert(vec![i]);
    }
    assert_eq!(sl.len(), 10);
    for i in 0..10 {
        assert!(sl.contains(&[i]));
    }
}

#[test]
fn test_from_iter() {
    let mut sl: List = SkipList::default();
    for i in 0..10u8 {
        sl.insert(vec![i]);
    }
    for i in 0..10 {
        assert!(sl.contains(&[i]));
    }
}

#[test]
fn test_into_iter() {
    let mut sl: List = SkipList::default();
    for i in 0..10u8 {
        sl.insert(vec![i]);
    }
    let mut it = SkipListIter::new(&sl);
    it.seek_to_first();
    let mut count = 0u8;
    while it.valid() {
        assert_eq!(it.key()[0], count);
        it.next();
        count += 1;
    }
    assert_eq!(count, 10);

    let mut sl: List = SkipList::default();
    for i in [3u8, 4, 6, 7, 1, 2, 5] {
        sl.insert(vec![i]);
    }
    for i in [3u8, 4, 6, 7, 1, 2, 5] {
        assert!(sl.contains(&[i]));
    }
}

#[test]
fn test_basic_desc() {
    let mut sl: List = SkipList::default();
    for i in (0..12u8).rev() {
        sl.insert(vec![i]);
    }
    assert_eq!(
        "[[0] [1] [2] [3] [4] [5] [6] [7] [8] [9] [10] [11] ]",
        sl.to_string()
    );

    let mut sl: List = SkipList::default();
    for i in [3u8, 4, 6, 7, 1, 2, 5] {
        sl.insert(vec![i]);
    }
    assert_eq!("[[1] [2] [3] [4] [5] [6] [7] ]", sl.to_string());
    assert_eq!(
        sl.memory_size(),
        8 * std::mem::size_of::<dakv_skiplist::skipnode::Node>()
    );
}

#[test]
fn test_ordered_scenario() {
    // the seven single-byte keys come back in order, with exact
    // membership and count
    let mut sl: List = SkipList::default();
    for i in [3u8, 4, 6, 7, 1, 2, 5] {
        sl.insert(vec![i]);
    }
    let mut it = SkipListIter::new(&sl);
    it.seek_to_first();
    let mut seen: Vec<u8> = Vec::new();
    while it.valid() {
        seen.push(it.key()[0]);
        it.next();
    }
    assert_eq!(seen, vec![1, 2, 3, 4, 5, 6, 7]);
    assert!(sl.contains(&[4]));
    assert!(!sl.contains(&[9]));
    assert_eq!(sl.len(), 7);
}

#[test]
fn test_empty_list() {
    let sl: List = SkipList::default();
    assert!(sl.is_empty());
    let mut it = SkipListIter::new(&sl);
    it.seek_to_first();
    assert!(!it.valid());
    // find_last yields the head sentinel, index 0
    assert_eq!(sl.find_last(), 0);
}

#[test]
fn test_reads_idempotent() {
    let mut sl: List = SkipList::default();
    for i in [9u8, 1, 5] {
        sl.insert(vec![i]);
    }
    let len_before = sl.len();
    let mem_before = sl.memory_size();
    let rendered_before = sl.to_string();
    assert!(sl.contains(&[5]));
    assert!(sl.contains(&[5]));
    assert!(!sl.contains(&[7]));
    assert_eq!(sl.len(), len_before);
    assert_eq!(sl.memory_size(), mem_before);
    assert_eq!(sl.to_string(), rendered_before);
}

#[test]
fn test_duplicates_counted() {
    let mut sl: List = SkipList::default();
    sl.insert(vec![5u8]);
    sl.insert(vec![5u8]);
    sl.insert(vec![5u8]);
    assert_eq!(sl.len(), 3);
    assert!(sl.contains(&[5]));
    assert_eq!(sl.to_string(), "[[5] [5] [5] ]");
}

#[test]
fn test_max_height_bounded() {
    let mut sl: List = SkipList::default();
    assert_eq!(sl.get_max_height(), 1);
    for i in 0..200u8 {
        sl.insert(vec![i]);
        let h = sl.get_max_height();
        assert!(1 <= h && h <= 12);
    }
}

#[test]
fn test_memory_size_grows() {
    let mut sl: List = SkipList::default();
    let mut last = sl.memory_size();
    for i in 0..32u8 {
        sl.insert(vec![i]);
        let now = sl.memory_size();
        assert!(now >= last);
        last = now;
    }
}

#[test]
fn test_find_less_than() {
    let mut sl: List = SkipList::default();
    for i in [2u8, 4, 6] {
        sl.insert(vec![i]);
    }
    // below the minimum there is nothing: the head, index 0
    assert_eq!(sl.find_less_than(&[2]), 0);
    assert!(sl.find_less_than(&[5]) != 0);
}

#[test]
fn test_multibyte_keys() {
    let mut sl: List = SkipList::default();
    sl.insert(b"banana".to_vec());
    sl.insert(b"apple".to_vec());
    sl.insert(b"app".to_vec());
    let mut it = SkipListIter::new(&sl);
    it.seek_to_first();
    assert_eq!(it.key(), b"app");
    it.next();
    assert_eq!(it.key(), b"apple");
    it.next();
    assert_eq!(it.key(), b"banana");
    it.next();
    assert!(!it.valid());
    assert!(sl.contains(b"apple"));
    assert!(!sl.contains(b"appl"));
}

#[test]
fn test_new_by_cmp() {
    let mut sl = SkipList::<Random, DefaultComparator>::new_by_cmp(DefaultComparator::default());
    sl.insert(vec![1u8]);
    assert_eq!(sl.len(), 1);
    assert!(sl.contains(&[1]));
}
