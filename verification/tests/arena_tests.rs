use dakv_skiplist::arena::{Arena, ArenaImpl, Region};
use dakv_skiplist::random::{Random, RandomGenerator};

#[test]
fn test_alloc() {
    let mut arena = ArenaImpl::new();

    let _ = arena.allocate_aligned(104);
    assert_eq!(arena.memory_usage(), 4104);
}

#[test]
fn test_simple() {
    let mut allocated: Vec<(usize, Region)> = vec![];
    let mut arena = ArenaImpl::new();

    let n = 100000;
    let mut bytes = 0;
    let mut rnd = Random::new(301);
    for i in 0..n {
        let mut s;
        if i % (n / 10) == 0 {
            s = i;
        } else {
            s = if rnd.one_in(4000) {
                rnd.uniform(6000) as usize
            } else {
                if rnd.one_in(10) {
                    rnd.uniform(100) as usize
                } else {
                    rnd.uniform(20) as usize
                }
            }
        }
        if s == 0 {
            s = 1;
        }
        let r = if rnd.one_in(10) {
            arena.allocate_aligned(s)
        } else {
            arena.allocate(s)
        };
        for b in 0..s {
            arena.region_write(r, b, (i % 256) as u8);
        }
        bytes += s;
        allocated.push((s, r));
        assert!(arena.memory_usage() >= bytes);
        if i > n / 10 {
            assert!((arena.memory_usage() as f64) <= (bytes as f64) * 1.10);
        }
    }

    for i in 0..allocated.len() {
        let num_bytes = allocated[i].0;
        let r = allocated[i].1;
        for b in 0..num_bytes {
            assert_eq!(arena.region_read(r, b) & 0xff, (i % 256) as u8);
        }
    }
}

#[test]
fn test_aligned_offsets() {
    let mut arena = ArenaImpl::new();
    for s in [1usize, 3, 5, 104, 7, 13] {
        let r = arena.allocate_aligned(s);
        assert_eq!(r.offset % 8, 0);
        assert_eq!(r.len, s);
    }
}

#[test]
fn test_memory_usage_monotone() {
    let mut arena = ArenaImpl::new();
    let mut last = arena.memory_usage();
    for s in [1usize, 4096, 2000, 1, 1025, 17] {
        let _ = arena.allocate(s);
        let now = arena.memory_usage();
        assert!(now >= last);
        last = now;
    }
}

#[test]
fn test_remain_bytes() {
    let mut arena = ArenaImpl::new();
    assert_eq!(arena.remain_bytes(), 0);
    let _ = arena.allocate(100);
    assert_eq!(arena.remain_bytes(), 4096 - 100);
    // an oversized request that no longer fits goes to a dedicated
    // block and leaves the current block untouched
    let _ = arena.allocate(4000);
    assert_eq!(arena.remain_bytes(), 4096 - 100);
}
