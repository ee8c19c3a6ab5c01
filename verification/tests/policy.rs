use s3fifo::Entry;
use s3fifo::S3Fifo;

#[test]
fn new_starts_empty() {
    let mut q = S3Fifo::new(2, 5);
    assert_eq!(q.small_len(), 0);
    assert_eq!(q.main_len(), 0);
    assert_eq!(q.ghost_len(), 0);
    assert_eq!(q.read(7), None);
}

#[test]
fn entry_starts_with_zero_frequency() {
    let e = Entry::new(3, 4);
    assert_eq!(e.key, 3);
    assert_eq!(e.value, 4);
    assert_eq!(e.freq, 0);
}

// Capacities small=2, main=2: insert A, B (small=[B,A]); insert C demotes
// A (freq 0) to the ghost queue; two reads of B raise its counter to 2,
// so insert D promotes B to main.
#[test]
fn scenario_promotion_demotion() {
    let a = 1u64;
    let b = 2u64;
    let c = 3u64;
    let d = 4u64;
    let mut q = S3Fifo::new(2, 2);
    q.insert(a, 10);
    q.insert(b, 20);
    assert_eq!(q.small_keys(), vec![b, a]);
    q.insert(c, 30);
    assert_eq!(q.small_keys(), vec![c, b]);
    assert_eq!(q.ghost_keys(), vec![a]);
    assert_eq!(q.read(b), Some(20));
    assert_eq!(q.read(b), Some(20));
    q.insert(d, 40);
    assert_eq!(q.small_keys(), vec![d, c]);
    assert_eq!(q.main_keys(), vec![b]);
    assert_eq!(q.ghost_keys(), vec![a]);
}

// Continuing the scenario above: inserting A again finds it in the ghost
// queue, so it is admitted directly into main and its ghost record goes.
#[test]
fn scenario_readmission() {
    let a = 1u64;
    let b = 2u64;
    let c = 3u64;
    let d = 4u64;
    let mut q = S3Fifo::new(2, 2);
    q.insert(a, 10);
    q.insert(b, 20);
    q.insert(c, 30);
    assert_eq!(q.read(b), Some(20));
    assert_eq!(q.read(b), Some(20));
    q.insert(d, 40);
    q.insert(a, 11);
    assert_eq!(q.main_keys(), vec![a, b]);
    assert_eq!(q.small_keys(), vec![d, c]);
    assert!(q.ghost_keys().is_empty());
    assert_eq!(q.read(a), Some(11));
}

// A read that misses changes nothing; a read that hits changes neither
// membership nor order of any queue.
#[test]
fn read_does_not_reorder() {
    let mut q = S3Fifo::new(3, 3);
    q.insert(1, 10);
    q.insert(2, 20);
    q.insert(3, 30);
    let s0 = q.small_keys();
    let m0 = q.main_keys();
    let g0 = q.ghost_keys();
    assert_eq!(q.read(99), None);
    assert_eq!(q.small_keys(), s0);
    assert_eq!(q.main_keys(), m0);
    assert_eq!(q.ghost_keys(), g0);
    assert_eq!(q.read(2), Some(20));
    assert_eq!(q.small_keys(), s0);
    assert_eq!(q.main_keys(), m0);
    assert_eq!(q.ghost_keys(), g0);
}

// Inserting a fresh key into a full small queue expels exactly one
// entry: demoted at frequency 0 or 1, promoted when read more than once.
#[test]
fn insert_into_full_small_evicts_one() {
    let mut q = S3Fifo::new(2, 4);
    q.insert(1, 10);
    q.insert(2, 20);
    assert_eq!(q.small_len(), 2);
    q.insert(3, 30);
    assert_eq!(q.small_len(), 2);
    assert_eq!(q.small_keys(), vec![3, 2]);
    assert_eq!(q.ghost_keys(), vec![1]);
    assert_eq!(q.read(2), Some(20));
    assert_eq!(q.read(2), Some(20));
    q.insert(4, 40);
    assert_eq!(q.small_keys(), vec![4, 3]);
    assert_eq!(q.main_keys(), vec![2]);
    assert_eq!(q.ghost_keys(), vec![1]);
}

// A key found in the ghost queue bypasses small entirely.
#[test]
fn ghost_hit_goes_to_main() {
    let mut q = S3Fifo::new(1, 3);
    q.insert(1, 10);
    q.insert(2, 20);
    assert_eq!(q.ghost_keys(), vec![1]);
    q.insert(1, 11);
    assert_eq!(q.main_keys(), vec![1]);
    assert_eq!(q.small_keys(), vec![2]);
    assert!(q.ghost_keys().is_empty());
    assert_eq!(q.read(1), Some(11));
}

// The ghost queue is bounded by the main capacity: its oldest record
// falls off when a demotion finds it full.
#[test]
fn ghost_overflow_drops_oldest() {
    let mut q = S3Fifo::new(1, 2);
    q.insert(1, 10);
    q.insert(2, 20);
    q.insert(3, 30);
    assert_eq!(q.ghost_keys(), vec![2, 1]);
    q.insert(4, 40);
    assert_eq!(q.ghost_keys(), vec![3, 2]);
    assert_eq!(q.ghost_len(), 2);
}

// Under the cache-fill discipline (insert only on miss) no key is ever
// live in two queues at once, and no live key is still remembered by
// the ghost queue.
#[test]
fn queues_stay_disjoint() {
    let mut q = S3Fifo::new(2, 2);
    for k in 0..10u64 {
        if q.read(k).is_none() {
            q.insert(k, k * 7);
        }
    }
    for k in 0..10u64 {
        let _ = q.read(k);
    }
    for k in 0..10u64 {
        if q.read(k).is_none() {
            q.insert(k, k * 7 + 1);
        }
    }
    let s = q.small_keys();
    let m = q.main_keys();
    let g = q.ghost_keys();
    for k in s.iter() {
        assert!(!m.contains(k));
        assert!(!g.contains(k));
    }
    for k in m.iter() {
        assert!(!g.contains(k));
    }
    for i in 0..s.len() {
        for j in 0..i {
            assert!(s[i] != s[j]);
        }
    }
    for i in 0..m.len() {
        for j in 0..i {
            assert!(m[i] != m[j]);
        }
    }
    for i in 0..g.len() {
        for j in 0..i {
            assert!(g[i] != g[j]);
        }
    }
}

// Repeated reads saturate the counter without wrapping: after a hundred
// reads the entry still promotes normally.
#[test]
fn frequency_saturates() {
    let mut q = S3Fifo::new(1, 2);
    q.insert(1, 10);
    for _ in 0..100 {
        assert_eq!(q.read(1), Some(10));
    }
    q.insert(2, 20);
    assert_eq!(q.main_keys(), vec![1]);
    assert_eq!(q.small_keys(), vec![2]);
}

// Filling main with zero-frequency entries and re-admitting one more
// key evicts main's tail at once, with no rotation.
#[test]
fn main_aging_immediate_eviction() {
    let mut q = S3Fifo::new(1, 2);
    q.insert(1, 100);
    q.insert(2, 200);
    q.insert(1, 101);
    q.insert(3, 300);
    q.insert(2, 201);
    assert_eq!(q.main_keys(), vec![2, 1]);
    q.insert(4, 400);
    q.insert(3, 301);
    assert_eq!(q.main_keys(), vec![3, 2]);
    assert_eq!(q.read(1), None);
    assert_eq!(q.read(2), Some(201));
    assert_eq!(q.read(3), Some(301));
}
