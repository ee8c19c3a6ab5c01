//! The executable S3-FIFO controller: three FIFO queues held in
//! `VecDeque`s, with every operation proved to follow the spec-level
//! transitions of the model.

use std::collections::VecDeque;
use vstd::prelude::*;

use crate::model::{
    aged, bump_first, bumped, entry_index, evict_main_queue, freq_sum, has_key, key_index,
    lemma_entry_index_first, lemma_freq_sum_rotate, lemma_insert_wf, lemma_key_index_first,
    spec_evict_small, spec_insert, CacheModel, Entry, MAX_FREQ,
};

verus! {

/// The S3-FIFO controller: a small entry queue that filters
/// one-hit-wonders, a main queue holding entries with demonstrated
/// reuse, and a ghost queue remembering recently demoted keys. Index 0
/// of each queue is its head; tails are inspected on eviction.
pub struct S3Fifo {
    small: VecDeque<Entry>,
    main: VecDeque<Entry>,
    ghosts: VecDeque<u64>,
    small_size: usize,
    main_size: usize,
}

impl View for S3Fifo {
    type V = CacheModel;

    closed spec fn view(&self) -> CacheModel {
        CacheModel {
            small: self.small@,
            main: self.main@,
            ghosts: self.ghosts@,
            small_cap: self.small_size as nat,
            main_cap: self.main_size as nat,
        }
    }
}

/// First index of `q` whose entry carries `key`, scanning from the head.
fn find_entry(q: &VecDeque<Entry>, key: u64) -> (r: Option<usize>)
    ensures
        match r {
            Some(i) => {
                &&& i < q@.len()
                &&& q@[i as int].key == key
                &&& forall|j: int| 0 <= j < i ==> q@[j].key != key
                &&& i == entry_index(q@, key)
            },
            None => !has_key(q@, key),
        },
{
    let mut i: usize = 0;
    while i < q.len()
        invariant
            i <= q@.len(),
            forall|j: int| 0 <= j < i ==> q@[j].key != key,
        decreases q@.len() - i,
    {
        if q[i].key == key {
            proof {
                lemma_entry_index_first(q@, key);
                assert(has_key(q@, key));
                let x = entry_index(q@, key);
                assert(q@[x].key == key);
                assert(x == i as int);
            }
            return Some(i);
        }
        i = i + 1;
    }
    proof {
        assert(forall|j: int| 0 <= j < q@.len() ==> q@[j].key != key);
    }
    None
}

/// First index of `key` in the ghost queue, scanning from the head.
fn find_ghost(g: &VecDeque<u64>, key: u64) -> (r: Option<usize>)
    ensures
        match r {
            Some(i) => {
                &&& i < g@.len()
                &&& g@[i as int] == key
                &&& i == key_index(g@, key)
                &&& g@.contains(key)
            },
            None => !g@.contains(key),
        },
{
    let mut i: usize = 0;
    while i < g.len()
        invariant
            i <= g@.len(),
            forall|j: int| 0 <= j < i ==> g@[j] != key,
        decreases g@.len() - i,
    {
        if g[i] == key {
            proof {
                assert(g@.contains(key));
                lemma_key_index_first(g@, key);
                let x = key_index(g@, key);
                assert(g@[x] == key);
                assert(x == i as int);
            }
            return Some(i);
        }
        i = i + 1;
    }
    proof {
        assert(forall|j: int| 0 <= j < g@.len() ==> g@[j] != key);
        assert(!g@.contains(key));
    }
    None
}

impl S3Fifo {
    /// A fresh, empty controller. Both capacities must be positive; the
    /// ghost queue's capacity is fixed equal to the main capacity.
    pub fn new(small: usize, main: usize) -> (c: S3Fifo)
        requires
            1 <= small,
            1 <= main,
        ensures
            c@ == (CacheModel {
                small: Seq::<Entry>::empty(),
                main: Seq::<Entry>::empty(),
                ghosts: Seq::<u64>::empty(),
                small_cap: small as nat,
                main_cap: main as nat,
            }),
            c@.wf(),
    {
        S3Fifo {
            small: VecDeque::with_capacity(small),
            main: VecDeque::with_capacity(main),
            ghosts: VecDeque::with_capacity(main),
            small_size: small,
            main_size: main,
        }
    }

    /// Insert a key/value pair. A key remembered by the ghost queue is
    /// re-admitted directly into main (its ghost record removed, main
    /// evicted first when full); any other key enters small (small
    /// evicted first when full). Total: capacity is managed internally
    /// and the operation never fails.
    pub fn insert(&mut self, key: u64, value: u64)
        requires
            old(self)@.wf(),
        ensures
            final(self)@ == spec_insert(old(self)@, key, value),
            final(self)@.wf(),
    {
        let ghost s0 = self@;
        proof {
            lemma_insert_wf(s0, key, value);
        }
        match find_ghost(&self.ghosts, key) {
            Some(i) => {
                proof {
                    lemma_key_index_first(s0.ghosts, key);
                }
                let _ = self.ghosts.remove(i);
                if self.main.len() >= self.main_size {
                    self.evict_main();
                }
                self.main.push_front(Entry::new(key, value));
                proof {
                    assert(self@ =~= spec_insert(s0, key, value));
                }
            },
            None => {
                if self.small.len() >= self.small_size {
                    self.evict_small();
                }
                self.small.push_front(Entry::new(key, value));
                proof {
                    assert(self@ =~= spec_insert(s0, key, value));
                }
            },
        }
    }

    /// Look a key up, scanning small then main from the head. A hit
    /// bumps the entry's counter (saturating at `MAX_FREQ`) and returns
    /// its value; membership and queue order never change, and a miss
    /// changes nothing at all.
    pub fn read(&mut self, key: u64) -> (r: Option<u64>)
        requires
            old(self)@.wf(),
        ensures
            final(self)@.wf(),
            final(self)@.ghosts == old(self)@.ghosts,
            final(self)@.small_cap == old(self)@.small_cap,
            final(self)@.main_cap == old(self)@.main_cap,
            (!has_key(old(self)@.small, key) && !has_key(old(self)@.main, key)) ==> (r is None
                && final(self)@ == old(self)@),
            has_key(old(self)@.small, key) ==> {
                &&& final(self)@.main == old(self)@.main
                &&& final(self)@.small == bump_first(old(self)@.small, key)
                &&& r == Some(old(self)@.small[entry_index(old(self)@.small, key)].value)
            },
            (!has_key(old(self)@.small, key) && has_key(old(self)@.main, key)) ==> {
                &&& final(self)@.small == old(self)@.small
                &&& final(self)@.main == bump_first(old(self)@.main, key)
                &&& r == Some(old(self)@.main[entry_index(old(self)@.main, key)].value)
            },
    {
        let ghost s0 = self@;
        match find_entry(&self.small, key) {
            Some(i) => {
                let e = self.small.remove(i).unwrap();
                let b = Entry {
                    key: e.key,
                    value: e.value,
                    freq: if e.freq < MAX_FREQ {
                        e.freq + 1
                    } else {
                        MAX_FREQ
                    },
                };
                self.small.insert(i, b);
                proof {
                    assert(b == bumped(e));
                    assert(self.small@ =~= s0.small.update(i as int, bumped(e)));
                    assert(self@.small == bump_first(s0.small, key));
                    assert(forall|j: int|
                        0 <= j < self@.small.len() ==> self@.small[j].freq <= MAX_FREQ);
                }
                Some(e.value)
            },
            None => match find_entry(&self.main, key) {
                Some(i) => {
                    let e = self.main.remove(i).unwrap();
                    let b = Entry {
                        key: e.key,
                        value: e.value,
                        freq: if e.freq < MAX_FREQ {
                            e.freq + 1
                        } else {
                            MAX_FREQ
                        },
                    };
                    self.main.insert(i, b);
                    proof {
                        assert(b == bumped(e));
                        assert(self.main@ =~= s0.main.update(i as int, bumped(e)));
                        assert(self@.main == bump_first(s0.main, key));
                        assert(forall|j: int|
                            0 <= j < self@.main.len() ==> self@.main[j].freq <= MAX_FREQ);
                    }
                    Some(e.value)
                },
                None => None,
            },
        }
    }

    /// Number of entries currently held by the small queue.
    pub fn small_len(&self) -> (n: usize)
        ensures
            n == self@.small.len(),
    {
        self.small.len()
    }

    /// Number of entries currently held by the main queue.
    pub fn main_len(&self) -> (n: usize)
        ensures
            n == self@.main.len(),
    {
        self.main.len()
    }

    /// Number of keys currently remembered by the ghost queue.
    pub fn ghost_len(&self) -> (n: usize)
        ensures
            n == self@.ghosts.len(),
    {
        self.ghosts.len()
    }

    /// The keys of the small queue, head first.
    pub fn small_keys(&self) -> (ks: Vec<u64>)
        ensures
            ks@.len() == self@.small.len(),
            forall|i: int| 0 <= i < ks@.len() ==> ks@[i] == self@.small[i].key,
    {
        let mut ks: Vec<u64> = Vec::new();
        let mut i: usize = 0;
        while i < self.small.len()
            invariant
                i <= self.small@.len(),
                ks@.len() == i,
                forall|j: int| 0 <= j < i ==> ks@[j] == self.small@[j].key,
            decreases self.small@.len() - i,
        {
            ks.push(self.small[i].key);
            i = i + 1;
        }
        ks
    }

    /// The keys of the main queue, head first.
    pub fn main_keys(&self) -> (ks: Vec<u64>)
        ensures
            ks@.len() == self@.main.len(),
            forall|i: int| 0 <= i < ks@.len() ==> ks@[i] == self@.main[i].key,
    {
        let mut ks: Vec<u64> = Vec::new();
        let mut i: usize = 0;
        while i < self.main.len()
            invariant
                i <= self.main@.len(),
                ks@.len() == i,
                forall|j: int| 0 <= j < i ==> ks@[j] == self.main@[j].key,
            decreases self.main@.len() - i,
        {
            ks.push(self.main[i].key);
            i = i + 1;
        }
        ks
    }

    /// The keys remembered by the ghost queue, head first.
    pub fn ghost_keys(&self) -> (ks: Vec<u64>)
        ensures
            ks@ == self@.ghosts,
    {
        let mut ks: Vec<u64> = Vec::new();
        let mut i: usize = 0;
        while i < self.ghosts.len()
            invariant
                i <= self.ghosts@.len(),
                ks@.len() == i,
                forall|j: int| 0 <= j < i ==> ks@[j] == self.ghosts@[j],
            decreases self.ghosts@.len() - i,
        {
            ks.push(self.ghosts[i]);
            i = i + 1;
        }
        proof {
            assert(ks@ =~= self.ghosts@);
        }
        ks
    }

    /// Main-queue eviction: rotate positive-counter tails back to the
    /// head with one second chance spent, until a zero-counter tail is
    /// discarded (or the queue runs empty).
    fn evict_main(&mut self)
        ensures
            final(self)@.small == old(self)@.small,
            final(self)@.ghosts == old(self)@.ghosts,
            final(self)@.small_cap == old(self)@.small_cap,
            final(self)@.main_cap == old(self)@.main_cap,
            final(self)@.main == evict_main_queue(old(self)@.main),
    {
        let ghost sm0 = self.small@;
        let ghost g0 = self.ghosts@;
        let ghost ss = self.small_size;
        let ghost ms = self.main_size;
        let ghost m0 = self.main@;
        loop
            invariant_except_break
                self.small@ == sm0,
                self.ghosts@ == g0,
                self.small_size == ss,
                self.main_size == ms,
                evict_main_queue(self.main@) == evict_main_queue(m0),
            ensures
                self.small@ == sm0,
                self.ghosts@ == g0,
                self.small_size == ss,
                self.main_size == ms,
                self.main@ == evict_main_queue(m0),
            decreases freq_sum(self.main@),
        {
            let ghost prev = self.main@;
            match self.main.pop_back() {
                None => {
                    break;
                },
                Some(tail) => {
                    if tail.freq > 0 {
                        let e = Entry { key: tail.key, value: tail.value, freq: tail.freq - 1 };
                        self.main.push_front(e);
                        proof {
                            assert(e == aged(prev.last()));
                            assert(self.main@ =~= seq![aged(prev.last())] + prev.drop_last());
                            assert(evict_main_queue(prev) == evict_main_queue(self.main@));
                            lemma_freq_sum_rotate(prev);
                        }
                    } else {
                        proof {
                            assert(self.main@ =~= prev.drop_last());
                            assert(evict_main_queue(prev) == prev.drop_last());
                        }
                        break;
                    }
                },
            }
        }
    }

    /// Small-queue eviction: pop the tail; an entry read more than once
    /// while in small is promoted to the head of main (main evicted
    /// first if full), any other is demoted, its bare key entering the
    /// ghost queue (whose oldest record is dropped first if full).
    fn evict_small(&mut self)
        requires
            old(self)@.main_cap >= 1,
        ensures
            final(self)@ == spec_evict_small(old(self)@),
    {
        let ghost s0 = self@;
        match self.small.pop_back() {
            None => {
                proof {
                    assert(self@ =~= spec_evict_small(s0));
                }
            },
            Some(tail) => {
                if tail.freq > 1 {
                    if self.main.len() >= self.main_size {
                        self.evict_main();
                    }
                    self.main.push_front(tail);
                    proof {
                        assert(self.small@ =~= s0.small.drop_last());
                        assert(self@ =~= spec_evict_small(s0));
                    }
                } else {
                    if self.ghosts.len() >= self.main_size {
                        let _ = self.ghosts.pop_back();
                    }
                    self.ghosts.push_front(tail.key);
                    proof {
                        assert(self.small@ =~= s0.small.drop_last());
                        assert(self.ghosts@ =~= spec_evict_small(s0).ghosts);
                        assert(self@ =~= spec_evict_small(s0));
                    }
                }
            },
        }
    }
}

} // verus!
