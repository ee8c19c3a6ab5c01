//! The mathematical model of the S3-FIFO policy: cache entries, the
//! three-queue state, and the spec-level transition functions that the
//! executable operations are proved to follow.

use vstd::prelude::*;

verus! {

/// Upper bound of the per-entry access counter. Two bits suffice in the
/// published policy, so the counter saturates at 3 and never wraps.
pub const MAX_FREQ: u8 = 3;

/// A cached key/value pair together with its saturating access counter.
#[derive(Clone, Copy, PartialEq, Eq, Structural)]
pub struct Entry {
    pub key: u64,
    pub value: u64,
    pub freq: u8,
}

impl Entry {
    /// A fresh entry starts with a frequency of zero.
    pub fn new(key: u64, value: u64) -> (e: Entry)
        ensures
            e == (Entry { key, value, freq: 0u8 }),
    {
        Entry { key, value, freq: 0 }
    }
}

/// The abstract state of the policy: the three queues (index 0 is the
/// head, the last index is the tail) and the two configured capacities.
/// The ghost queue's capacity equals `main_cap` by design.
#[verifier::ext_equal]
pub struct CacheModel {
    pub small: Seq<Entry>,
    pub main: Seq<Entry>,
    pub ghosts: Seq<u64>,
    pub small_cap: nat,
    pub main_cap: nat,
}

/// Some entry of `q` carries the key `k`.
pub open spec fn has_key(q: Seq<Entry>, k: u64) -> bool {
    exists|i: int| 0 <= i < q.len() && q[i].key == k
}

/// Index of the first (head-most) entry of `q` whose key is `k`,
/// or -1 when no entry carries it.
pub open spec fn entry_index(q: Seq<Entry>, k: u64) -> int
    decreases q.len(),
{
    if q.len() == 0 {
        -1
    } else if q[0].key == k {
        0
    } else {
        let r = entry_index(q.drop_first(), k);
        if r < 0 {
            -1
        } else {
            r + 1
        }
    }
}

/// Index of the first occurrence of `k` in the key sequence `g`,
/// or -1 when `k` does not occur.
pub open spec fn key_index(g: Seq<u64>, k: u64) -> int
    decreases g.len(),
{
    if g.len() == 0 {
        -1
    } else if g[0] == k {
        0
    } else {
        let r = key_index(g.drop_first(), k);
        if r < 0 {
            -1
        } else {
            r + 1
        }
    }
}

/// Sum of the access counters of all entries of `q`; the termination
/// measure of the main-queue eviction loop.
pub open spec fn freq_sum(q: Seq<Entry>) -> nat
    decreases q.len(),
{
    if q.len() == 0 {
        0
    } else {
        (q[0].freq + freq_sum(q.drop_first())) as nat
    }
}

/// The entry as main-queue eviction re-queues it: one second chance
/// spent, so the counter drops by one.
pub open spec fn aged(e: Entry) -> Entry
    recommends
        e.freq > 0,
{
    Entry { key: e.key, value: e.value, freq: (e.freq - 1) as u8 }
}

/// The entry as a hit leaves it: the counter rises by one, saturating
/// at `MAX_FREQ`.
pub open spec fn bumped(e: Entry) -> Entry {
    Entry {
        key: e.key,
        value: e.value,
        freq: if e.freq < MAX_FREQ {
            (e.freq + 1) as u8
        } else {
            MAX_FREQ
        },
    }
}

/// `q` after a hit on key `k`: only the first entry carrying `k` changes,
/// and only its counter.
pub open spec fn bump_first(q: Seq<Entry>, k: u64) -> Seq<Entry>
    recommends
        has_key(q, k),
{
    q.update(entry_index(q, k), bumped(q[entry_index(q, k)]))
}

/// Main-queue eviction: pop the tail; a tail with a positive counter is
/// aged and re-queued at the head (second chance), a tail with counter
/// zero is discarded and the loop stops. Terminates because every
/// re-queue strictly lowers the total counter mass.
pub open spec fn evict_main_queue(m: Seq<Entry>) -> Seq<Entry>
    decreases freq_sum(m),
{
    if m.len() == 0 {
        m
    } else {
        let tail = m.last();
        if tail.freq > 0 {
            proof {
                lemma_freq_sum_rotate(m);
            }
            evict_main_queue(seq![aged(tail)] + m.drop_last())
        } else {
            m.drop_last()
        }
    }
}

/// Small-queue eviction: remove the tail; an entry read more than once
/// is promoted to the head of main (evicting from main first if main is
/// full), any other is demoted, its key entering the ghost queue (whose
/// own tail is dropped first when it is full).
pub open spec fn spec_evict_small(s: CacheModel) -> CacheModel {
    if s.small.len() == 0 {
        s
    } else {
        let tail = s.small.last();
        if tail.freq > 1 {
            let main1 = if s.main.len() >= s.main_cap {
                evict_main_queue(s.main)
            } else {
                s.main
            };
            CacheModel { small: s.small.drop_last(), main: seq![tail] + main1, ..s }
        } else {
            let ghosts1 = if s.ghosts.len() >= s.main_cap {
                s.ghosts.drop_last()
            } else {
                s.ghosts
            };
            CacheModel { small: s.small.drop_last(), ghosts: seq![tail.key] + ghosts1, ..s }
        }
    }
}

/// Insertion: a key remembered by the ghost queue is re-admitted
/// directly into main (its ghost record is removed and main is evicted
/// first when full); any other key enters small (evicting from small
/// first when full). The new entry starts with counter zero.
pub open spec fn spec_insert(s: CacheModel, key: u64, value: u64) -> CacheModel {
    let e = Entry { key, value, freq: 0u8 };
    if s.ghosts.contains(key) {
        let main1 = if s.main.len() >= s.main_cap {
            evict_main_queue(s.main)
        } else {
            s.main
        };
        let ghosts1 = s.ghosts.remove(key_index(s.ghosts, key));
        CacheModel { main: seq![e] + main1, ghosts: ghosts1, ..s }
    } else {
        let s1 = if s.small.len() >= s.small_cap {
            spec_evict_small(s)
        } else {
            s
        };
        CacheModel { small: seq![e] + s1.small, ..s1 }
    }
}

/// Every counter of `q` is within the saturation bound.
pub open spec fn freqs_ok(q: Seq<Entry>) -> bool {
    forall|i: int| 0 <= i < q.len() ==> q[i].freq <= MAX_FREQ
}

impl CacheModel {
    /// Well-formedness: positive capacities, every queue within its
    /// capacity, and every counter within the saturation bound.
    pub open spec fn wf(self) -> bool {
        &&& self.small_cap >= 1
        &&& self.main_cap >= 1
        &&& self.small.len() <= self.small_cap
        &&& self.main.len() <= self.main_cap
        &&& self.ghosts.len() <= self.main_cap
        &&& freqs_ok(self.small)
        &&& freqs_ok(self.main)
    }
}

/// No two entries of `q` carry the same key.
pub open spec fn distinct_keys(q: Seq<Entry>) -> bool {
    forall|i: int, j: int| 0 <= i < j < q.len() ==> q[i].key != q[j].key
}

/// No key occurs twice in `g`.
pub open spec fn distinct_elems(g: Seq<u64>) -> bool {
    forall|i: int, j: int| 0 <= i < j < g.len() ==> g[i] != g[j]
}

/// Main-queue eviction removes exactly one entry from a non-empty queue,
/// introduces no key, and preserves the counter bound and key
/// distinctness.
pub proof fn lemma_evict_main_props(m: Seq<Entry>)
    ensures
        m.len() > 0 ==> evict_main_queue(m).len() == m.len() - 1,
        m.len() == 0 ==> evict_main_queue(m) == m,
        forall|k: u64| has_key(evict_main_queue(m), k) ==> has_key(m, k),
        freqs_ok(m) ==> freqs_ok(evict_main_queue(m)),
        distinct_keys(m) ==> distinct_keys(evict_main_queue(m)),
    decreases freq_sum(m),
{
    if m.len() == 0 {
    } else {
        let tail = m.last();
        if tail.freq > 0 {
            let r = seq![aged(tail)] + m.drop_last();
            assert(r.len() == m.len());
            assert(r[0] == aged(tail));
            assert(forall|i: int| 1 <= i < r.len() ==> r[i] == m[i - 1]);
            lemma_freq_sum_rotate(m);
            lemma_evict_main_props(r);
            assert(evict_main_queue(m) == evict_main_queue(r));
            assert forall|k: u64| has_key(r, k) implies has_key(m, k) by {
                let i = choose|i: int| 0 <= i < r.len() && r[i].key == k;
                if i == 0 {
                    assert(m[m.len() - 1].key == k);
                } else {
                    assert(m[i - 1].key == k);
                }
            }
            if freqs_ok(m) {
                assert(freqs_ok(r));
            }
            if distinct_keys(m) {
                assert forall|i: int, j: int| 0 <= i < j < r.len() implies r[i].key
                    != r[j].key by {
                    if i == 0 {
                        assert(r[j].key == m[j - 1].key);
                        assert(r[0].key == m[m.len() - 1].key);
                        assert(j - 1 < m.len() - 1);
                    } else {
                        assert(r[i].key == m[i - 1].key);
                        assert(r[j].key == m[j - 1].key);
                    }
                }
            }
        } else {
            assert(evict_main_queue(m) == m.drop_last());
            assert forall|k: u64| has_key(m.drop_last(), k) implies has_key(m, k) by {
                let i = choose|i: int| 0 <= i < m.drop_last().len() && m.drop_last()[i].key == k;
                assert(m[i].key == k);
            }
        }
    }
}

/// Small-queue eviction removes exactly the tail of a non-empty small
/// queue, keeps main and ghost within their capacities, and preserves
/// the counter bound.
pub proof fn lemma_evict_small_props(s: CacheModel)
    requires
        s.wf(),
    ensures
        spec_evict_small(s).small_cap == s.small_cap,
        spec_evict_small(s).main_cap == s.main_cap,
        s.small.len() > 0 ==> spec_evict_small(s).small == s.small.drop_last(),
        s.small.len() == 0 ==> spec_evict_small(s) == s,
        spec_evict_small(s).main.len() <= s.main_cap,
        spec_evict_small(s).ghosts.len() <= s.main_cap,
        freqs_ok(spec_evict_small(s).small),
        freqs_ok(spec_evict_small(s).main),
{
    if s.small.len() > 0 {
        let tail = s.small.last();
        assert(tail.freq <= MAX_FREQ);
        assert forall|i: int| 0 <= i < s.small.drop_last().len() implies s.small.drop_last()[i].freq
            <= MAX_FREQ by {
            assert(s.small.drop_last()[i] == s.small[i]);
        }
        if tail.freq > 1 {
            let main1 = if s.main.len() >= s.main_cap {
                evict_main_queue(s.main)
            } else {
                s.main
            };
            lemma_evict_main_props(s.main);
            let m2 = seq![tail] + main1;
            assert(m2.len() <= s.main_cap);
            assert forall|i: int| 0 <= i < m2.len() implies m2[i].freq <= MAX_FREQ by {
                if i == 0 {
                    assert(m2[0] == tail);
                } else {
                    assert(m2[i] == main1[i - 1]);
                }
            }
        }
    }
}

/// Insertion keeps the state well formed: every queue stays within its
/// capacity and every counter within the saturation bound.
pub proof fn lemma_insert_wf(s: CacheModel, key: u64, value: u64)
    requires
        s.wf(),
    ensures
        spec_insert(s, key, value).wf(),
{
    let e = Entry { key, value, freq: 0u8 };
    let r = spec_insert(s, key, value);
    if s.ghosts.contains(key) {
        lemma_key_index_first(s.ghosts, key);
        lemma_evict_main_props(s.main);
        let main1 = if s.main.len() >= s.main_cap {
            evict_main_queue(s.main)
        } else {
            s.main
        };
        assert(r.main == seq![e] + main1);
        assert forall|i: int| 0 <= i < r.main.len() implies r.main[i].freq <= MAX_FREQ by {
            if i == 0 {
                assert(r.main[0] == e);
            } else {
                assert(r.main[i] == main1[i - 1]);
            }
        }
        assert(r.ghosts.len() == s.ghosts.len() - 1);
    } else {
        let s1 = if s.small.len() >= s.small_cap {
            spec_evict_small(s)
        } else {
            s
        };
        lemma_evict_small_props(s);
        assert(r.small == seq![e] + s1.small);
        assert forall|i: int| 0 <= i < r.small.len() implies r.small[i].freq <= MAX_FREQ by {
            if i == 0 {
                assert(r.small[0] == e);
            } else {
                assert(r.small[i] == s1.small[i - 1]);
            }
        }
    }
}

/// The counter mass of a non-empty queue splits into the tail's counter
/// and the mass of the rest.
pub proof fn lemma_freq_sum_drop_last(q: Seq<Entry>)
    requires
        q.len() > 0,
    ensures
        freq_sum(q) == freq_sum(q.drop_last()) + q.last().freq,
    decreases q.len(),
{
    if q.len() == 1 {
        assert(q.drop_last() =~= Seq::<Entry>::empty());
        assert(q.drop_first() =~= Seq::<Entry>::empty());
    } else {
        lemma_freq_sum_drop_last(q.drop_first());
        assert(q.drop_last().drop_first() =~= q.drop_first().drop_last());
        assert(q.drop_first().last() == q.last());
        assert(q.drop_last()[0] == q[0]);
        assert(q.drop_last().len() > 0);
    }
}

/// Prepending an entry adds exactly its counter to the mass.
pub proof fn lemma_freq_sum_prepend(e: Entry, q: Seq<Entry>)
    ensures
        freq_sum(seq![e] + q) == e.freq + freq_sum(q),
{
    assert((seq![e] + q).drop_first() =~= q);
    assert((seq![e] + q)[0] == e);
}

/// `entry_index` finds exactly the first entry carrying the key: it is
/// a valid index with that key preceded by no other, and it is -1
/// exactly when the key is absent.
pub proof fn lemma_entry_index_first(q: Seq<Entry>, k: u64)
    ensures
        has_key(q, k) ==> {
            let x = entry_index(q, k);
            &&& 0 <= x < q.len()
            &&& q[x].key == k
            &&& forall|j: int| 0 <= j < x ==> q[j].key != k
        },
        !has_key(q, k) ==> entry_index(q, k) == -1,
    decreases q.len(),
{
    if q.len() == 0 {
    } else if q[0].key == k {
    } else {
        let t = q.drop_first();
        lemma_entry_index_first(t, k);
        assert(forall|i: int| 0 < i < q.len() ==> q[i] == t[i - 1]);
        if has_key(t, k) {
            let x = entry_index(t, k);
            assert(q[x + 1].key == k);
            assert(has_key(q, k));
            assert(forall|j: int| 0 <= j < x + 1 ==> q[j].key != k);
        } else {
            assert(forall|i: int| 0 <= i < q.len() ==> q[i].key != k);
            assert(!has_key(q, k));
        }
    }
}

/// `key_index` finds exactly the first occurrence of the key: a valid
/// index holding it, preceded by no other, and -1 exactly when the key
/// does not occur.
pub proof fn lemma_key_index_first(g: Seq<u64>, k: u64)
    ensures
        g.contains(k) ==> {
            let x = key_index(g, k);
            &&& 0 <= x < g.len()
            &&& g[x] == k
            &&& forall|j: int| 0 <= j < x ==> g[j] != k
        },
        !g.contains(k) ==> key_index(g, k) == -1,
    decreases g.len(),
{
    if g.len() == 0 {
    } else if g[0] == k {
        assert(g.contains(k));
    } else {
        let t = g.drop_first();
        lemma_key_index_first(t, k);
        assert(forall|i: int| 0 < i < g.len() ==> g[i] == t[i - 1]);
        if t.contains(k) {
            let x = key_index(t, k);
            assert(g[x + 1] == k);
            assert(g.contains(k));
            assert(forall|j: int| 0 <= j < x + 1 ==> g[j] != k);
        } else {
            assert(forall|i: int| 0 <= i < g.len() ==> g[i] != k);
            assert(!g.contains(k));
        }
    }
}

/// A second-chance rotation strictly lowers the counter mass: the tail
/// comes back aged by one.
pub proof fn lemma_freq_sum_rotate(m: Seq<Entry>)
    requires
        m.len() > 0,
        m.last().freq > 0,
    ensures
        freq_sum(seq![aged(m.last())] + m.drop_last()) < freq_sum(m),
{
    lemma_freq_sum_drop_last(m);
    lemma_freq_sum_prepend(aged(m.last()), m.drop_last());
}

} // verus!
