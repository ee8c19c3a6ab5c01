//! The policy's guarantees, stated over the model and proved once and
//! for all: what a hit may touch, what a full small queue expels, how
//! ghost-queue re-admission behaves, and how the disjointness of the
//! three queues is kept.

use vstd::prelude::*;

use crate::model::{
    bump_first, bumped, distinct_elems, distinct_keys, entry_index, evict_main_queue, has_key,
    key_index, lemma_entry_index_first, lemma_evict_main_props, lemma_evict_small_props,
    lemma_key_index_first, spec_evict_small, spec_insert, CacheModel, Entry, MAX_FREQ,
};

verus! {

/// Disjointness of the three queues: no key occurs twice within a
/// queue, no key is live in both small and main, and no live key is
/// simultaneously remembered by the ghost queue. Holds of every state
/// reached by inserting only keys that are not currently live (the
/// cache-fill discipline: insert only on miss).
pub open spec fn distinct_state(s: CacheModel) -> bool {
    &&& distinct_keys(s.small)
    &&& distinct_keys(s.main)
    &&& distinct_elems(s.ghosts)
    &&& forall|k: u64| !(has_key(s.small, k) && has_key(s.main, k))
    &&& forall|k: u64| !(has_key(s.small, k) && s.ghosts.contains(k))
    &&& forall|k: u64| !(has_key(s.main, k) && s.ghosts.contains(k))
}

/// A hit moves nothing and drops nothing: every key, every value and
/// every position is kept; only the counter of the first entry carrying
/// the key changes, and it stays within the saturation bound.
pub proof fn lemma_read_hit_shape(q: Seq<Entry>, k: u64)
    requires
        has_key(q, k),
    ensures
        bump_first(q, k).len() == q.len(),
        forall|j: int| 0 <= j < q.len() ==> bump_first(q, k)[j].key == q[j].key,
        forall|j: int| 0 <= j < q.len() ==> bump_first(q, k)[j].value == q[j].value,
        forall|j: int|
            0 <= j < q.len() && j != entry_index(q, k) ==> bump_first(q, k)[j] == q[j],
        bump_first(q, k)[entry_index(q, k)] == bumped(q[entry_index(q, k)]),
        bumped(q[entry_index(q, k)]).freq <= MAX_FREQ,
{
    lemma_entry_index_first(q, k);
}

/// Inserting a key unknown to the ghost queue into a full small queue
/// expels exactly the small tail: small returns to its capacity with
/// the new entry at its head, and the tail is promoted to the head of
/// main when it was read more than once, demoted to the head of the
/// ghost queue otherwise.
pub proof fn lemma_insert_full_small(s: CacheModel, key: u64, value: u64)
    requires
        s.wf(),
        !s.ghosts.contains(key),
        s.small.len() == s.small_cap,
    ensures
        spec_insert(s, key, value).small.len() == s.small_cap,
        spec_insert(s, key, value).small == seq![Entry { key, value, freq: 0u8 }]
            + s.small.drop_last(),
        s.small.last().freq > 1 ==> spec_insert(s, key, value).main[0] == s.small.last(),
        s.small.last().freq <= 1 ==> spec_insert(s, key, value).ghosts[0] == s.small.last().key,
{
    lemma_evict_small_props(s);
}

/// A key remembered by the ghost queue is admitted directly into main,
/// bypassing small: small is untouched, the new entry stands at the
/// head of main, main stays within capacity, and — in a distinct state
/// — the ghost queue no longer tracks the key afterwards.
pub proof fn lemma_insert_ghost_fast_path(s: CacheModel, key: u64, value: u64)
    requires
        s.wf(),
        s.ghosts.contains(key),
    ensures
        spec_insert(s, key, value).small == s.small,
        spec_insert(s, key, value).main.len() <= s.main_cap,
        spec_insert(s, key, value).main[0] == (Entry { key, value, freq: 0u8 }),
        distinct_state(s) ==> !spec_insert(s, key, value).ghosts.contains(key),
{
    lemma_key_index_first(s.ghosts, key);
    lemma_evict_main_props(s.main);
    if distinct_state(s) {
        let x = key_index(s.ghosts, key);
        let g1 = s.ghosts.remove(x);
        assert forall|i: int| 0 <= i < g1.len() implies g1[i] != key by {
            if i < x {
                assert(g1[i] == s.ghosts[i]);
            } else {
                assert(g1[i] == s.ghosts[i + 1]);
            }
        }
        assert(!g1.contains(key));
    }
}

/// Membership and distinctness under prepending an entry.
proof fn lemma_prepend_entry(e: Entry, q: Seq<Entry>)
    ensures
        forall|k: u64| has_key(seq![e] + q, k) <==> (k == e.key || has_key(q, k)),
        distinct_keys(q) && !has_key(q, e.key) ==> distinct_keys(seq![e] + q),
{
    let r = seq![e] + q;
    assert(r[0] == e);
    assert(forall|i: int| 1 <= i < r.len() ==> r[i] == q[i - 1]);
    assert forall|k: u64| has_key(r, k) implies (k == e.key || has_key(q, k)) by {
        let i = choose|i: int| 0 <= i < r.len() && r[i].key == k;
        if i > 0 {
            assert(q[i - 1].key == k);
        }
    }
    assert forall|k: u64| (k == e.key || has_key(q, k)) implies has_key(r, k) by {
        if k == e.key {
            assert(r[0].key == k);
        } else {
            let i = choose|i: int| 0 <= i < q.len() && q[i].key == k;
            assert(r[i + 1].key == k);
        }
    }
    if distinct_keys(q) && !has_key(q, e.key) {
        assert forall|i: int, j: int| 0 <= i < j < r.len() implies r[i].key != r[j].key by {
            if i == 0 {
                assert(r[j] == q[j - 1]);
                assert(has_key(q, q[j - 1].key));
            }
        }
    }
}

/// Membership and distinctness under prepending a key.
proof fn lemma_prepend_key(x: u64, g: Seq<u64>)
    ensures
        forall|k: u64| (seq![x] + g).contains(k) <==> (k == x || g.contains(k)),
        distinct_elems(g) && !g.contains(x) ==> distinct_elems(seq![x] + g),
{
    let r = seq![x] + g;
    assert(r[0] == x);
    assert(forall|i: int| 1 <= i < r.len() ==> r[i] == g[i - 1]);
    assert forall|k: u64| r.contains(k) implies (k == x || g.contains(k)) by {
        let i = choose|i: int| 0 <= i < r.len() && r[i] == k;
        if i > 0 {
            assert(g[i - 1] == k);
        }
    }
    assert forall|k: u64| (k == x || g.contains(k)) implies r.contains(k) by {
        if k == x {
            assert(r[0] == k);
        } else {
            let i = choose|i: int| 0 <= i < g.len() && g[i] == k;
            assert(r[i + 1] == k);
        }
    }
    if distinct_elems(g) && !g.contains(x) {
        assert forall|i: int, j: int| 0 <= i < j < r.len() implies r[i] != r[j] by {
            if i == 0 {
                assert(g.contains(g[j - 1]));
            }
        }
    }
}

/// Membership and distinctness under dropping the tail entry.
proof fn lemma_drop_last_entries(q: Seq<Entry>)
    requires
        q.len() > 0,
    ensures
        forall|k: u64| has_key(q.drop_last(), k) ==> has_key(q, k),
        distinct_keys(q) ==> distinct_keys(q.drop_last()),
        distinct_keys(q) ==> !has_key(q.drop_last(), q.last().key),
{
    let r = q.drop_last();
    assert(forall|i: int| 0 <= i < r.len() ==> r[i] == q[i]);
    assert forall|k: u64| has_key(r, k) implies has_key(q, k) by {
        let i = choose|i: int| 0 <= i < r.len() && r[i].key == k;
        assert(q[i].key == k);
    }
    if distinct_keys(q) {
        if has_key(r, q.last().key) {
            let i = choose|i: int| 0 <= i < r.len() && r[i].key == q.last().key;
            assert(q[i].key == q[q.len() - 1].key);
            assert(false);
        }
    }
}

/// Membership and distinctness under dropping the tail key.
proof fn lemma_drop_last_keys(g: Seq<u64>)
    requires
        g.len() > 0,
    ensures
        forall|k: u64| g.drop_last().contains(k) ==> g.contains(k),
        distinct_elems(g) ==> distinct_elems(g.drop_last()),
{
    let r = g.drop_last();
    assert(forall|i: int| 0 <= i < r.len() ==> r[i] == g[i]);
    assert forall|k: u64| r.contains(k) implies g.contains(k) by {
        let i = choose|i: int| 0 <= i < r.len() && r[i] == k;
        assert(g[i] == k);
    }
}

/// Membership and distinctness under removing one key by index.
proof fn lemma_remove_key(g: Seq<u64>, x: int)
    requires
        0 <= x < g.len(),
    ensures
        forall|k: u64| g.remove(x).contains(k) ==> g.contains(k),
        distinct_elems(g) ==> distinct_elems(g.remove(x)),
{
    let r = g.remove(x);
    assert(forall|i: int| 0 <= i < x ==> r[i] == g[i]);
    assert(forall|i: int| x <= i < r.len() ==> r[i] == g[i + 1]);
    assert forall|k: u64| r.contains(k) implies g.contains(k) by {
        let i = choose|i: int| 0 <= i < r.len() && r[i] == k;
        if i < x {
            assert(g[i] == k);
        } else {
            assert(g[i + 1] == k);
        }
    }
    if distinct_elems(g) {
        assert forall|i: int, j: int| 0 <= i < j < r.len() implies r[i] != r[j] by {
            if j < x {
            } else if i < x {
                assert(r[i] == g[i] && r[j] == g[j + 1]);
            } else {
                assert(r[i] == g[i + 1] && r[j] == g[j + 1]);
            }
        }
    }
}

/// Small-queue eviction keeps the three queues disjoint, and introduces
/// no key beyond moving the small tail's key into main or ghost.
proof fn lemma_evict_small_distinct(s: CacheModel)
    requires
        s.wf(),
        distinct_state(s),
        s.small.len() > 0,
    ensures
        distinct_state(spec_evict_small(s)),
        forall|k: u64| has_key(spec_evict_small(s).small, k) ==> has_key(s.small, k),
        forall|k: u64|
            has_key(spec_evict_small(s).main, k) ==> has_key(s.main, k) || k
                == s.small.last().key,
        forall|k: u64|
            spec_evict_small(s).ghosts.contains(k) ==> s.ghosts.contains(k) || k
                == s.small.last().key,
{
    let tail = s.small.last();
    let r = spec_evict_small(s);
    lemma_drop_last_entries(s.small);
    assert(r.small == s.small.drop_last());
    if tail.freq > 1 {
        let main1 = if s.main.len() >= s.main_cap {
            evict_main_queue(s.main)
        } else {
            s.main
        };
        lemma_evict_main_props(s.main);
        assert(!has_key(main1, tail.key)) by {
            if has_key(main1, tail.key) {
                assert(has_key(s.main, tail.key));
                assert(has_key(s.small, tail.key)) by {
                    assert(s.small[s.small.len() - 1].key == tail.key);
                }
            }
        }
        lemma_prepend_entry(tail, main1);
        assert(r.main == seq![tail] + main1);
        assert(distinct_keys(r.main));
        assert forall|k: u64| !(has_key(r.small, k) && has_key(r.main, k)) by {
            if has_key(r.small, k) && has_key(r.main, k) {
                assert(has_key(s.small, k));
                if k == tail.key {
                    assert(!has_key(r.small, tail.key));
                } else {
                    assert(has_key(main1, k));
                    assert(has_key(s.main, k));
                }
            }
        }
        assert forall|k: u64| !(has_key(r.main, k) && r.ghosts.contains(k)) by {
            if has_key(r.main, k) && r.ghosts.contains(k) {
                if k == tail.key {
                    assert(has_key(s.small, tail.key)) by {
                        assert(s.small[s.small.len() - 1].key == tail.key);
                    }
                } else {
                    assert(has_key(main1, k));
                    assert(has_key(s.main, k));
                }
            }
        }
    } else {
        let ghosts1 = if s.ghosts.len() >= s.main_cap {
            s.ghosts.drop_last()
        } else {
            s.ghosts
        };
        if s.ghosts.len() >= s.main_cap {
            lemma_drop_last_keys(s.ghosts);
        }
        assert(!ghosts1.contains(tail.key)) by {
            if ghosts1.contains(tail.key) {
                assert(s.ghosts.contains(tail.key));
                assert(has_key(s.small, tail.key)) by {
                    assert(s.small[s.small.len() - 1].key == tail.key);
                }
            }
        }
        lemma_prepend_key(tail.key, ghosts1);
        assert(r.ghosts == seq![tail.key] + ghosts1);
        assert(distinct_elems(r.ghosts));
        assert forall|k: u64| !(has_key(r.small, k) && r.ghosts.contains(k)) by {
            if has_key(r.small, k) && r.ghosts.contains(k) {
                assert(has_key(s.small, k));
                if k == tail.key {
                    assert(!has_key(r.small, tail.key));
                } else {
                    assert(ghosts1.contains(k));
                    assert(s.ghosts.contains(k));
                }
            }
        }
        assert forall|k: u64| !(has_key(r.main, k) && r.ghosts.contains(k)) by {
            if has_key(r.main, k) && r.ghosts.contains(k) {
                if k == tail.key {
                    assert(has_key(s.small, tail.key)) by {
                        assert(s.small[s.small.len() - 1].key == tail.key);
                    }
                } else {
                    assert(ghosts1.contains(k));
                    assert(s.ghosts.contains(k));
                }
            }
        }
    }
}

/// Disjointness is an invariant of insertion under the cache-fill
/// discipline: inserting a key that is not currently live (it may well
/// be remembered by the ghost queue) keeps every queue duplicate-free
/// and the three queues disjoint.
pub proof fn lemma_insert_preserves_distinct(s: CacheModel, key: u64, value: u64)
    requires
        s.wf(),
        distinct_state(s),
        !has_key(s.small, key),
        !has_key(s.main, key),
    ensures
        distinct_state(spec_insert(s, key, value)),
{
    let e = Entry { key, value, freq: 0u8 };
    let r = spec_insert(s, key, value);
    if s.ghosts.contains(key) {
        lemma_key_index_first(s.ghosts, key);
        let x = key_index(s.ghosts, key);
        let g1 = s.ghosts.remove(x);
        lemma_remove_key(s.ghosts, x);
        lemma_insert_ghost_fast_path(s, key, value);
        let main1 = if s.main.len() >= s.main_cap {
            evict_main_queue(s.main)
        } else {
            s.main
        };
        lemma_evict_main_props(s.main);
        assert(!has_key(main1, key)) by {
            if has_key(main1, key) {
                assert(has_key(s.main, key));
            }
        }
        lemma_prepend_entry(e, main1);
        assert(r.main == seq![e] + main1);
        assert(distinct_keys(r.main));
        assert forall|k: u64| !(has_key(r.small, k) && has_key(r.main, k)) by {
            if has_key(r.small, k) && has_key(r.main, k) {
                if k == key {
                } else {
                    assert(has_key(main1, k));
                    assert(has_key(s.main, k));
                }
            }
        }
        assert forall|k: u64| !(has_key(r.small, k) && r.ghosts.contains(k)) by {
            if has_key(r.small, k) && r.ghosts.contains(k) {
                assert(s.ghosts.contains(k));
            }
        }
        assert forall|k: u64| !(has_key(r.main, k) && r.ghosts.contains(k)) by {
            if has_key(r.main, k) && r.ghosts.contains(k) {
                if k == key {
                    assert(!r.ghosts.contains(key));
                } else {
                    assert(has_key(main1, k));
                    assert(has_key(s.main, k));
                    assert(s.ghosts.contains(k));
                }
            }
        }
    } else {
        let s1 = if s.small.len() >= s.small_cap {
            spec_evict_small(s)
        } else {
            s
        };
        let ghost tk = if s.small.len() > 0 {
            s.small.last().key
        } else {
            key
        };
        if s.small.len() >= s.small_cap {
            lemma_evict_small_distinct(s);
            assert(key != tk) by {
                assert(has_key(s.small, tk)) by {
                    assert(s.small[s.small.len() - 1].key == tk);
                }
            }
        }
        assert(!has_key(s1.small, key));
        assert(!has_key(s1.main, key));
        assert(!s1.ghosts.contains(key));
        lemma_prepend_entry(e, s1.small);
        assert(r.small == seq![e] + s1.small);
        assert(r.main == s1.main);
        assert(r.ghosts == s1.ghosts);
        assert(distinct_keys(r.small));
        assert forall|k: u64| !(has_key(r.small, k) && has_key(r.main, k)) by {
            if has_key(r.small, k) && has_key(r.main, k) {
                if k == key {
                } else {
                    assert(has_key(s1.small, k));
                }
            }
        }
        assert forall|k: u64| !(has_key(r.small, k) && r.ghosts.contains(k)) by {
            if has_key(r.small, k) && r.ghosts.contains(k) {
                if k == key {
                } else {
                    assert(has_key(s1.small, k));
                }
            }
        }
    }
}

/// Disjointness is an invariant of reading: a hit only bumps one
/// counter, so every queue stays duplicate-free and the three queues
/// stay disjoint (a miss changes nothing at all).
pub proof fn lemma_read_preserves_distinct(s: CacheModel, key: u64)
    requires
        distinct_state(s),
    ensures
        has_key(s.small, key) ==> distinct_state(
            CacheModel { small: bump_first(s.small, key), ..s },
        ),
        !has_key(s.small, key) && has_key(s.main, key) ==> distinct_state(
            CacheModel { main: bump_first(s.main, key), ..s },
        ),
{
    if has_key(s.small, key) {
        lemma_read_hit_shape(s.small, key);
        let b = bump_first(s.small, key);
        assert forall|k: u64| has_key(b, k) implies has_key(s.small, k) by {
            let i = choose|i: int| 0 <= i < b.len() && b[i].key == k;
            assert(s.small[i].key == k);
        }
        assert(distinct_keys(b)) by {
            assert forall|i: int, j: int| 0 <= i < j < b.len() implies b[i].key != b[j].key by {
                assert(b[i].key == s.small[i].key && b[j].key == s.small[j].key);
            }
        }
    }
    if !has_key(s.small, key) && has_key(s.main, key) {
        lemma_read_hit_shape(s.main, key);
        let b = bump_first(s.main, key);
        assert forall|k: u64| has_key(b, k) implies has_key(s.main, k) by {
            let i = choose|i: int| 0 <= i < b.len() && b[i].key == k;
            assert(s.main[i].key == k);
        }
        assert(distinct_keys(b)) by {
            assert forall|i: int, j: int| 0 <= i < j < b.len() implies b[i].key != b[j].key by {
                assert(b[i].key == s.main[i].key && b[j].key == s.main[j].key);
            }
        }
    }
}

/// A main tail whose counter is already zero is discarded at once:
/// eviction performs no rotation.
pub proof fn lemma_evict_main_tail_zero(m: Seq<Entry>)
    requires
        m.len() > 0,
        m.last().freq == 0,
    ensures
        evict_main_queue(m) == m.drop_last(),
{
}

/// Re-admitting a key into a full main queue whose tail has counter
/// zero evicts exactly that tail: the surviving entries keep their
/// order behind the new head entry.
pub proof fn lemma_insert_main_aging(s: CacheModel, key: u64, value: u64)
    requires
        s.wf(),
        s.ghosts.contains(key),
        s.main.len() == s.main_cap,
        s.main.last().freq == 0,
    ensures
        spec_insert(s, key, value).main == seq![Entry { key, value, freq: 0u8 }]
            + s.main.drop_last(),
{
    lemma_evict_main_tail_zero(s.main);
}

} // verus!
