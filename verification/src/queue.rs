//! The eviction queue: a least-recently-used queue of message identifiers,
//! backed by the `lru` crate. The queue is kept unbounded; the cache bound is
//! enforced by the tangle's eviction pass, not by the queue itself.
//!
//! The queue's contents are modelled by [`lru_queue`], the sequence of keys
//! from least recently to most recently used.

use vstd::prelude::*;

verus! {

#[verifier::external_type_specification]
#[verifier::external_body]
#[verifier::reject_recursive_types(K)]
#[verifier::reject_recursive_types(V)]
#[verifier::reject_recursive_types(S)]
pub struct ExLruCache<K, V, S>(lru::LruCache<K, V, S>);

/// The keys held by the queue, ordered from least recently used (index 0) to
/// most recently used (last).
pub uninterp spec fn lru_queue(q: lru::LruCache<u64, ()>) -> Seq<u64>;

/// Relies on lru::LruCache::unbounded: the new cache is empty, and its
/// capacity is usize::MAX, so a later put never drops an entry for capacity
/// (that many entries cannot exist at once).
#[verifier::external_body]
pub(crate) fn lru_new() -> (q: lru::LruCache<u64, ()>)
    ensures
        lru_queue(q) == Seq::<u64>::empty(),
{
    lru::LruCache::unbounded()
}

/// Relies on lru::LruCache::put on an unbounded cache: the key becomes the
/// most recently used entry; if it was already present it is moved, otherwise
/// it is added, and no other entry is touched.
#[verifier::external_body]
pub(crate) fn lru_put(q: &mut lru::LruCache<u64, ()>, k: u64)
    ensures
        lru_queue(*final(q)) == lru_queue(*old(q)).filter(|x: u64| x != k).push(k),
{
    q.put(k, ());
}

/// Relies on lru::LruCache::pop_lru: removes and returns the least recently
/// used entry, or returns None on an empty cache.
#[verifier::external_body]
pub(crate) fn lru_pop(q: &mut lru::LruCache<u64, ()>) -> (r: Option<u64>)
    ensures
        match r {
            Some(k) => {
                &&& lru_queue(*old(q)).len() > 0
                &&& k == lru_queue(*old(q))[0]
                &&& lru_queue(*final(q)) == lru_queue(*old(q)).drop_first()
            },
            None => {
                &&& lru_queue(*old(q)).len() == 0
                &&& lru_queue(*final(q)) == lru_queue(*old(q))
            },
        },
{
    q.pop_lru().map(|(k, _)| k)
}

/// What a promotion does to the queue, seen through membership: the promoted
/// key is now held exactly once, as the most recent entry, nothing else
/// changes, and a key that was absent is simply appended.
pub proof fn lemma_promote(s: Seq<u64>, k: u64)
    requires
        s.no_duplicates(),
    ensures
        ({
            let f = s.filter(|x: u64| x != k);
            &&& f.push(k).no_duplicates()
            &&& forall|x: u64| #[trigger] f.push(k).contains(x) <==> (s.contains(x) || x == k)
            &&& !s.contains(k) ==> f.push(k) == s.push(k)
        }),
    decreases s.len(),
{
    reveal(Seq::filter);
    let p = |x: u64| x != k;
    let f = s.filter(p);
    if s.len() == 0 {
        assert(f =~= s);
        assert forall|x: u64| #[trigger] f.push(k).contains(x) implies (s.contains(x) || x == k) by {
            let i = choose|i: int| 0 <= i < f.push(k).len() && f.push(k)[i] == x;
            assert(i == 0);
        }
        assert(f.push(k).contains(k)) by {
            assert(f.push(k)[0] == k);
        }
        assert(!s.contains(k) ==> f.push(k) =~= s.push(k));
    } else {
        let s0 = s.drop_last();
        let last = s.last();
        assert(s0.no_duplicates());
        lemma_promote(s0, k);
        let f0 = s0.filter(p);
        assert(s.contains(last)) by {
            assert(s[s.len() - 1] == last);
        }
        assert forall|x: u64| #[trigger] s0.contains(x) implies s.contains(x) by {
            let i = choose|i: int| 0 <= i < s0.len() && s0[i] == x;
            assert(s[i] == x);
        }
        assert(!s0.contains(last)) by {
            if s0.contains(last) {
                let i = choose|i: int| 0 <= i < s0.len() && s0[i] == last;
                assert(s[i] == s[s.len() - 1]);
            }
        }
        assert forall|x: u64| s.contains(x) implies (s0.contains(x) || x == last) by {
            let i = choose|i: int| 0 <= i < s.len() && s[i] == x;
            if i < s.len() - 1 {
                assert(s0[i] == x);
            }
        }
        if last == k {
            assert(f == f0);
            assert forall|x: u64| #[trigger] f.push(k).contains(x) implies (s.contains(x) || x
                == k) by {
                assert(f0.push(k).contains(x));
            }
            assert forall|x: u64| s.contains(x) || x == k implies #[trigger] f.push(k).contains(
                x,
            ) by {
                if s0.contains(x) || x == k {
                    assert(f0.push(k).contains(x));
                }
            }
        } else {
            assert(f == f0.push(last));
            assert(!f0.contains(last)) by {
                if f0.contains(last) {
                    let i = choose|i: int| 0 <= i < f0.len() && f0[i] == last;
                    assert(f0.push(k)[i] == last);
                    assert(f0.push(k).contains(last));
                }
            }
            assert(f.no_duplicates()) by {
                assert forall|i: int, j: int|
                    0 <= i < f.len() && 0 <= j < f.len() && i != j implies f[i] != f[j] by {
                    if i < f0.len() && j < f0.len() {
                        assert(f0.push(k).no_duplicates());
                        assert(f0.push(k)[i] == f0[i] && f0.push(k)[j] == f0[j]);
                    } else if i == f0.len() && j < f0.len() {
                        assert(f0.contains(f0[j])) by {
                            assert(f0[j] == f0[j]);
                        }
                    } else if j == f0.len() && i < f0.len() {
                        assert(f0.contains(f0[i])) by {
                            assert(f0[i] == f0[i]);
                        }
                    }
                }
            }
            assert(!f.contains(k)) by {
                if f.contains(k) {
                    let i = choose|i: int| 0 <= i < f.len() && f[i] == k;
                    if i < f0.len() {
                        assert(f0.push(k).contains(f0[i])) by {
                            assert(f0.push(k)[i] == f0[i]);
                        }
                    }
                }
            }
            assert(f.push(k).no_duplicates()) by {
                assert forall|i: int, j: int|
                    0 <= i < f.push(k).len() && 0 <= j < f.push(k).len() && i != j implies f.push(
                    k,
                )[i] != f.push(k)[j] by {
                    if i < f.len() && j < f.len() {
                    } else if i == f.len() && j < f.len() {
                        assert(f.contains(f[j])) by {
                            assert(f[j] == f[j]);
                        }
                    } else if j == f.len() && i < f.len() {
                        assert(f.contains(f[i])) by {
                            assert(f[i] == f[i]);
                        }
                    }
                }
            }
            assert forall|x: u64| #[trigger] f.push(k).contains(x) implies (s.contains(x) || x
                == k) by {
                let i = choose|i: int| 0 <= i < f.push(k).len() && f.push(k)[i] == x;
                if i < f0.len() {
                    assert(f0.push(k).contains(x)) by {
                        assert(f0.push(k)[i] == f0[i]);
                    }
                } else if i == f0.len() {
                    assert(x == last);
                }
            }
            assert forall|x: u64| s.contains(x) || x == k implies #[trigger] f.push(k).contains(
                x,
            ) by {
                if x == last {
                    assert(f.push(k)[f0.len() as int] == last);
                } else if s0.contains(x) || x == k {
                    assert(f0.push(k).contains(x));
                    let i = choose|i: int| 0 <= i < f0.push(k).len() && f0.push(k)[i] == x;
                    if i < f0.len() {
                        assert(f.push(k)[i] == f0[i]);
                    } else {
                        assert(x == k);
                        assert(f.push(k)[f.len() as int] == k);
                    }
                }
            }
            if !s.contains(k) {
                assert(!s0.contains(k));
                assert(f0.push(k) == s0.push(k));
                assert(f0 =~= s0) by {
                    assert(f0.push(k).len() == s0.push(k).len());
                    assert forall|i: int| 0 <= i < f0.len() implies f0[i] == s0[i] by {
                        assert(f0.push(k)[i] == s0.push(k)[i]);
                    }
                }
                assert(f.push(k) =~= s.push(k));
            }
        }
    }
}

/// Relies on lru::LruCache::len: the number of entries in the queue.
#[verifier::external_body]
pub(crate) fn lru_len(q: &lru::LruCache<u64, ()>) -> (r: usize)
    ensures
        r == lru_queue(*q).len(),
{
    q.len()
}

} // verus!
