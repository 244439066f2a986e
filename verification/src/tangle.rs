//! The tangle facade: a bounded, write-through in-memory cache over a
//! directed acyclic graph of messages, fronting a backing store reached
//! through [`Hooks`].
//!
//! The cache is modelled by three spec-level pieces: [`Tangle::index`], the
//! map from message identifier to vertex; [`Tangle::queue`], the recency
//! queue (least recently used first); and [`Tangle::cap`], the configured
//! bound. Eviction runs at the tail of every insertion and brings the index
//! down to nine tenths of the bound, never removing a pinned vertex.

use vstd::prelude::*;

use std::collections::HashMap;

use crate::hooks::{Hooks, NullHooks};
use crate::message::{Message, MessageRef};
use crate::queue::{lemma_promote, lru_len, lru_new, lru_pop, lru_put, lru_queue};
use crate::vertex::Vertex;

verus! {

broadcast use vstd::std_specs::hash::group_hash_axioms;

/// The default bound on the number of cached vertices.
pub const DEFAULT_CACHE_LEN: usize = 100_000;

/// A bounded, write-through in-memory cache of the message graph.
pub struct Tangle<T, H = NullHooks<T>> {
    vertices: HashMap<u64, Vertex<T>>,
    cache_queue: lru::LruCache<u64, ()>,
    max_len: usize,
    hooks: H,
}

/// `v1` is `v0` with its pin counter moved by `dp` and nothing else changed.
pub open spec fn same_but_pin<T>(v0: Vertex<T>, v1: Vertex<T>, dp: int) -> bool {
    &&& v1.spec_message() == v0.spec_message()
    &&& v1.spec_metadata() == v0.spec_metadata()
    &&& v1.spec_children() == v0.spec_children()
    &&& v1.spec_exhaustive() == v0.spec_exhaustive()
    &&& v1.spec_pin() == v0.spec_pin() + dp
}

/// `s` is a snapshot of the vertex `v0`: the same message content, children,
/// exhaustiveness and pin, with the metadata a clone of `v0`'s.
pub open spec fn snapshot_of<T: Clone>(v0: Vertex<T>, s: Vertex<T>) -> bool {
    &&& match (v0.spec_message(), s.spec_message()) {
        (Some(a), Some(b)) => a@ == b@,
        (None, None) => true,
        _ => false,
    }
    &&& match (v0.spec_metadata(), s.spec_metadata()) {
        (Some(a), Some(b)) => cloned(a, b),
        (None, None) => true,
        _ => false,
    }
    &&& s.spec_children() == v0.spec_children()
    &&& s.spec_exhaustive() == v0.spec_exhaustive()
    &&& s.spec_pin() == v0.spec_pin()
}

/// `v1` is the vertex `v0` (or a fresh placeholder, when `v0` is absent)
/// after recording `child` as one of its children.
pub open spec fn parent_updated<T>(v0: Option<Vertex<T>>, v1: Vertex<T>, child: u64) -> bool {
    match v0 {
        Some(v) => {
            &&& v1.spec_message() == v.spec_message()
            &&& v1.spec_metadata() == v.spec_metadata()
            &&& v1.spec_exhaustive() == v.spec_exhaustive()
            &&& v1.spec_pin() == v.spec_pin()
            &&& v1.children_set() == v.children_set().insert(child)
        },
        None => {
            &&& v1.spec_message() is None
            &&& v1.spec_metadata() is None
            &&& !v1.spec_exhaustive()
            &&& v1.spec_pin() == 0
            &&& v1.children_set() == Set::<u64>::empty().insert(child)
        },
    }
}

/// `v1` is the vertex `v0` (or a fresh placeholder, when `v0` is absent)
/// after installing a message with parents `msgv` and metadata `meta`, with
/// `pin_delta` pins taken.
pub open spec fn installed_from<T>(
    v0: Option<Vertex<T>>,
    v1: Vertex<T>,
    msgv: Seq<u64>,
    meta: T,
    pin_delta: int,
) -> bool {
    &&& v1.spec_message() matches Some(m) && m@ == msgv
    &&& v1.spec_metadata() == Some(meta)
    &&& match v0 {
        Some(v) => {
            &&& v1.spec_children() == v.spec_children()
            &&& v1.spec_exhaustive() == v.spec_exhaustive()
            &&& v1.spec_pin() == v.spec_pin() + pin_delta
        },
        None => {
            &&& v1.spec_children() == Seq::<u64>::empty()
            &&& !v1.spec_exhaustive()
            &&& v1.spec_pin() == pin_delta
        },
    }
}

/// The in-memory effect of inserting a message for `id` with parent list
/// `msgv` and metadata `meta`, before any eviction. If the identifier already
/// holds a message, only its pin may move; otherwise the message is
/// installed, and `id` is recorded as a child of every parent, placeholders
/// being created as needed.
pub open spec fn install_step<T>(
    m0: Map<u64, Vertex<T>>,
    m1: Map<u64, Vertex<T>>,
    id: u64,
    msgv: Seq<u64>,
    meta: T,
    prevent: bool,
    installed: bool,
) -> bool {
    let occupied = m0.contains_key(id) && m0[id].has_message();
    let pin_delta: int = if prevent {
        1
    } else {
        0
    };
    &&& installed == !occupied
    &&& if occupied {
        &&& m1.dom() == m0.dom()
        &&& same_but_pin(m0[id], m1[id], pin_delta)
        &&& forall|k: u64| #[trigger] m0.dom().contains(k) && k != id ==> m1[k] == m0[k]
    } else {
        &&& m1.dom() == m0.dom().insert(id).union(msgv.to_set())
        &&& installed_from(
            if m0.contains_key(id) {
                Some(m0[id])
            } else {
                None
            },
            m1[id],
            msgv,
            meta,
            pin_delta,
        )
        &&& forall|p: u64|
            msgv.contains(p) && p != id ==> parent_updated(
                if m0.contains_key(p) {
                    Some(m0[p])
                } else {
                    None
                },
                #[trigger] m1[p],
                id,
            )
        &&& forall|k: u64|
            #[trigger] m1.dom().contains(k) && k != id && !msgv.contains(k) ==> m0.dom().contains(
                k,
            ) && m1[k] == m0[k]
    }
}

/// Where eviction brings the index, as a count of entries: nine tenths of
/// the bound, rounded down.
pub open spec fn evict_target(cap: usize) -> int {
    9 * (cap as int) / 10
}

/// `m1` is contained in `m0`: every entry of `m1` is an entry of `m0`.
pub open spec fn contained_in<T>(m1: Map<u64, Vertex<T>>, m0: Map<u64, Vertex<T>>) -> bool {
    forall|k: u64| #[trigger] m1.dom().contains(k) ==> m0.dom().contains(k) && m1[k] == m0[k]
}

/// The eviction pass takes its victims in recency order: for the queue `q0`
/// at the start of the pass, there is a processed prefix such that every
/// removed vertex came from that prefix, while every surviving unpinned
/// vertex still queued sits in the unprocessed remainder -- so a removed
/// vertex was always less recently used than any unpinned survivor.
pub open spec fn evicted_in_lru_order<T>(
    m0: Map<u64, Vertex<T>>,
    m1: Map<u64, Vertex<T>>,
    q0: Seq<u64>,
) -> bool {
    exists|i: int|
        #![trigger q0.skip(i)]
        {
            &&& 0 <= i <= q0.len()
            &&& (forall|k: u64|
                #[trigger] m0.dom().contains(k) && !m1.dom().contains(k) ==> q0.take(i).contains(
                    k,
                ))
            &&& (forall|k: u64|
                #[trigger] m1.dom().contains(k) && m1[k].spec_pin() == 0 && q0.contains(k)
                    ==> q0.skip(i).contains(k))
        }
}

/// The eviction pass's effect on the queue: a processed prefix is popped off
/// the least recently used end, and the only entries appended after the
/// unprocessed remainder are re-queued victims, each still cached and pinned
/// -- a skipped victim is deferred with fresh most-recently-used recency.
pub open spec fn queue_after_eviction<T>(q0: Seq<u64>, q1: Seq<u64>, m1: Map<u64, Vertex<T>>) -> bool {
    exists|i: int|
        #![trigger q0.skip(i)]
        {
            &&& 0 <= i <= q0.len()
            &&& q0.len() - i <= q1.len()
            &&& q1.take(q0.len() - i) == q0.skip(i)
            &&& forall|j: int|
                q0.len() - i <= j < q1.len() ==> m1.dom().contains(#[trigger] q1[j])
                    && m1[q1[j]].spec_pin() > 0
        }
}

/// The effect of one eviction pass with bound `cap` on the index: nothing is
/// added or changed, a pinned vertex is never removed, an index within the
/// bound is left alone, and an index over the bound is brought down to the
/// target unless only pinned vertices remain.
pub open spec fn evicted_to<T>(m0: Map<u64, Vertex<T>>, m1: Map<u64, Vertex<T>>, cap: usize) -> bool {
    &&& contained_in(m1, m0)
    &&& forall|k: u64|
        #[trigger] m0.dom().contains(k) && m0[k].spec_pin() > 0 ==> m1.dom().contains(k)
    &&& m0.len() <= cap ==> m1 == m0
    &&& m0.len() > cap ==> (m1.len() <= evict_target(cap) || forall|k: u64|
        #[trigger] m1.dom().contains(k) ==> m1[k].spec_pin() > 0)
}

/// Every vertex that survives a step keeps its exhaustiveness: the flag can
/// only go from false to true, never back.
pub open spec fn exhaustive_monotonic<T>(m0: Map<u64, Vertex<T>>, m1: Map<u64, Vertex<T>>) -> bool {
    forall|k: u64|
        m0.dom().contains(k) && #[trigger] m1.dom().contains(k) && m0[k].spec_exhaustive()
            ==> m1[k].spec_exhaustive()
}

impl<T, H> Tangle<T, H> {
    /// The cached vertices, as a map from message identifier to vertex.
    pub closed spec fn index(self) -> Map<u64, Vertex<T>> {
        self.vertices@
    }

    /// The recency queue: identifiers from least to most recently used.
    pub closed spec fn queue(self) -> Seq<u64> {
        lru_queue(self.cache_queue)
    }

    /// The configured bound on the number of cached vertices.
    pub closed spec fn cap(self) -> usize {
        self.max_len
    }

    /// The hooks the tangle writes through to.
    pub closed spec fn spec_hooks(self) -> H {
        self.hooks
    }

    /// Whether `id` holds a message in the cache right now.
    pub open spec fn occupied(self, id: u64) -> bool {
        self.index().contains_key(id) && self.index()[id].has_message()
    }

    /// Well-formedness: every vertex is well formed, every cached identifier
    /// is in the recency queue, and the queue holds no identifier twice.
    pub open spec fn wf(self) -> bool {
        &&& forall|k: u64| #[trigger] self.index().dom().contains(k) ==> self.index()[k].wf()
        &&& forall|k: u64| #[trigger] self.index().dom().contains(k) ==> self.queue().contains(k)
        &&& self.queue().no_duplicates()
    }

    /// No vertex is pinned. Pins are taken and released within each tangle
    /// operation, so this holds whenever no operation is in progress.
    pub open spec fn at_rest(self) -> bool {
        forall|k: u64|
            #[trigger] self.index().dom().contains(k) ==> self.index()[k].spec_pin() == 0
    }

    /// Changes the bound on the number of cached vertices. Takes effect at
    /// the next eviction pass; this call alone evicts nothing.
    pub fn resize(&mut self, len: usize)
        ensures
            final(self).cap() == len,
            final(self).index() == old(self).index(),
            final(self).queue() == old(self).queue(),
            final(self).spec_hooks() == old(self).spec_hooks(),
            old(self).wf() ==> final(self).wf(),
            old(self).at_rest() ==> final(self).at_rest(),
    {
        self.max_len = len;
        proof {
            assert(self.index() == old(self).index());
            assert(self.queue() == old(self).queue());
            if old(self).wf() {
                assert forall|k: u64| #[trigger]
                    self.index().dom().contains(k) implies self.index()[k].wf()
                    && self.queue().contains(k) by {
                    assert(old(self).index().dom().contains(k));
                }
            }
            if old(self).at_rest() {
                assert forall|k: u64| #[trigger]
                    self.index().dom().contains(k) implies self.index()[k].spec_pin() == 0 by {
                    assert(old(self).index().dom().contains(k));
                }
            }
        }
    }

    /// The storage hooks used by this tangle.
    pub fn hooks(&self) -> (r: &H)
        ensures
            *r == self.spec_hooks(),
    {
        &self.hooks
    }

    /// The number of cached vertices.
    pub fn len(&self) -> (r: usize)
        ensures
            r == self.index().len(),
    {
        self.vertices.len()
    }

    /// Whether the cache holds no vertex at all.
    pub fn is_empty(&self) -> (r: bool)
        ensures
            r == (self.index().len() == 0),
    {
        self.len() == 0
    }

    /// Makes `id` the most recently used entry of the recency queue.
    fn promote(&mut self, id: u64)
        requires
            old(self).queue().no_duplicates(),
        ensures
            final(self).index() == old(self).index(),
            final(self).cap() == old(self).cap(),
            final(self).spec_hooks() == old(self).spec_hooks(),
            final(self).queue().no_duplicates(),
            final(self).queue() == old(self).queue().filter(|x: u64| x != id).push(id),
            final(self).queue().len() > 0 && final(self).queue().last() == id,
            forall|x: u64|
                #[trigger] final(self).queue().contains(x) <==> (old(self).queue().contains(x) || x
                    == id),
            old(self).wf() ==> final(self).wf(),
    {
        proof {
            lemma_promote(lru_queue(self.cache_queue), id);
        }
        lru_put(&mut self.cache_queue, id);
        proof {
            if old(self).wf() {
                assert forall|k: u64| #[trigger]
                    self.index().dom().contains(k) implies self.queue().contains(k) by {
                    assert(old(self).index().dom().contains(k));
                    assert(old(self).queue().contains(k));
                }
            }
        }
    }

    /// The eviction target for the given bound, as a count of entries.
    fn evict_target_len(cap: usize) -> (r: usize)
        ensures
            r as int == evict_target(cap),
    {
        proof {
            assert((cap as u128) * 9 / 10 <= cap as u128);
        }
        (((cap as u128) * 9) / 10) as usize
    }

    /// Pops victims from the least recently used end until the index is at
    /// the eviction target, skipping (and re-queueing) pinned vertices. Runs
    /// only when the index exceeds the bound.
    fn perform_eviction(&mut self)
        requires
            old(self).wf(),
        ensures
            final(self).wf(),
            final(self).cap() == old(self).cap(),
            final(self).spec_hooks() == old(self).spec_hooks(),
            evicted_to(old(self).index(), final(self).index(), old(self).cap()),
            evicted_in_lru_order(old(self).index(), final(self).index(), old(self).queue()),
            queue_after_eviction(old(self).queue(), final(self).queue(), final(self).index()),
            old(self).index().len() <= old(self).cap() ==> final(self).queue() == old(self).queue(),
    {
        let max_len = self.max_len;
        let len = self.vertices.len();
        if len > max_len {
            let target = Self::evict_target_len(max_len);
            let ghost m_in = self.index();
            let ghost q_in = self.queue();
            let mut attempts = lru_len(&self.cache_queue);
            let ghost a0 = attempts as int;
            let ghost mut reinserted: Seq<u64> = Seq::empty();
            proof {
                assert(q_in.skip(0) + reinserted =~= q_in);
            }
            while attempts > 0 && self.vertices.len() > target
                invariant
                    self.wf(),
                    self.cap() == old(self).cap(),
                    self.spec_hooks() == old(self).spec_hooks(),
                    contained_in(self.index(), m_in),
                    forall|k: u64|
                        #[trigger] m_in.dom().contains(k) && m_in[k].spec_pin() > 0
                            ==> self.index().dom().contains(k),
                    0 <= attempts <= a0,
                    a0 == q_in.len(),
                    self.queue() =~= q_in.skip(a0 - attempts) + reinserted,
                    forall|x: u64|
                        #[trigger] reinserted.contains(x) ==> self.index().dom().contains(x)
                            && self.index()[x].spec_pin() > 0,
                    forall|k: u64|
                        #[trigger] m_in.dom().contains(k) && !self.index().dom().contains(k)
                            ==> q_in.take(a0 - attempts).contains(k),
                decreases attempts,
            {
                let ghost i = a0 - attempts;
                let ghost q_cur = self.queue();
                let ghost m_cur = self.index();
                let popped = lru_pop(&mut self.cache_queue);
                proof {
                    assert(q_in.skip(i).len() == a0 - i);
                }
                match popped {
                    Some(id) => {
                        proof {
                            assert(id == q_cur[0]);
                            assert(id == q_in.skip(i)[0]);
                            assert(lru_queue(self.cache_queue) =~= q_in.skip(i + 1) + reinserted)
                                by {
                                assert(q_cur.drop_first() =~= q_in.skip(i + 1) + reinserted);
                            }
                            // the popped identifier is in neither remainder
                            assert(!q_in.skip(i + 1).contains(id) && !reinserted.contains(id)) by {
                                assert forall|j: int|
                                    0 <= j < q_cur.len() && q_cur[j] == id implies j == 0 by {
                                    if j != 0 {
                                        assert(q_cur[j] == q_cur[0]);
                                    }
                                }
                                if q_in.skip(i + 1).contains(id) {
                                    let j = choose|j: int|
                                        0 <= j < q_in.skip(i + 1).len() && #[trigger] q_in.skip(
                                            i + 1,
                                        )[j] == id;
                                    assert(q_cur[j + 1] == id);
                                }
                                if reinserted.contains(id) {
                                    let j = choose|j: int|
                                        0 <= j < reinserted.len() && reinserted[j] == id;
                                    assert(q_cur[q_in.skip(i).len() + j] == id);
                                }
                            }
                        }
                        let removed = self.vertices.remove(&id);
                        match removed {
                            Some(v) => {
                                proof {
                                    assert(contained_in(m_cur, m_in));
                                    assert(m_cur.dom().contains(id));
                                    assert(v == m_cur[id]);
                                    assert(m_in.dom().contains(id));
                                    assert(m_cur[id] == m_in[id]);
                                }
                                if !v.can_evict() {
                                    self.vertices.insert(id, v);
                                    proof {
                                        assert(self.index() =~= m_cur);
                                        lemma_promote(lru_queue(self.cache_queue), id);
                                    }
                                    lru_put(&mut self.cache_queue, id);
                                    proof {
                                        let r_old = reinserted;
                                        reinserted = r_old.push(id);
                                        assert(!(q_in.skip(i + 1) + r_old).contains(id));
                                        assert(lru_queue(self.cache_queue) =~= (q_in.skip(i + 1)
                                            + r_old).push(id));
                                        assert(self.queue() =~= q_in.skip(i + 1) + reinserted) by {
                                            assert((q_in.skip(i + 1) + r_old).push(id) =~= q_in.skip(
                                                i + 1,
                                            ) + r_old.push(id));
                                        }
                                        assert forall|x: u64| #[trigger]
                                            reinserted.contains(x) implies self.index().dom()
                                            .contains(x) && self.index()[x].spec_pin() > 0 by {
                                            let j = choose|j: int|
                                                0 <= j < reinserted.len() && reinserted[j] == x;
                                            if j < r_old.len() {
                                                assert(r_old.contains(x)) by {
                                                    assert(r_old[j] == x);
                                                }
                                                assert(m_cur.dom().contains(x) && m_cur[x].spec_pin()
                                                    > 0);
                                            } else {
                                                assert(x == id);
                                                assert(m_cur[id].spec_pin() > 0);
                                            }
                                        }
                                        assert forall|k: u64| #[trigger]
                                            self.index().dom().contains(k) implies self.queue()
                                            .contains(k) by {
                                            assert(m_cur.dom().contains(k));
                                            assert(q_cur.contains(k));
                                            if k == id {
                                                assert(self.queue()[self.queue().len() - 1] == id);
                                            } else {
                                                let j = choose|j: int|
                                                    0 <= j < q_cur.len() && q_cur[j] == k;
                                                assert(j != 0);
                                                assert((q_in.skip(i + 1) + r_old)[j - 1] == k);
                                                assert(self.queue()[j - 1] == k);
                                            }
                                        }
                                    }
                                } else {
                                    proof {
                                        assert(self.index() =~= m_cur.remove(id));
                                        assert(m_cur[id].spec_pin() == 0);
                                        assert forall|k: u64| #[trigger]
                                            m_in.dom().contains(k) && m_in[k].spec_pin()
                                            > 0 implies self.index().dom().contains(k) by {
                                            if k == id {
                                                assert(m_cur[id] == m_in[id]);
                                            }
                                        }
                                        assert forall|k: u64| #[trigger]
                                            self.index().dom().contains(k) implies self.queue()
                                            .contains(k) by {
                                            assert(m_cur.dom().contains(k));
                                            assert(q_cur.contains(k));
                                            let j = choose|j: int|
                                                0 <= j < q_cur.len() && q_cur[j] == k;
                                            assert(j != 0);
                                            assert(self.queue()[j - 1] == k);
                                        }
                                        assert forall|x: u64| #[trigger]
                                            reinserted.contains(x) implies self.index().dom()
                                            .contains(x) && self.index()[x].spec_pin() > 0 by {
                                            assert(x != id);
                                        }
                                    }
                                }
                            },
                            None => {
                                proof {
                                    assert(self.index() =~= m_cur);
                                    assert forall|k: u64| #[trigger]
                                        self.index().dom().contains(k) implies self.queue()
                                        .contains(k) by {
                                        assert(q_cur.contains(k));
                                        let j = choose|j: int|
                                            0 <= j < q_cur.len() && q_cur[j] == k;
                                        assert(j != 0) by {
                                            if j == 0 {
                                                assert(m_cur.dom().contains(id));
                                            }
                                        }
                                        assert(self.queue()[j - 1] == k);
                                    }
                                }
                            },
                        }
                        proof {
                            assert forall|k: u64|
                                #[trigger] m_in.dom().contains(k) && !self.index().dom().contains(
                                    k,
                                ) implies q_in.take(i + 1).contains(k) by {
                                if !m_cur.dom().contains(k) {
                                    assert(q_in.take(i).contains(k));
                                    let j = choose|j: int|
                                        0 <= j < q_in.take(i).len() && q_in.take(i)[j] == k;
                                    assert(q_in.take(i + 1)[j] == k);
                                } else {
                                    assert(k == id);
                                    assert(q_in.take(i + 1)[i] == id);
                                }
                            }
                        }
                        attempts = attempts - 1;
                    },
                    None => {
                        proof {
                            assert(q_cur.len() == 0);
                            assert forall|k: u64| !(#[trigger] self.index().dom().contains(
                                k,
                            )) by {
                                if self.index().dom().contains(k) {
                                    assert(self.queue().contains(k));
                                }
                            }
                            assert(self.index().dom() =~= Set::<u64>::empty());
                            assert(self.index().len() == 0);
                            assert(reinserted =~= Seq::<u64>::empty());
                            assert(self.queue() =~= q_in.skip(a0) + reinserted) by {
                                assert(q_in.skip(i).len() + reinserted.len() == 0);
                                assert(a0 - i <= 0 || q_in.skip(i).len() == a0 - i);
                            }
                            assert forall|k: u64|
                                #[trigger] m_in.dom().contains(k) && !self.index().dom().contains(
                                    k,
                                ) implies q_in.take(a0).contains(k) by {
                                assert(q_in.take(i).contains(k));
                                let j = choose|j: int|
                                    0 <= j < q_in.take(i).len() && q_in.take(i)[j] == k;
                                assert(q_in.take(a0)[j] == k);
                            }
                        }
                        attempts = 0;
                    },
                }
            }
            proof {
                if self.index().len() > evict_target(old(self).cap()) {
                    assert(attempts == 0);
                    assert(q_in.skip(a0).len() == 0);
                    assert(self.queue() =~= reinserted) by {
                        assert(q_in.skip(a0) + reinserted =~= reinserted);
                    }
                    assert forall|k: u64| #[trigger]
                        self.index().dom().contains(k) implies self.index()[k].spec_pin() > 0 by {
                        assert(self.queue().contains(k));
                        assert(reinserted.contains(k));
                    }
                }
                let i_f = a0 - attempts;
                assert forall|k: u64|
                    #[trigger] self.index().dom().contains(k) && self.index()[k].spec_pin() == 0
                        && q_in.contains(k) implies q_in.skip(i_f).contains(k) by {
                    assert(self.queue().contains(k));
                    let j = choose|j: int|
                        0 <= j < self.queue().len() && self.queue()[j] == k;
                    if j < q_in.skip(i_f).len() {
                        assert(q_in.skip(i_f)[j] == k);
                    } else {
                        assert(reinserted[j - q_in.skip(i_f).len()] == k);
                        assert(reinserted.contains(k));
                    }
                }
                assert(evicted_in_lru_order(m_in, self.index(), q_in)) by {
                    assert(0 <= i_f <= q_in.len());
                    assert(forall|k: u64|
                        #[trigger] m_in.dom().contains(k) && !self.index().dom().contains(k)
                            ==> q_in.take(i_f).contains(k));
                }
                assert(queue_after_eviction(q_in, self.queue(), self.index())) by {
                    let q1 = self.queue();
                    assert(q1 =~= q_in.skip(i_f) + reinserted);
                    assert(q1.take(q_in.len() - i_f) =~= q_in.skip(i_f));
                    assert forall|j: int|
                        q_in.len() - i_f <= j < q1.len() implies self.index().dom().contains(
                        #[trigger] q1[j],
                    ) && self.index()[q1[j]].spec_pin() > 0 by {
                        assert(q1[j] == reinserted[j - (q_in.len() - i_f)]);
                        assert(reinserted.contains(q1[j]));
                    }
                }
            }
        } else {
            proof {
                assert(queue_after_eviction(self.queue(), self.queue(), self.index())) by {
                    let q0 = self.queue();
                    assert(q0.skip(0) =~= q0);
                    assert(q0.take(q0.len() - 0) =~= q0);
                }
                assert(evicted_in_lru_order(old(self).index(), self.index(), self.queue())) by {
                    let q0 = self.queue();
                    assert(0 <= 0 <= q0.len());
                    assert(forall|k: u64|
                        #[trigger] old(self).index().dom().contains(k)
                            && !self.index().dom().contains(k) ==> q0.take(0).contains(k));
                    assert forall|k: u64|
                        #[trigger] self.index().dom().contains(k) && self.index()[k].spec_pin()
                            == 0 && q0.contains(k) implies q0.skip(0).contains(k) by {
                        assert(q0.skip(0) =~= q0);
                    }
                }
            }
        }
    }
}


/// Pushing an element onto a sequence inserts it into the element set.
proof fn lemma_push_to_set(s: Seq<u64>, x: u64)
    ensures
        s.push(x).to_set() =~= s.to_set().insert(x),
{
    assert forall|y: u64| s.push(x).to_set().contains(y) implies s.to_set().insert(x).contains(
        y,
    ) by {
        let i = choose|i: int| 0 <= i < s.push(x).len() && s.push(x)[i] == y;
        if i < s.len() {
            assert(s[i] == y);
            assert(s.contains(y));
        }
    }
    assert forall|y: u64| s.to_set().insert(x).contains(y) implies s.push(x).to_set().contains(
        y,
    ) by {
        if y == x {
            assert(s.push(x)[s.len() as int] == y);
            assert(s.push(x).contains(y));
        } else {
            let i = choose|i: int| 0 <= i < s.len() && s[i] == y;
            assert(s.push(x)[i] == y);
            assert(s.push(x).contains(y));
        }
    }
}

/// The entry of the index at `k`, if any.
pub open spec fn entry_of<T>(m: Map<u64, Vertex<T>>, k: u64) -> Option<Vertex<T>> {
    if m.contains_key(k) {
        Some(m[k])
    } else {
        None
    }
}

/// Copies a list of identifiers.
fn clone_ids(v: &Vec<u64>) -> (r: Vec<u64>)
    ensures
        r@ == v@,
{
    let r = v.clone();
    proof {
        assert(r@ =~= v@);
    }
    r
}

/// Whether `x` occurs in the list.
fn contains_id(v: &Vec<u64>, x: u64) -> (r: bool)
    ensures
        r == v@.contains(x),
{
    let n = v.len();
    let mut i: usize = 0;
    while i < n
        invariant
            n == v@.len(),
            i <= n,
            forall|j: int| 0 <= j < i ==> v@[j] != x,
        decreases n - i,
    {
        if v[i] == x {
            return true;
        }
        i += 1;
    }
    false
}

impl<T, H: Hooks<T>> Tangle<T, H> {
    /// A new tangle over the given hooks, with the default bound.
    pub fn new(hooks: H) -> (r: Self)
        ensures
            r.index() == Map::<u64, Vertex<T>>::empty(),
            r.queue() == Seq::<u64>::empty(),
            r.cap() == DEFAULT_CACHE_LEN,
            r.spec_hooks() == hooks,
            r.wf(),
            r.at_rest(),
    {
        Tangle {
            vertices: HashMap::new(),
            cache_queue: lru_new(),
            max_len: DEFAULT_CACHE_LEN,
            hooks,
        }
    }

    /// Returns the tangle with a fresh recency queue sized for the given
    /// capacity. The queue grows as needed either way; entries beyond the
    /// bound are reclaimed by the eviction pass. Meant to be chained right
    /// after [`Self::new`], before anything is cached: the index must still
    /// be empty, so the clause that keeps the cached vertices holds only
    /// vacuously.
    pub fn with_capacity(self, cap: usize) -> (r: Self)
        requires
            self.index() == Map::<u64, Vertex<T>>::empty(),
        ensures
            r.index() == self.index(),
            r.queue() == Seq::<u64>::empty(),
            r.cap() == self.cap(),
            r.spec_hooks() == self.spec_hooks(),
            r.wf(),
            r.at_rest(),
    {
        let _ = cap;
        Tangle {
            vertices: self.vertices,
            cache_queue: lru_new(),
            max_len: self.max_len,
            hooks: self.hooks,
        }
    }

    /// Removes every cached vertex. The recency queue is left as is; its
    /// stale entries are dropped by later eviction passes.
    pub fn clear(&mut self)
        ensures
            final(self).index() == Map::<u64, Vertex<T>>::empty(),
            final(self).queue() == old(self).queue(),
            final(self).cap() == old(self).cap(),
            final(self).spec_hooks() == old(self).spec_hooks(),
            old(self).wf() ==> final(self).wf(),
            final(self).at_rest(),
    {
        self.vertices.clear();
    }

    /// Whether `message_id` is cached with a message, without consulting the
    /// hooks.
    fn contains_inner(&self, message_id: u64) -> (r: bool)
        ensures
            r == self.occupied(message_id),
    {
        match self.vertices.get(&message_id) {
            Some(v) => v.message().is_some(),
            None => false,
        }
    }

    /// Creates or finds the vertex for `message_id`, installs the message and
    /// metadata if none is present, records `message_id` as a child of every
    /// parent, refreshes recency, and finally runs the eviction pass.
    /// Returns a shared handle to the message iff it was installed by this
    /// call.
    fn insert_inner(
        &mut self,
        message_id: u64,
        message: Message,
        metadata: T,
        prevent_eviction: bool,
    ) -> (r: Option<MessageRef>)
        requires
            old(self).wf(),
            !message@.contains(message_id),
            prevent_eviction && old(self).index().contains_key(message_id) ==> old(self).index()[message_id].spec_pin() < u64::MAX,
        ensures
            final(self).wf(),
            final(self).cap() == old(self).cap(),
            final(self).spec_hooks() == old(self).spec_hooks(),
            r is Some <==> !old(self).occupied(message_id),
            r matches Some(m) ==> m@ == message@,
            r is None && old(self).index().len() <= old(self).cap() ==> final(self).queue() == old(
                self,
            ).queue(),
            r is Some && old(self).index().len() + message@.to_set().len() + 1 <= old(self).cap()
                ==> final(self).queue().len() > 0 && final(self).queue().last() == message_id,
            exists|mid: Map<u64, Vertex<T>>|
                {
                    &&& #[trigger] install_step(
                        old(self).index(),
                        mid,
                        message_id,
                        message@,
                        metadata,
                        prevent_eviction,
                        r is Some,
                    )
                    &&& evicted_to(mid, final(self).index(), old(self).cap())
                },
    {
        let ghost m0 = self.index();
        let ghost ps = message@;
        let ghost meta0 = metadata;
        let ghost v0 = entry_of(m0, message_id);
        let mut vertex = match self.vertices.remove(&message_id) {
            Some(v) => v,
            None => Vertex::empty(),
        };
        if prevent_eviction {
            vertex.prevent_eviction();
        }
        let r: Option<MessageRef>;
        if vertex.message().is_some() {
            self.vertices.insert(message_id, vertex);
            proof {
                assert(self.index() =~= m0.insert(message_id, vertex));
                assert(self.index().dom() =~= m0.dom());
                let mid = self.index();
                assert(install_step(
                    m0,
                    mid,
                    message_id,
                    ps,
                    meta0,
                    prevent_eviction,
                    false,
                ));
                assert forall|k: u64| #[trigger]
                    self.index().dom().contains(k) implies self.queue().contains(k) by {
                    assert(m0.dom().contains(k));
                }
            }
            r = None;
        } else {
            let parents = clone_ids(message.parents());
            vertex.install(message, metadata);
            let msg = match vertex.message() {
                Some(m) => Some(m.clone()),
                None => None,
            };
            self.vertices.insert(message_id, vertex);
            let ghost vtx_installed = vertex;
            proof {
                assert(self.index() =~= m0.insert(message_id, vertex));
                assert(ps.take(0).to_set() =~= Set::<u64>::empty());
                assert(self.index().dom() =~= m0.dom().insert(message_id).union(
                    ps.take(0).to_set(),
                ));
            }
            let n = parents.len();
            let mut idx: usize = 0;
            while idx < n
                invariant
                    n == parents@.len(),
                    parents@ == ps,
                    !ps.contains(message_id),
                    idx <= n,
                    self.index().dom() =~= m0.dom().insert(message_id).union(
                        ps.take(idx as int).to_set(),
                    ),
                    self.index().contains_key(message_id),
                    self.index()[message_id] == vtx_installed,
                    forall|p: u64| #[trigger]
                        ps.take(idx as int).contains(p) ==> self.index().dom().contains(p)
                            && parent_updated(entry_of(m0, p), self.index()[p], message_id),
                    forall|k: u64|
                        #[trigger] self.index().dom().contains(k) && k != message_id && !ps.take(
                            idx as int,
                        ).contains(k) ==> m0.dom().contains(k) && self.index()[k] == m0[k],
                    forall|k: u64| #[trigger]
                        self.index().dom().contains(k) ==> self.index()[k].wf(),
                    forall|k: u64|
                        #[trigger] self.index().dom().contains(k) && k != message_id
                            ==> self.queue().contains(k),
                    self.queue().no_duplicates(),
                    self.cap() == old(self).cap(),
                    self.spec_hooks() == old(self).spec_hooks(),
                decreases n - idx,
            {
                let ghost m_cur = self.index();
                let p = parents[idx];
                proof {
                    assert(ps[idx as int] == p);
                    assert(ps.contains(p));
                    assert(p != message_id);
                    assert(ps.take(idx as int + 1) =~= ps.take(idx as int).push(p));
                    lemma_push_to_set(ps.take(idx as int), p);
                }
                let mut pv = match self.vertices.remove(&p) {
                    Some(v) => v,
                    None => Vertex::empty(),
                };
                pv.add_child(message_id);
                self.vertices.insert(p, pv);
                proof {
                    assert(self.index() =~= m_cur.remove(p).insert(p, pv));
                    assert(self.index().dom() =~= m_cur.dom().insert(p));
                    assert(self.index().dom() =~= m0.dom().insert(message_id).union(
                        ps.take(idx as int + 1).to_set(),
                    ));
                    if m_cur.contains_key(p) {
                        if ps.take(idx as int).contains(p) {
                            assert(parent_updated(entry_of(m0, p), m_cur[p], message_id));
                            assert(m_cur[p].children_set().insert(message_id) =~= m_cur[p].children_set());
                            assert(parent_updated(entry_of(m0, p), pv, message_id));
                        } else {
                            assert(m_cur[p] == m0[p]);
                            assert(parent_updated(entry_of(m0, p), pv, message_id));
                        }
                    } else {
                        assert(!m0.dom().contains(p));
                        assert(pv.children_set() =~= Set::<u64>::empty().insert(message_id));
                        assert(parent_updated(entry_of(m0, p), pv, message_id));
                    }
                }
                self.promote(p);
                proof {
                    assert forall|k: u64|
                        #[trigger] self.index().dom().contains(k) && k != message_id
                            && !ps.take(idx as int + 1).contains(k) implies m0.dom().contains(k)
                        && self.index()[k] == m0[k] by {
                        assert(!ps.take(idx as int).contains(k));
                        assert(m_cur.dom().contains(k));
                    }
                    assert forall|q: u64| #[trigger]
                        ps.take(idx as int + 1).contains(q) implies self.index().dom().contains(q)
                        && parent_updated(entry_of(m0, q), self.index()[q], message_id) by {
                        if q == p {
                        } else {
                            assert(ps.take(idx as int).contains(q));
                        }
                    }
                }
                idx += 1;
            }
            self.promote(message_id);
            proof {
                assert(ps.take(n as int) =~= ps);
                let mid = self.index();
                assert(installed_from(v0, mid[message_id], ps, meta0, if prevent_eviction { 1int } else { 0 }));
                assert(mid.dom() =~= m0.dom().insert(message_id).union(ps.to_set()));
                assert forall|p: u64|
                    ps.contains(p) && p != message_id implies parent_updated(
                    entry_of(m0, p),
                    #[trigger] mid[p],
                    message_id,
                ) by {
                    assert(ps.take(n as int).contains(p));
                }
                assert(install_step(m0, mid, message_id, ps, meta0, prevent_eviction, true));
                assert forall|k: u64| #[trigger]
                    self.index().dom().contains(k) implies self.queue().contains(k) by {
                    if k != message_id {
                        assert(self.index().dom().contains(k));
                    }
                }
            }
            r = msg;
        }
        let ghost mid = self.index();
        proof {
            if r is Some && old(self).index().len() + ps.to_set().len() + 1 <= old(self).cap() {
                assert(ps.to_set().finite());
                assert(mid.dom() == m0.dom().insert(message_id).union(ps.to_set()));
                vstd::set_lib::lemma_len_union(m0.dom().insert(message_id), ps.to_set());
                assert(m0.dom().insert(message_id).len() <= m0.dom().len() + 1);
                assert(mid.len() <= old(self).cap());
            }
        }
        self.perform_eviction();
        proof {
            assert(evicted_to(mid, self.index(), old(self).cap()));
            assert(exists|midw: Map<u64, Vertex<T>>|
                {
                    &&& #[trigger] install_step(
                        m0,
                        midw,
                        message_id,
                        ps,
                        meta0,
                        prevent_eviction,
                        r is Some,
                    )
                    &&& evicted_to(midw, self.index(), old(self).cap())
                }) by {
                assert(install_step(m0, mid, message_id, ps, meta0, prevent_eviction, r is Some));
            }
        }
        r
    }
}


/// What one "install then evict" round does to an index that starts with no
/// pin held outside `id` itself: exhaustiveness is monotonic, pins stay
/// confined to `id`, a pinned `id` survives, the index stays within its
/// bounds, recorded edges survive on every surviving parent, and when the
/// whole step fits under the bound nothing is evicted at all.
proof fn lemma_step_facts<T>(
    m0: Map<u64, Vertex<T>>,
    mid: Map<u64, Vertex<T>>,
    m2: Map<u64, Vertex<T>>,
    id: u64,
    msgv: Seq<u64>,
    meta: T,
    prevent: bool,
    installed: bool,
    cap: usize,
)
    requires
        install_step(m0, mid, id, msgv, meta, prevent, installed),
        evicted_to(mid, m2, cap),
        !msgv.contains(id),
        m0.dom().finite(),
        forall|k: u64| #[trigger] m0.dom().contains(k) && k != id ==> m0[k].spec_pin() == 0,
    ensures
        exhaustive_monotonic(m0, m2),
        contained_in(m2, mid),
        mid[id].spec_pin() == (if m0.contains_key(id) {
            m0[id].spec_pin()
        } else {
            0
        }) + (if prevent {
            1int
        } else {
            0
        }),
        mid.contains_key(id),
        mid[id].spec_pin() > 0 ==> m2.contains_key(id) && m2[id] == mid[id],
        forall|k: u64| #[trigger] m2.dom().contains(k) && k != id ==> m2[k].spec_pin() == 0,
        installed ==> mid[id].has_message(),
        mid[id].spec_pin() == 0 ==> (m2.contains_key(id) && m2[id] == mid[id]) || m2.len()
            <= evict_target(cap),
        m2.len() <= cap || m2.len() <= 1,
        installed ==> forall|p: u64|
            msgv.contains(p) && p != id && #[trigger] m2.dom().contains(p)
                ==> m2[p].children_set().contains(id),
        installed && m0.len() + msgv.to_set().len() + 1 <= cap ==> m2 == mid && m2.dom()
            == m0.dom().insert(id).union(msgv.to_set()),
{

    assert(mid.contains_key(id)) by {
        if installed {
            assert(mid.dom() == m0.dom().insert(id).union(msgv.to_set()));
            assert(m0.dom().insert(id).contains(id));
            assert(mid.dom().contains(id));
        }
    }
    // pins in `mid` are zero outside `id`
    assert forall|k: u64| #[trigger] mid.dom().contains(k) && k != id implies mid[k].spec_pin()
        == 0 by {
        if installed {
            if msgv.contains(k) {
                assert(parent_updated(
                    if m0.contains_key(k) {
                        Some(m0[k])
                    } else {
                        None
                    },
                    mid[k],
                    id,
                ));
            } else {
                assert(mid[k] == m0[k]);
            }
        } else {
            assert(mid[k] == m0[k]);
        }
    }
    assert(contained_in(m2, mid));
    assert forall|k: u64| #[trigger] m2.dom().contains(k) && k != id implies m2[k].spec_pin()
        == 0 by {
        assert(m2[k] == mid[k]) by {
            assert(contained_in(m2, mid));
            assert(m2.dom().contains(k));
        }
        assert(mid.dom().contains(k));
    }
    assert(exhaustive_monotonic(m0, m2)) by {
        assert forall|k: u64|
            m0.dom().contains(k) && #[trigger] m2.dom().contains(k)
                && m0[k].spec_exhaustive() implies m2[k].spec_exhaustive() by {
            assert(mid.dom().contains(k));
            assert(m2[k] == mid[k]);
            if installed {
                if k == id {
                    assert(installed_from(Some(m0[id]), mid[id], msgv, meta, if prevent { 1int } else { 0 }));
                } else if msgv.contains(k) {
                    assert(parent_updated(Some(m0[k]), mid[k], id));
                }
            }
        }
    }
    if mid[id].spec_pin() > 0 {
        assert(m2.contains_key(id));
        assert(m2[id] == mid[id]);
    }
    if mid[id].spec_pin() == 0 {
        if mid.len() <= cap {
            assert(m2 == mid);
            assert(m2.contains_key(id) && m2[id] == mid[id]);
        } else if !(m2.len() <= evict_target(cap)) {
            assert(forall|k: u64| #[trigger] m2.dom().contains(k) ==> m2[k].spec_pin() > 0);
            assert(!m2.dom().contains(id)) by {
                if m2.dom().contains(id) {
                    assert(m2[id] == mid[id]);
                }
            }
            assert(m2.dom() =~= Set::<u64>::empty()) by {
                assert forall|k: u64| !(#[trigger] m2.dom().contains(k)) by {
                    if m2.dom().contains(k) && k != id {
                        assert(m2[k].spec_pin() == 0);
                    }
                }
            }
            assert(m2.len() == 0);
            assert(evict_target(cap) >= 0);
        }
    }
    // length bound
    if mid.len() <= cap {
        assert(m2 == mid);
        assert(m2.len() <= cap);
    } else {
        if m2.len() <= evict_target(cap) {
            assert(9 * (cap as int) <= 10 * (cap as int));
            assert(evict_target(cap) <= cap as int);
            assert(m2.len() <= cap);
        } else {
            assert(forall|k: u64| #[trigger] m2.dom().contains(k) ==> m2[k].spec_pin() > 0);
            assert(m2.dom().subset_of(Set::<u64>::empty().insert(id))) by {
                assert forall|k: u64| #[trigger] m2.dom().contains(k) implies k == id by {
                    if k != id {
                        assert(m2[k].spec_pin() == 0);
                    }
                }
            }
            assert(Set::<u64>::empty().insert(id).finite());
            assert(Set::<u64>::empty().insert(id).len() == 1);
            vstd::set_lib::lemma_len_subset(m2.dom(), Set::<u64>::empty().insert(id));
            assert(m2.len() <= 1);
        }
    }
    // surviving parents keep the recorded edge
    if installed {
        assert forall|p: u64|
            msgv.contains(p) && p != id && #[trigger] m2.dom().contains(p) implies m2[p].children_set().contains(id) by {
            assert(contained_in(m2, mid));
            assert(m2.dom().contains(p));
            assert(m2[p] == mid[p]);
            assert(parent_updated(
                if m0.contains_key(p) {
                    Some(m0[p])
                } else {
                    None
                },
                mid[p],
                id,
            ));
        }
        // when everything fits, nothing is evicted
        if m0.len() + msgv.to_set().len() + 1 <= cap {
            assert(msgv.to_set().finite());
            assert(mid.dom() == m0.dom().insert(id).union(msgv.to_set()));
            vstd::set_lib::lemma_len_union(m0.dom().insert(id), msgv.to_set());
            assert(m0.dom().insert(id).len() <= m0.dom().len() + 1);
            assert(mid.len() <= m0.len() + 1 + msgv.to_set().len());
            assert(mid.len() <= cap);
            assert(m2 == mid);
        }
    }
}




/// Edge completeness of the in-memory graph: for every cached vertex that
/// holds a message, every parent named by that message is cached, and lists
/// the vertex among its children.
pub open spec fn edges_complete<T>(m: Map<u64, Vertex<T>>) -> bool {
    forall|c: u64|
        #[trigger] m.dom().contains(c) && m[c].has_message() ==> forall|p: u64|
            #[trigger] m[c].spec_message()->Some_0@.contains(p) ==> m.dom().contains(p)
                && m[p].children_set().contains(c)
}

/// Inserting a message preserves edge completeness: after the in-memory step
/// of an insertion, every cached message's parents are still cached and still
/// list it as a child. Eviction is what may break this (a parent can be
/// evicted while a child stays), so the law speaks of the step before the
/// eviction pass; while the index stays within its bound, that pass removes
/// nothing and the property carries to the full operation.
pub proof fn lemma_install_preserves_edges<T>(
    m0: Map<u64, Vertex<T>>,
    m1: Map<u64, Vertex<T>>,
    id: u64,
    msgv: Seq<u64>,
    meta: T,
    prevent: bool,
    installed: bool,
)
    requires
        edges_complete(m0),
        install_step(m0, m1, id, msgv, meta, prevent, installed),
        !msgv.contains(id),
    ensures
        edges_complete(m1),
{
    let occupied = m0.contains_key(id) && m0[id].has_message();
    assert forall|c: u64|
        #[trigger] m1.dom().contains(c) && m1[c].has_message() implies forall|p: u64|
            #[trigger] m1[c].spec_message()->Some_0@.contains(p) ==> m1.dom().contains(p)
                && m1[p].children_set().contains(c) by {
        if occupied {
            assert forall|p: u64|
                #[trigger] m1[c].spec_message()->Some_0@.contains(p) implies m1.dom().contains(p)
                    && m1[p].children_set().contains(c) by {
                assert(m0.dom().contains(c));
                if c == id {
                    assert(m1[c].spec_message() == m0[c].spec_message());
                } else {
                    assert(m1[c] == m0[c]);
                }
                assert(m0[c].spec_message()->Some_0@.contains(p));
                assert(m0.dom().contains(p) && m0[p].children_set().contains(c));
                if p == id {
                    assert(m1[p].children_set() == m0[p].spec_children().to_set());
                } else {
                    assert(m1[p] == m0[p]);
                }
            }
        } else {
            assert forall|p: u64|
                #[trigger] m1[c].spec_message()->Some_0@.contains(p) implies m1.dom().contains(p)
                    && m1[p].children_set().contains(c) by {
                assert(m1.dom() == m0.dom().insert(id).union(msgv.to_set()));
                if c == id {
                    assert(m1[id].spec_message()->Some_0@ == msgv);
                    assert(msgv.contains(p));
                    assert(p != id);
                    assert(msgv.to_set().contains(p));
                    assert(m1.dom().contains(p));
                    assert(parent_updated(
                        if m0.contains_key(p) {
                            Some(m0[p])
                        } else {
                            None
                        },
                        m1[p],
                        id,
                    ));
                    assert(m1[p].children_set().contains(id));
                } else {
                    // an old vertex keeps its message, so its edges come from `m0`
                    let old_msg_holds = m0.dom().contains(c) && m0[c].has_message()
                        && m0[c].spec_message() == m1[c].spec_message();
                    if msgv.contains(c) {
                        assert(parent_updated(
                            if m0.contains_key(c) {
                                Some(m0[c])
                            } else {
                                None
                            },
                            m1[c],
                            id,
                        ));
                        assert(m0.contains_key(c)) by {
                            if !m0.contains_key(c) {
                                assert(m1[c].spec_message() is None);
                            }
                        }
                        assert(old_msg_holds);
                    } else {
                        assert(m1.dom().contains(c));
                        assert(m0.dom().contains(c) && m1[c] == m0[c]);
                        assert(old_msg_holds);
                    }
                    assert(m0[c].spec_message()->Some_0@.contains(p));
                    assert(m0.dom().contains(p) && m0[p].children_set().contains(c));
                    assert(m1.dom().contains(p));
                    if p == id {
                        assert(installed_from(Some(m0[id]), m1[id], msgv, meta, if prevent { 1int } else { 0 }));
                        assert(m1[id].spec_children() == m0[id].spec_children());
                        assert(m1[p].children_set().contains(c));
                    } else if msgv.contains(p) {
                        assert(parent_updated(Some(m0[p]), m1[p], id));
                        assert(m1[p].children_set() == m0[p].children_set().insert(id));
                        assert(m1[p].children_set().contains(c));
                    } else {
                        assert(m1[p] == m0[p]);
                    }
                }
            }
        }
    }
}

impl<T, H: Hooks<T>> Tangle<T, H> {
    /// Makes sure that, if the message exists anywhere (cache or backing
    /// store), its vertex is in the cache afterwards; with `prevent_eviction`
    /// the vertex is also pinned. Returns whether the message was found.
    fn pull_message(&mut self, message_id: u64, prevent_eviction: bool) -> (r: bool)
        requires
            old(self).wf(),
            old(self).at_rest(),
        ensures
            final(self).wf(),
            final(self).cap() == old(self).cap(),
            !r ==> final(self).index() == old(self).index(),
            old(self).occupied(message_id) ==> r,
            old(self).occupied(message_id) ==> final(self).index().dom() == old(self).index().dom() && same_but_pin(
                old(self).index()[message_id],
                final(self).index()[message_id],
                if prevent_eviction {
                    1int
                } else {
                    0
                },
            ) && (forall|k: u64|
                #[trigger] old(self).index().dom().contains(k) && k != message_id ==> final(self).index()[k] == old(self).index()[k]),
            r && prevent_eviction ==> final(self).occupied(message_id) && final(self).index()[message_id].spec_pin() == 1,
            r ==> final(self).occupied(message_id) || final(self).index().len() <= evict_target(
                old(self).cap(),
            ),
            !prevent_eviction ==> final(self).at_rest(),
            prevent_eviction ==> forall|k: u64|
                #[trigger] final(self).index().dom().contains(k) && k != message_id ==> final(self).index()[k].spec_pin() == 0,
            prevent_eviction && !r ==> final(self).at_rest(),
            exhaustive_monotonic(old(self).index(), final(self).index()),
            final(self).index().len() <= old(self).index().len() || final(self).index().len()
                <= old(self).cap() || final(self).index().len() <= 1,
    {
        let ghost m0 = self.index();
        let contains_now = if prevent_eviction {
            match self.vertices.remove(&message_id) {
                Some(mut v) => {
                    proof {
                        assert(v == m0[message_id]);
                    }
                    if v.message().is_some() {
                        v.prevent_eviction();
                        self.vertices.insert(message_id, v);
                        proof {
                            assert(self.index() =~= m0.insert(message_id, v));
                            assert(self.index().dom() =~= m0.dom());
                            assert forall|k: u64| #[trigger]
                                self.index().dom().contains(k) implies self.queue().contains(
                                k,
                            ) by {
                                assert(m0.dom().contains(k));
                            }
                        }
                        true
                    } else {
                        self.vertices.insert(message_id, v);
                        proof {
                            assert(self.index() =~= m0);
                            assert forall|k: u64| #[trigger]
                                self.index().dom().contains(k) implies self.queue().contains(
                                k,
                            ) by {
                                assert(m0.dom().contains(k));
                            }
                        }
                        false
                    }
                },
                None => false,
            }
        } else {
            self.contains_inner(message_id)
        };
        if contains_now {
            self.promote(message_id);
            proof {
                assert forall|k: u64| #[trigger]
                    self.index().dom().contains(k) && k != message_id implies self.index()[k]
                    == m0[k] && self.index()[k].spec_pin() == 0 by {
                    assert(m0.dom().contains(k));
                }
            }
            true
        } else {
            let fetched = self.hooks.get(message_id);
            match fetched {
                Ok(Some((msg, metadata))) => {
                    if contains_id(msg.parents(), message_id) {
                        // a message naming itself as a parent would break the
                        // acyclicity the graph relies on; treat it as absent
                        false
                    } else {
                        self.promote(message_id);
                        let ghost m1 = self.index();
                        let ghost msgv = msg@;
                        let ghost meta0 = metadata;
                        let _ = self.insert_inner(message_id, msg, metadata, prevent_eviction);
                        proof {
                            assert(m1 == m0);
                            let mid = choose|mid: Map<u64, Vertex<T>>|
                                {
                                    &&& #[trigger] install_step(
                                        m1,
                                        mid,
                                        message_id,
                                        msgv,
                                        meta0,
                                        prevent_eviction,
                                        true,
                                    )
                                    &&& evicted_to(mid, self.index(), old(self).cap())
                                };
                            lemma_step_facts(
                                m1,
                                mid,
                                self.index(),
                                message_id,
                                msgv,
                                meta0,
                                prevent_eviction,
                                true,
                                old(self).cap(),
                            );
                        }
                        true
                    }
                },
                _ => false,
            }
        }
    }

    /// Whether the message is stored, in the cache or in the backing store.
    /// A hit found only in the backing store also populates the cache.
    pub fn contains(&mut self, message_id: u64) -> (r: bool)
        requires
            old(self).wf(),
            old(self).at_rest(),
        ensures
            final(self).wf(),
            final(self).at_rest(),
            final(self).cap() == old(self).cap(),
            old(self).occupied(message_id) ==> r && final(self).index() == old(self).index(),
            r ==> final(self).occupied(message_id) || final(self).index().len() <= evict_target(
                old(self).cap(),
            ),
            !r ==> final(self).index() == old(self).index() && !old(self).occupied(message_id),
            exhaustive_monotonic(old(self).index(), final(self).index()),
            final(self).index().len() <= old(self).index().len() || final(self).index().len()
                <= old(self).cap() || final(self).index().len() <= 1,
    {
        if self.contains_inner(message_id) {
            true
        } else {
            self.pull_message(message_id, false)
        }
    }
}


impl<T, H: Hooks<T>> Tangle<T, H> {
    /// Refreshes the recency of `message_id` if it is cached at all.
    fn touch(&mut self, message_id: u64)
        requires
            old(self).wf(),
        ensures
            final(self).wf(),
            final(self).index() == old(self).index(),
            final(self).cap() == old(self).cap(),
            final(self).spec_hooks() == old(self).spec_hooks(),
    {
        let is_there = self.vertices.get(&message_id).is_some();
        if is_there {
            self.promote(message_id);
            proof {
                assert forall|k: u64| #[trigger]
                    self.index().dom().contains(k) implies self.queue().contains(k) by {
                    assert(old(self).index().dom().contains(k));
                }
            }
        }
    }

    /// Reads the message of `message_id`, fetching it from the backing store
    /// if it is not cached. Pins the vertex while reading, so a concurrent
    /// eviction pass cannot drop it mid-read.
    pub fn get(&mut self, message_id: u64) -> (r: Option<MessageRef>)
        requires
            old(self).wf(),
            old(self).at_rest(),
        ensures
            final(self).wf(),
            final(self).at_rest(),
            final(self).cap() == old(self).cap(),
            old(self).occupied(message_id) ==> r is Some && r->Some_0@ == old(self).index()[message_id].spec_message()->Some_0@ && final(self).index().dom() == old(self).index().dom() && same_but_pin(
                old(self).index()[message_id],
                final(self).index()[message_id],
                0,
            ) && (forall|k: u64|
                #[trigger] old(self).index().dom().contains(k) && k != message_id ==> final(self).index()[k] == old(self).index()[k]),
            r is None ==> final(self).index() == old(self).index() && !old(self).occupied(
                message_id,
            ),
            r is Some ==> final(self).occupied(message_id) && r->Some_0@ == final(self).index()[message_id].spec_message()->Some_0@,
            r is Some ==> final(self).queue().len() > 0 && final(self).queue().last()
                == message_id,
            exhaustive_monotonic(old(self).index(), final(self).index()),
            final(self).index().len() <= old(self).index().len() || final(self).index().len()
                <= old(self).cap() || final(self).index().len() <= 1,
    {
        let pulled = self.pull_message(message_id, true);
        if pulled {
            let ghost m1 = self.index();
            let removed = self.vertices.remove(&message_id);
            let mut v = match removed {
                Some(v) => v,
                None => {
                    proof {
                        assert(false);
                    }
                    Vertex::empty()
                },
            };
            v.allow_eviction();
            let r = match v.message() {
                Some(m) => Some(m.clone()),
                None => None,
            };
            self.vertices.insert(message_id, v);
            proof {
                assert(self.index() =~= m1.insert(message_id, v));
                assert(self.index().dom() =~= m1.dom());
                assert forall|k: u64| #[trigger]
                    self.index().dom().contains(k) implies self.index()[k].wf()
                    && self.queue().contains(k) && self.index()[k].spec_pin() == 0 by {
                    assert(m1.dom().contains(k));
                }
            }
            self.promote(message_id);
            r
        } else {
            self.touch(message_id);
            None
        }
    }
}

impl<T: Clone, H: Hooks<T>> Tangle<T, H> {
    /// Inserts a message with its metadata, writes both and the parent edges
    /// through to the backing store, and returns a shared handle to the
    /// message — unless a message for this identifier already exists (in the
    /// cache or in the backing store), in which case nothing is overwritten
    /// and no handle is returned.
    pub fn insert(&mut self, message_id: u64, message: Message, metadata: T) -> (r: Option<
        MessageRef,
    >)
        requires
            old(self).wf(),
            old(self).at_rest(),
            !message@.contains(message_id),
        ensures
            final(self).wf(),
            final(self).at_rest(),
            final(self).cap() == old(self).cap(),
            final(self).occupied(message_id),
            old(self).occupied(message_id) ==> r is None && same_but_pin(
                old(self).index()[message_id],
                final(self).index()[message_id],
                0,
            ) && (forall|k: u64|
                #[trigger] final(self).index().dom().contains(k) ==> old(self).index().dom().contains(k) && (k != message_id ==> final(self).index()[k] == old(self).index()[k])),
            r is Some ==> r->Some_0@ == message@ && (final(self).index()[message_id].spec_message()
                matches Some(m) && m@ == message@) && final(self).index()[message_id].spec_metadata()
                == Some(metadata),
            r is Some ==> forall|p: u64|
                message@.contains(p) && #[trigger] final(self).index().dom().contains(p) ==> final(self).index()[p].children_set().contains(message_id),
            r is Some ==> forall|p: u64|
                message@.contains(p) && p != message_id && #[trigger] final(self).index().dom().contains(p) ==> parent_updated(
                    entry_of(old(self).index(), p),
                    final(self).index()[p],
                    message_id,
                ),
            r is Some && old(self).index().len() + message@.to_set().len() + 1 <= old(self).cap()
                ==> forall|p: u64|
                message@.contains(p) ==> #[trigger] final(self).index().dom().contains(p),
            r is Some ==> forall|k: u64|
                #[trigger] final(self).index().dom().contains(k) ==> old(self).index().dom().contains(k) || k == message_id || message@.contains(k),
            r is Some ==> forall|k: u64|
                #[trigger] final(self).index().dom().contains(k) && old(self).index().dom().contains(k) && k != message_id && !message@.contains(k) ==> final(self).index()[k] == old(self).index()[k],
            r is Some ==> final(self).index()[message_id].spec_children() == (
            if old(self).index().contains_key(message_id) {
                old(self).index()[message_id].spec_children()
            } else {
                Seq::<u64>::empty()
            }),
            r is Some ==> final(self).index()[message_id].spec_exhaustive() == (
            if old(self).index().contains_key(message_id) {
                old(self).index()[message_id].spec_exhaustive()
            } else {
                false
            }),
            r is Some && old(self).index().len() + message@.to_set().len() + 1 <= old(self).cap()
                ==> final(self).queue().len() > 0 && final(self).queue().last() == message_id,
            exhaustive_monotonic(old(self).index(), final(self).index()),
            final(self).index().len() <= old(self).cap() || final(self).index().len() <= 1,
    {
        let message_for_hooks = message.clone();
        let metadata_for_hooks = metadata.clone();
        let parents_for_hooks = clone_ids(message.parents());
        let exists_already = self.pull_message(message_id, true);
        let ghost m0 = old(self).index();
        let ghost m1 = self.index();
        let ghost msgv = message@;
        let ghost meta0 = metadata;
        let fresh = !exists_already;
        let r = self.insert_inner(message_id, message, metadata, fresh);
        let ghost m2 = self.index();
        proof {
            let mid = choose|mid: Map<u64, Vertex<T>>|
                {
                    &&& #[trigger] install_step(
                        m1,
                        mid,
                        message_id,
                        msgv,
                        meta0,
                        fresh,
                        r is Some,
                    )
                    &&& evicted_to(mid, m2, old(self).cap())
                };
            assert(forall|k: u64|
                #[trigger] m1.dom().contains(k) && k != message_id ==> m1[k].spec_pin() == 0);
            lemma_step_facts(
                m1,
                mid,
                m2,
                message_id,
                msgv,
                meta0,
                fresh,
                r is Some,
                old(self).cap(),
            );
            assert(mid[message_id].spec_pin() == 1);
            assert(m2.contains_key(message_id));
            if r is Some {
                // the pull was a miss, so the step started from the old index
                assert(m1 == m0);
                assert forall|k: u64| #[trigger]
                    m2.dom().contains(k) implies m0.dom().contains(k) || k == message_id
                    || msgv.contains(k) by {
                    assert(mid.dom().contains(k));
                    assert(mid.dom() == m0.dom().insert(message_id).union(msgv.to_set()));
                }
                assert forall|k: u64|
                    #[trigger] m2.dom().contains(k) && m0.dom().contains(k) && k != message_id
                        && !msgv.contains(k) implies m2[k] == m0[k] by {
                    assert(mid.dom().contains(k));
                    assert(m2[k] == mid[k]);
                }
                assert forall|p: u64|
                    msgv.contains(p) && p != message_id && #[trigger] m2.dom().contains(
                        p,
                    ) implies parent_updated(entry_of(m0, p), m2[p], message_id) by {
                    assert(m2[p] == mid[p]);
                    assert(parent_updated(
                        if m1.contains_key(p) {
                            Some(m1[p])
                        } else {
                            None
                        },
                        mid[p],
                        message_id,
                    ));
                }
            }
        }
        let removed = self.vertices.remove(&message_id);
        let mut v = match removed {
            Some(v) => v,
            None => {
                proof {
                    assert(false);
                }
                Vertex::empty()
            },
        };
        v.allow_eviction();
        self.vertices.insert(message_id, v);
        proof {
            assert(self.index() =~= m2.insert(message_id, v));
            assert(self.index().dom() =~= m2.dom());
            assert forall|k: u64| #[trigger]
                self.index().dom().contains(k) implies self.index()[k].wf()
                && self.queue().contains(k) && self.index()[k].spec_pin() == 0 by {
                assert(m2.dom().contains(k));
            }
        }
        if r.is_some() {
            let ghost gi = self.index();
            let ghost gq = self.queue();
            let n = parents_for_hooks.len();
            let mut i: usize = 0;
            while i < n
                invariant
                    n == parents_for_hooks@.len(),
                    i <= n,
                    self.index() == gi,
                    self.queue() == gq,
                    self.cap() == old(self).cap(),
                decreases n - i,
            {
                let _ = self.hooks.insert_approver(parents_for_hooks[i], message_id);
                i += 1;
            }
            let _ = self.hooks.insert(message_id, message_for_hooks, metadata_for_hooks);
        }
        r
    }
}


impl<T: Clone, H: Hooks<T>> Tangle<T, H> {
    /// Reads the metadata of `message_id`, fetching the vertex from the
    /// backing store if it is not cached.
    pub fn get_metadata(&mut self, message_id: u64) -> (r: Option<T>)
        requires
            old(self).wf(),
            old(self).at_rest(),
        ensures
            final(self).wf(),
            final(self).at_rest(),
            final(self).cap() == old(self).cap(),
            old(self).occupied(message_id) ==> r is Some && cloned(
                old(self).index()[message_id].spec_metadata()->Some_0,
                r->Some_0,
            ) && final(self).index().dom() == old(self).index().dom() && same_but_pin(
                old(self).index()[message_id],
                final(self).index()[message_id],
                0,
            ) && (forall|k: u64|
                #[trigger] old(self).index().dom().contains(k) && k != message_id ==> final(self).index()[k] == old(self).index()[k]),
            r is None ==> final(self).index() == old(self).index() && !old(self).occupied(
                message_id,
            ),
            r is Some ==> final(self).occupied(message_id) && cloned(
                final(self).index()[message_id].spec_metadata()->Some_0,
                r->Some_0,
            ),
            r is Some ==> final(self).queue().len() > 0 && final(self).queue().last()
                == message_id,
            exhaustive_monotonic(old(self).index(), final(self).index()),
            final(self).index().len() <= old(self).index().len() || final(self).index().len()
                <= old(self).cap() || final(self).index().len() <= 1,
    {
        let pulled = self.pull_message(message_id, true);
        if pulled {
            let ghost m1 = self.index();
            let removed = self.vertices.remove(&message_id);
            let mut v = match removed {
                Some(v) => v,
                None => {
                    proof {
                        assert(false);
                    }
                    Vertex::empty()
                },
            };
            v.allow_eviction();
            let r = match v.metadata() {
                Some(m) => Some(m.clone()),
                None => None,
            };
            self.vertices.insert(message_id, v);
            proof {
                assert(self.index() =~= m1.insert(message_id, v));
                assert(self.index().dom() =~= m1.dom());
                assert forall|k: u64| #[trigger]
                    self.index().dom().contains(k) implies self.index()[k].wf()
                    && self.queue().contains(k) && self.index()[k].spec_pin() == 0 by {
                    assert(m1.dom().contains(k));
                }
            }
            self.promote(message_id);
            r
        } else {
            self.touch(message_id);
            None
        }
    }

    /// Reads the metadata of `message_id` if the vertex is cached right now;
    /// the backing store is not consulted.
    pub fn get_metadata_maybe(&mut self, message_id: u64) -> (r: Option<T>)
        requires
            old(self).wf(),
        ensures
            final(self).wf(),
            final(self).index() == old(self).index(),
            final(self).cap() == old(self).cap(),
            final(self).spec_hooks() == old(self).spec_hooks(),
            r is Some <==> old(self).index().contains_key(message_id) && old(self).index()[message_id].spec_metadata() is Some,
            r is Some ==> cloned(
                old(self).index()[message_id].spec_metadata()->Some_0,
                r->Some_0,
            ),
    {
        let r = match self.vertices.get(&message_id) {
            Some(v) => match v.metadata() {
                Some(m) => Some(m.clone()),
                None => None,
            },
            None => None,
        };
        self.touch(message_id);
        r
    }

    /// A snapshot of the vertex for `message_id`: the message handle shared,
    /// the metadata cloned. Fetches from the backing store on a cache miss.
    pub fn get_vertex(&mut self, message_id: u64) -> (r: Option<Vertex<T>>)
        requires
            old(self).wf(),
            old(self).at_rest(),
        ensures
            final(self).wf(),
            final(self).at_rest(),
            final(self).cap() == old(self).cap(),
            r is None ==> final(self).index() == old(self).index() && !old(self).occupied(
                message_id,
            ),
            r is Some ==> final(self).occupied(message_id) && snapshot_of(
                final(self).index()[message_id],
                r->Some_0,
            ),
            old(self).occupied(message_id) ==> r is Some && final(self).index().dom() == old(self).index().dom() && same_but_pin(
                old(self).index()[message_id],
                final(self).index()[message_id],
                0,
            ) && (forall|k: u64|
                #[trigger] old(self).index().dom().contains(k) && k != message_id ==> final(self).index()[k] == old(self).index()[k]),
            r is Some ==> final(self).queue().len() > 0 && final(self).queue().last()
                == message_id,
            exhaustive_monotonic(old(self).index(), final(self).index()),
            final(self).index().len() <= old(self).index().len() || final(self).index().len()
                <= old(self).cap() || final(self).index().len() <= 1,
    {
        let pulled = self.pull_message(message_id, true);
        if pulled {
            let ghost m1 = self.index();
            let removed = self.vertices.remove(&message_id);
            let mut v = match removed {
                Some(v) => v,
                None => {
                    proof {
                        assert(false);
                    }
                    Vertex::empty()
                },
            };
            v.allow_eviction();
            let snap = v.snapshot();
            self.vertices.insert(message_id, v);
            proof {
                assert(self.index() =~= m1.insert(message_id, v));
                assert(self.index().dom() =~= m1.dom());
                assert forall|k: u64| #[trigger]
                    self.index().dom().contains(k) implies self.index()[k].wf()
                    && self.queue().contains(k) && self.index()[k].spec_pin() == 0 by {
                    assert(m1.dom().contains(k));
                }
            }
            self.promote(message_id);
            Some(snap)
        } else {
            self.touch(message_id);
            None
        }
    }

    /// Applies `f` to a snapshot of the vertex for `message_id`, fetching the
    /// vertex from the backing store if it is not cached. Returns what `f`
    /// returned, or `None` when no vertex exists anywhere.
    pub fn get_with<R, F: FnOnce(Vertex<T>) -> Option<R>>(&mut self, message_id: u64, f: F) -> (r:
        Option<R>)
        requires
            old(self).wf(),
            old(self).at_rest(),
            forall|v: Vertex<T>| #[trigger] f.requires((v,)),
        ensures
            final(self).wf(),
            final(self).at_rest(),
            final(self).cap() == old(self).cap(),
            r is Some ==> final(self).index().contains_key(message_id) && exists|v: Vertex<T>|
                #[trigger] call_ensures(f, (v,), r),
            old(self).occupied(message_id) ==> final(self).index().dom() == old(self).index().dom() && same_but_pin(
                old(self).index()[message_id],
                final(self).index()[message_id],
                0,
            ) && (forall|k: u64|
                #[trigger] old(self).index().dom().contains(k) && k != message_id ==> final(self).index()[k] == old(self).index()[k]) && exists|v: Vertex<T>|
                #[trigger] call_ensures(f, (v,), r) && snapshot_of(
                    old(self).index()[message_id],
                    v,
                ),
            r is Some ==> final(self).queue().len() > 0 && final(self).queue().last()
                == message_id,
            exhaustive_monotonic(old(self).index(), final(self).index()),
    {
        let pulled = self.pull_message(message_id, true);
        let ghost m1 = self.index();
        let removed = self.vertices.remove(&message_id);
        match removed {
            Some(mut v) => {
                if pulled {
                    v.allow_eviction();
                }
                let snap = v.snapshot();
                proof {
                    if old(self).occupied(message_id) {
                        assert(snapshot_of(old(self).index()[message_id], snap));
                    }
                }
                self.vertices.insert(message_id, v);
                proof {
                    assert(self.index() =~= m1.insert(message_id, v));
                    assert(self.index().dom() =~= m1.dom());
                    assert forall|k: u64| #[trigger]
                        self.index().dom().contains(k) implies self.index()[k].wf()
                        && self.queue().contains(k) && self.index()[k].spec_pin() == 0 by {
                        assert(m1.dom().contains(k));
                    }
                }
                self.promote(message_id);
                let r = f(snap);
                proof {
                    if old(self).occupied(message_id) {
                        assert(call_ensures(f, (snap,), r) && snapshot_of(
                            old(self).index()[message_id],
                            snap,
                        ));
                    }
                }
                r
            },
            None => {
                proof {
                    assert(self.index() =~= m1);
                    assert(!pulled);
                }
                None
            },
        }
    }

    /// Replaces the metadata of `message_id` and writes the new pair through
    /// to the backing store. Does nothing when no message exists anywhere for
    /// this identifier.
    pub fn set_metadata(&mut self, message_id: u64, metadata: T)
        requires
            old(self).wf(),
            old(self).at_rest(),
        ensures
            final(self).wf(),
            final(self).at_rest(),
            final(self).cap() == old(self).cap(),
            old(self).occupied(message_id) ==> final(self).index().dom() == old(self).index().dom() && final(self).index()[message_id].spec_metadata() == Some(metadata)
                && final(self).index()[message_id].spec_message() == old(self).index()[message_id].spec_message() && final(self).index()[message_id].spec_children()
                == old(self).index()[message_id].spec_children() && final(self).index()[message_id].spec_exhaustive() == old(self).index()[message_id].spec_exhaustive() && (forall|k: u64|
                #[trigger] old(self).index().dom().contains(k) && k != message_id ==> final(self).index()[k] == old(self).index()[k]),
            !old(self).occupied(message_id) && !final(self).occupied(message_id) ==> final(self).index() == old(self).index(),
            final(self).occupied(message_id) ==> final(self).index()[message_id].spec_metadata()
                == Some(metadata),
            final(self).occupied(message_id) ==> final(self).queue().len() > 0 && final(self).queue().last() == message_id,
            exhaustive_monotonic(old(self).index(), final(self).index()),
            final(self).index().len() <= old(self).index().len() || final(self).index().len()
                <= old(self).cap() || final(self).index().len() <= 1,
    {
        let pulled = self.pull_message(message_id, true);
        if pulled {
            let ghost m1 = self.index();
            let removed = self.vertices.remove(&message_id);
            let mut v = match removed {
                Some(v) => v,
                None => {
                    proof {
                        assert(false);
                    }
                    Vertex::empty()
                },
            };
            v.allow_eviction();
            v.set_metadata_value(metadata);
            let for_hooks: Option<(Message, T)> = match (v.message(), v.metadata()) {
                (Some(m), Some(t)) => Some((m.message().clone(), t.clone())),
                _ => None,
            };
            self.vertices.insert(message_id, v);
            proof {
                assert(self.index() =~= m1.insert(message_id, v));
                assert(self.index().dom() =~= m1.dom());
                assert forall|k: u64| #[trigger]
                    self.index().dom().contains(k) implies self.index()[k].wf()
                    && self.queue().contains(k) && self.index()[k].spec_pin() == 0 by {
                    assert(m1.dom().contains(k));
                }
            }
            self.promote(message_id);
            match for_hooks {
                Some((msg, meta)) => {
                    let _ = self.hooks.insert(message_id, msg, meta);
                },
                None => {},
            }
        } else {
            self.touch(message_id);
        }
    }

    /// Applies `update` to the metadata of `message_id` in place and writes
    /// the updated pair through to the backing store. Returns the second
    /// component of what `update` returned, or `None` when no message exists
    /// anywhere for this identifier.
    pub fn update_metadata<R, F: FnOnce(T) -> (T, R)>(&mut self, message_id: u64, update: F) -> (r:
        Option<R>)
        requires
            old(self).wf(),
            old(self).at_rest(),
            forall|t: T| #[trigger] update.requires((t,)),
        ensures
            final(self).wf(),
            final(self).at_rest(),
            final(self).cap() == old(self).cap(),
            old(self).occupied(message_id) ==> r is Some && crate::vertex::metadata_updated(
                old(self).index()[message_id],
                final(self).index()[message_id],
                update,
                r->Some_0,
            ) && final(self).index().dom() == old(self).index().dom() && final(self).index()[message_id].spec_message() == old(self).index()[message_id].spec_message()
                && final(self).index()[message_id].spec_children() == old(self).index()[message_id].spec_children() && (forall|k: u64|
                #[trigger] old(self).index().dom().contains(k) && k != message_id ==> final(self).index()[k] == old(self).index()[k]),
            r is None ==> !old(self).occupied(message_id),
            r is Some <==> final(self).occupied(message_id),
            r is Some ==> final(self).queue().len() > 0 && final(self).queue().last()
                == message_id,
            r is Some ==> exists|t0: T, t1: T|
                {
                    &&& #[trigger] call_ensures(update, (t0,), (t1, r->Some_0))
                    &&& final(self).index()[message_id].spec_metadata() == Some(t1)
                },
            exhaustive_monotonic(old(self).index(), final(self).index()),
            final(self).index().len() <= old(self).index().len() || final(self).index().len()
                <= old(self).cap() || final(self).index().len() <= 1,
    {
        let pulled = self.pull_message(message_id, true);
        if pulled {
            let ghost m1 = self.index();
            let removed = self.vertices.remove(&message_id);
            let mut v = match removed {
                Some(v) => v,
                None => {
                    proof {
                        assert(false);
                    }
                    Vertex::empty()
                },
            };
            v.allow_eviction();
            let ghost v_pre = v;
            let r = v.update_metadata_with(update);
            proof {
                assert(v_pre.spec_metadata() is Some);
                assert(r is Some);
                let rv = r->Some_0;
                let m1c = choose|m1: T|
                    {
                        &&& #[trigger] call_ensures(
                            update,
                            (v_pre.spec_metadata()->Some_0,),
                            (m1, rv),
                        )
                        &&& v.spec_metadata() == Some(m1)
                    };
                assert(call_ensures(update, (v_pre.spec_metadata()->Some_0,), (m1c, rv))
                    && v.spec_metadata() == Some(m1c));
            }
            let for_hooks: Option<(Message, T)> = match (v.message(), v.metadata()) {
                (Some(m), Some(t)) => Some((m.message().clone(), t.clone())),
                _ => None,
            };
            self.vertices.insert(message_id, v);
            proof {
                assert(self.index() =~= m1.insert(message_id, v));
                assert(self.index().dom() =~= m1.dom());
                assert forall|k: u64| #[trigger]
                    self.index().dom().contains(k) implies self.index()[k].wf()
                    && self.queue().contains(k) && self.index()[k].spec_pin() == 0 by {
                    assert(m1.dom().contains(k));
                }
            }
            self.promote(message_id);
            match for_hooks {
                Some((msg, meta)) => {
                    let _ = self.hooks.insert(message_id, msg, meta);
                },
                None => {},
            }
            r
        } else {
            self.touch(message_id);
            None
        }
    }
}


impl<T, H: Hooks<T>> Tangle<T, H> {
    /// The children of `message_id` once they are complete knowledge: if the
    /// cached list is not yet exhaustive, the authoritative list is fetched
    /// from the backing store and merged in (discovered edges are never
    /// lost), and the vertex is marked exhaustive. If the backing store
    /// fails, exhaustiveness is not set and an empty list is returned; a
    /// later call may retry.
    fn children_inner(&mut self, message_id: u64) -> (r: Vec<u64>)
        requires
            old(self).wf(),
        ensures
            final(self).wf(),
            final(self).cap() == old(self).cap(),
            old(self).index().contains_key(message_id) && old(self).index()[message_id].spec_exhaustive() ==> final(self).index() == old(self).index()
                && r@ == old(self).index()[message_id].spec_children(),
            final(self).index().contains_key(message_id) && final(self).index()[message_id].spec_exhaustive() && old(self).index().contains_key(message_id)
                ==> old(self).index()[message_id].children_set() <= final(self).index()[message_id].children_set(),
            forall|k: u64|
                #[trigger] old(self).index().dom().contains(k) && k != message_id ==> final(self).index().dom().contains(k) && final(self).index()[k] == old(self).index()[k],
            forall|k: u64|
                #[trigger] final(self).index().dom().contains(k) && k != message_id ==> old(self).index().dom().contains(k),
            final(self).index().contains_key(message_id) && !old(self).index().contains_key(
                message_id,
            ) ==> final(self).index()[message_id].spec_message() is None,
            old(self).index().contains_key(message_id) ==> final(self).index().contains_key(
                message_id,
            ) && final(self).index()[message_id].spec_message() == old(self).index()[message_id].spec_message() && final(self).index()[message_id].spec_metadata()
                == old(self).index()[message_id].spec_metadata() && final(self).index()[message_id].spec_pin() == old(self).index()[message_id].spec_pin(),
            exhaustive_monotonic(old(self).index(), final(self).index()),
            final(self).index().len() <= old(self).index().len() + 1,
            old(self).at_rest() ==> final(self).at_rest(),
            final(self).index().contains_key(message_id) && final(self).index()[message_id].spec_exhaustive() ==> r@ == final(self).index()[message_id].spec_children(),
            r@.no_duplicates(),
            final(self).queue().len() > 0 && final(self).queue().last() == message_id,
    {
        let ghost m0 = self.index();
        let exhaustive_now = match self.vertices.get(&message_id) {
            Some(v) => v.children_exhaustive(),
            None => false,
        };
        if exhaustive_now {
            self.promote(message_id);
            let out = match self.vertices.get(&message_id) {
                Some(v) => clone_ids(v.children()),
                None => {
                    proof {
                        assert(false);
                    }
                    Vec::new()
                },
            };
            out
        } else {
            self.promote(message_id);
            let fetched = self.hooks.fetch_approvers(message_id);
            match fetched {
                Ok(opt) => {
                    let to_insert = match opt {
                        Some(a) => a,
                        None => Vec::new(),
                    };
                    let ghost m1 = self.index();
                    let removed = self.vertices.remove(&message_id);
                    let ghost v0 = entry_of(m1, message_id);
                    let mut v = match removed {
                        Some(v) => v,
                        None => Vertex::empty(),
                    };
                    v.set_exhaustive();
                    let n = to_insert.len();
                    let mut i: usize = 0;
                    while i < n
                        invariant
                            n == to_insert@.len(),
                            i <= n,
                            v.wf(),
                            v.spec_exhaustive(),
                            v.spec_message() == (match v0 {
                                Some(w) => w.spec_message(),
                                None => None::<MessageRef>,
                            }),
                            v.spec_metadata() == (match v0 {
                                Some(w) => w.spec_metadata(),
                                None => None::<T>,
                            }),
                            v.spec_pin() == (match v0 {
                                Some(w) => w.spec_pin(),
                                None => 0u64,
                            }),
                            v.children_set() == (match v0 {
                                Some(w) => w.children_set(),
                                None => Set::<u64>::empty(),
                            }).union(to_insert@.take(i as int).to_set()),
                        decreases n - i,
                    {
                        let ghost cs = v.children_set();
                        v.add_child(to_insert[i]);
                        proof {
                            assert(to_insert@.take(i as int + 1) =~= to_insert@.take(
                                i as int,
                            ).push(to_insert@[i as int]));
                            lemma_push_to_set(to_insert@.take(i as int), to_insert@[i as int]);
                            assert(v.children_set() =~= (match v0 {
                                Some(w) => w.children_set(),
                                None => Set::<u64>::empty(),
                            }).union(to_insert@.take(i as int + 1).to_set()));
                        }
                        i += 1;
                    }
                    let out = clone_ids(v.children());
                    self.vertices.insert(message_id, v);
                    proof {
                        assert(self.index() =~= m1.insert(message_id, v));
                        assert forall|k: u64| #[trigger]
                            self.index().dom().contains(k) implies self.index()[k].wf()
                            && self.queue().contains(k) by {
                            if k != message_id {
                                assert(m0.dom().contains(k));
                            }
                        }
                        if old(self).index().contains_key(message_id) {
                            assert(old(self).index()[message_id].children_set()
                                <= self.index()[message_id].children_set());
                        }
                    }
                    out
                },
                Err(_) => Vec::new(),
            }
        }
    }

    /// The children of `message_id` as complete knowledge, fetched from the
    /// backing store if need be (see [`Self::children_inner`]).
    pub fn get_children(&mut self, message_id: u64) -> (r: Option<Vec<u64>>)
        requires
            old(self).wf(),
        ensures
            final(self).wf(),
            final(self).cap() == old(self).cap(),
            r is Some,
            old(self).index().contains_key(message_id) && old(self).index()[message_id].spec_exhaustive() ==> final(self).index() == old(self).index()
                && r->Some_0@ == old(self).index()[message_id].spec_children(),
            final(self).index().contains_key(message_id) && final(self).index()[message_id].spec_exhaustive() ==> r->Some_0@ == final(self).index()[message_id].spec_children(),
            r->Some_0@.no_duplicates(),
            final(self).index().contains_key(message_id) && final(self).index()[message_id].spec_exhaustive() && old(self).index().contains_key(message_id) ==> old(self).index()[message_id].children_set() <= final(self).index()[message_id].children_set(),
            forall|k: u64|
                #[trigger] old(self).index().dom().contains(k) && k != message_id ==> final(self).index().dom().contains(k) && final(self).index()[k] == old(self).index()[k],
            forall|k: u64|
                #[trigger] final(self).index().dom().contains(k) && k != message_id ==> old(self).index().dom().contains(k),
            old(self).index().contains_key(message_id) ==> final(self).index().contains_key(message_id) && final(self).index()[message_id].spec_message() == old(self).index()[message_id].spec_message() && final(self).index()[message_id].spec_metadata() == old(self).index()[message_id].spec_metadata() && final(self).index()[message_id].spec_pin() == old(self).index()[message_id].spec_pin(),
            exhaustive_monotonic(old(self).index(), final(self).index()),
            old(self).at_rest() ==> final(self).at_rest(),
            final(self).index().len() <= old(self).index().len() + 1,
            final(self).queue().len() > 0 && final(self).queue().last() == message_id,
    {
        Some(self.children_inner(message_id))
    }

    /// How many children `message_id` has, as complete knowledge, fetched
    /// from the backing store if need be (see [`Self::children_inner`]).
    pub fn num_children(&mut self, message_id: u64) -> (r: usize)
        requires
            old(self).wf(),
        ensures
            final(self).wf(),
            final(self).cap() == old(self).cap(),
            old(self).index().contains_key(message_id) && old(self).index()[message_id].spec_exhaustive() ==> final(self).index() == old(self).index()
                && r == old(self).index()[message_id].spec_children().len(),
            final(self).index().contains_key(message_id) && final(self).index()[message_id].spec_exhaustive() ==> r == final(self).index()[message_id].spec_children().len(),
            forall|k: u64|
                #[trigger] old(self).index().dom().contains(k) && k != message_id ==> final(self).index().dom().contains(k) && final(self).index()[k] == old(self).index()[k],
            forall|k: u64|
                #[trigger] final(self).index().dom().contains(k) && k != message_id ==> old(self).index().dom().contains(k),
            old(self).index().contains_key(message_id) ==> final(self).index().contains_key(message_id) && final(self).index()[message_id].spec_message() == old(self).index()[message_id].spec_message() && final(self).index()[message_id].spec_metadata() == old(self).index()[message_id].spec_metadata() && final(self).index()[message_id].spec_pin() == old(self).index()[message_id].spec_pin(),
            exhaustive_monotonic(old(self).index(), final(self).index()),
            old(self).at_rest() ==> final(self).at_rest(),
            final(self).index().len() <= old(self).index().len() + 1,
            final(self).queue().len() > 0 && final(self).queue().last() == message_id,
    {
        let children = self.children_inner(message_id);
        children.len()
    }
}

impl<T, H: Hooks<T> + Default> Default for Tangle<T, H> {
    /// A tangle over default hooks, with the default bound, empty and well
    /// formed.
    fn default() -> (r: Self)
        ensures
            r.index() == Map::<u64, Vertex<T>>::empty(),
            r.queue() == Seq::<u64>::empty(),
            r.cap() == DEFAULT_CACHE_LEN,
            r.wf(),
            r.at_rest(),
    {
        Tangle::new(H::default())
    }
}


/// Monotonic exhaustiveness composes across operations: a vertex that stays
/// cached through two steps and was exhaustive at the start is exhaustive at
/// the end. Together with the `exhaustive_monotonic` clause every operation
/// ensures, the flag can only ever go from false to true over a vertex's
/// cached lifetime.
pub proof fn lemma_exhaustive_monotonic_trans<T>(
    m0: Map<u64, Vertex<T>>,
    m1: Map<u64, Vertex<T>>,
    m2: Map<u64, Vertex<T>>,
)
    requires
        exhaustive_monotonic(m0, m1),
        exhaustive_monotonic(m1, m2),
        forall|k: u64|
            m0.dom().contains(k) && #[trigger] m2.dom().contains(k) ==> m1.dom().contains(k),
    ensures
        exhaustive_monotonic(m0, m2),
{
    assert forall|k: u64|
        m0.dom().contains(k) && #[trigger] m2.dom().contains(k)
            && m0[k].spec_exhaustive() implies m2[k].spec_exhaustive() by {
        assert(m1.dom().contains(k));
        assert(m1[k].spec_exhaustive());
    }
}




/// What recency-ordered eviction means for two vertices: a vertex the pass
/// removed occupied a position nearer the least recently used end of the
/// queue than any surviving unpinned vertex that was queued.
pub proof fn lemma_lru_order_pointwise<T>(
    m0: Map<u64, Vertex<T>>,
    m1: Map<u64, Vertex<T>>,
    q0: Seq<u64>,
    k1: u64,
    k2: u64,
)
    requires
        evicted_in_lru_order(m0, m1, q0),
        m0.dom().contains(k1),
        !m1.dom().contains(k1),
        m1.dom().contains(k2),
        m1[k2].spec_pin() == 0,
        q0.contains(k2),
    ensures
        exists|i1: int, i2: int|
            #![trigger q0[i1], q0[i2]]
            0 <= i1 < i2 < q0.len() && q0[i1] == k1 && q0[i2] == k2,
{
    let i = choose|i: int|
        #![trigger q0.skip(i)]
        {
            &&& 0 <= i <= q0.len()
            &&& (forall|k: u64|
                #[trigger] m0.dom().contains(k) && !m1.dom().contains(k) ==> q0.take(i).contains(
                    k,
                ))
            &&& (forall|k: u64|
                #[trigger] m1.dom().contains(k) && m1[k].spec_pin() == 0 && q0.contains(k)
                    ==> q0.skip(i).contains(k))
        };
    assert(q0.take(i).contains(k1));
    let j1 = choose|j: int| 0 <= j < q0.take(i).len() && q0.take(i)[j] == k1;
    assert(q0[j1] == k1);
    assert(q0.skip(i).contains(k2));
    let j2 = choose|j: int| 0 <= j < q0.skip(i).len() && q0.skip(i)[j] == k2;
    assert(q0[i + j2] == k2);
    assert(0 <= j1 < i + j2 < q0.len());
}



} // verus!
