//! A vertex of the tangle: a message (possibly still missing), its metadata,
//! the children discovered so far, an exhaustiveness flag and a pin counter
//! that blocks eviction while non-zero.

use vstd::prelude::*;

use crate::message::{Message, MessageRef};

verus! {

/// A node of the cached graph. A vertex may exist as a placeholder (no
/// message yet), created because a child named it as a parent before the
/// message itself arrived.
pub struct Vertex<T> {
    message: Option<MessageRef>,
    metadata: Option<T>,
    children: Vec<u64>,
    exhaustive: bool,
    pin_count: u64,
}

/// Holds when `post` is `pre` with its metadata replaced by the first
/// component of what `update` may return on the old metadata, `rv` being the
/// second component.
pub open spec fn metadata_updated<T, R, F: FnOnce(T) -> (T, R)>(
    pre: Vertex<T>,
    post: Vertex<T>,
    update: F,
    rv: R,
) -> bool {
    exists|m1: T|
        {
            &&& #[trigger] call_ensures(update, (pre.spec_metadata()->Some_0,), (m1, rv))
            &&& post.spec_metadata() == Some(m1)
        }
}

impl<T> Vertex<T> {
    /// The stored message handle, if the message body has been installed.
    pub closed spec fn spec_message(self) -> Option<MessageRef> {
        self.message
    }

    /// The stored metadata, present exactly when the message is.
    pub closed spec fn spec_metadata(self) -> Option<T> {
        self.metadata
    }

    /// The children discovered so far, in discovery order.
    pub closed spec fn spec_children(self) -> Seq<u64> {
        self.children@
    }

    /// Whether the children list is known to be complete.
    pub closed spec fn spec_exhaustive(self) -> bool {
        self.exhaustive
    }

    /// How many outstanding uses block eviction of this vertex.
    pub closed spec fn spec_pin(self) -> u64 {
        self.pin_count
    }

    /// Whether a message body has been installed.
    pub open spec fn has_message(self) -> bool {
        self.spec_message() is Some
    }

    /// The children discovered so far, as a set.
    pub open spec fn children_set(self) -> Set<u64> {
        self.spec_children().to_set()
    }

    /// Well-formedness: message and metadata are installed as a pair, and no
    /// child is recorded twice.
    pub open spec fn wf(self) -> bool {
        &&& self.spec_message() is Some <==> self.spec_metadata() is Some
        &&& self.spec_children().no_duplicates()
    }

    /// A placeholder vertex: no message, no metadata, no children, children
    /// not exhaustive, not pinned.
    pub fn empty() -> (r: Vertex<T>)
        ensures
            r.spec_message() is None,
            r.spec_metadata() is None,
            r.spec_children() == Seq::<u64>::empty(),
            !r.spec_exhaustive(),
            r.spec_pin() == 0,
            r.wf(),
    {
        Vertex {
            message: None,
            metadata: None,
            children: Vec::new(),
            exhaustive: false,
            pin_count: 0,
        }
    }

    /// Installs the message body and its metadata as a pair. May only be
    /// called while the vertex is still a placeholder.
    pub fn install(&mut self, message: Message, metadata: T)
        requires
            old(self).spec_message() is None,
        ensures
            final(self).spec_message() matches Some(m) && m@ == message@,
            final(self).spec_metadata() == Some(metadata),
            final(self).spec_children() == old(self).spec_children(),
            final(self).spec_exhaustive() == old(self).spec_exhaustive(),
            final(self).spec_pin() == old(self).spec_pin(),
            old(self).wf() ==> final(self).wf(),
    {
        self.message = Some(MessageRef::new(message));
        self.metadata = Some(metadata);
    }

    /// Records `id` as a child; recording the same child twice leaves the
    /// vertex unchanged.
    pub fn add_child(&mut self, id: u64)
        ensures
            final(self).children_set() == old(self).children_set().insert(id),
            old(self).spec_children().contains(id) ==> final(self).spec_children() == old(
                self,
            ).spec_children(),
            !old(self).spec_children().contains(id) ==> final(self).spec_children() == old(
                self,
            ).spec_children().push(id),
            final(self).spec_message() == old(self).spec_message(),
            final(self).spec_metadata() == old(self).spec_metadata(),
            final(self).spec_exhaustive() == old(self).spec_exhaustive(),
            final(self).spec_pin() == old(self).spec_pin(),
            old(self).wf() ==> final(self).wf(),
    {
        let mut i: usize = 0;
        let n = self.children.len();
        while i < n
            invariant
                n == self.children.len(),
                i <= n,
                forall|j: int| 0 <= j < i ==> self.children@[j] != id,
            decreases n - i,
        {
            if self.children[i] == id {
                proof {
                    assert(self.children@.contains(id));
                    assert(self.children@.to_set() =~= self.children@.to_set().insert(id));
                }
                return ;
            }
            i += 1;
        }
        proof {
            assert(!self.children@.contains(id));
        }
        self.children.push(id);
        proof {
            let s0 = old(self).children@;
            let s1 = self.children@;
            assert(s1 == s0.push(id));
            assert(s1.to_set() =~= s0.to_set().insert(id)) by {
                assert forall|x: u64| s1.to_set().contains(x) implies s0.to_set().insert(
                    id,
                ).contains(x) by {
                    let i = choose|i: int| 0 <= i < s1.len() && s1[i] == x;
                    if i < s0.len() {
                        assert(s0[i] == x);
                        assert(s0.contains(x));
                    }
                };
                assert forall|x: u64| s0.to_set().insert(id).contains(x) implies s1.to_set()
                    .contains(x) by {
                    if x == id {
                        assert(s1[s0.len() as int] == x);
                        assert(s1.contains(x));
                    } else {
                        let i = choose|i: int| 0 <= i < s0.len() && s0[i] == x;
                        assert(s1[i] == x);
                        assert(s1.contains(x));
                    }
                };
            }
            if s0.no_duplicates() {
                assert(s1.no_duplicates()) by {
                    assert forall|i: int, j: int|
                        0 <= i < s1.len() && 0 <= j < s1.len() && i != j implies s1[i] != s1[j] by {
                        if i < s0.len() && j < s0.len() {
                        } else if i == s0.len() && j < s0.len() {
                            assert(s0.contains(s0[j]));
                        } else if j == s0.len() && i < s0.len() {
                            assert(s0.contains(s0[i]));
                        }
                    };
                }
            }
        }
    }

    /// Marks the children list as complete knowledge; this is never undone.
    pub fn set_exhaustive(&mut self)
        ensures
            final(self).spec_exhaustive(),
            final(self).spec_message() == old(self).spec_message(),
            final(self).spec_metadata() == old(self).spec_metadata(),
            final(self).spec_children() == old(self).spec_children(),
            final(self).spec_pin() == old(self).spec_pin(),
            old(self).wf() ==> final(self).wf(),
    {
        self.exhaustive = true;
    }

    /// Whether the children list is known to be complete.
    pub fn children_exhaustive(&self) -> (r: bool)
        ensures
            r == self.spec_exhaustive(),
    {
        self.exhaustive
    }

    /// Takes a pin on the vertex; while pinned it cannot be evicted. Every
    /// pin must later be released with [`Self::allow_eviction`].
    pub fn prevent_eviction(&mut self)
        requires
            old(self).spec_pin() < u64::MAX,
        ensures
            final(self).spec_pin() == old(self).spec_pin() + 1,
            final(self).spec_message() == old(self).spec_message(),
            final(self).spec_metadata() == old(self).spec_metadata(),
            final(self).spec_children() == old(self).spec_children(),
            final(self).spec_exhaustive() == old(self).spec_exhaustive(),
            old(self).wf() ==> final(self).wf(),
    {
        self.pin_count = self.pin_count + 1;
    }

    /// Releases one pin taken with [`Self::prevent_eviction`].
    pub fn allow_eviction(&mut self)
        requires
            old(self).spec_pin() > 0,
        ensures
            final(self).spec_pin() == old(self).spec_pin() - 1,
            final(self).spec_message() == old(self).spec_message(),
            final(self).spec_metadata() == old(self).spec_metadata(),
            final(self).spec_children() == old(self).spec_children(),
            final(self).spec_exhaustive() == old(self).spec_exhaustive(),
            old(self).wf() ==> final(self).wf(),
    {
        self.pin_count = self.pin_count - 1;
    }

    /// Whether the vertex may be evicted: true exactly when no pin is held.
    pub fn can_evict(&self) -> (r: bool)
        ensures
            r == (self.spec_pin() == 0),
    {
        self.pin_count == 0
    }

    /// The stored message handle, if any.
    pub fn message(&self) -> (r: Option<&MessageRef>)
        ensures
            match r {
                Some(m) => self.spec_message() == Some(*m),
                None => self.spec_message() is None,
            },
    {
        self.message.as_ref()
    }

    /// The stored metadata, if any.
    pub fn metadata(&self) -> (r: Option<&T>)
        ensures
            match r {
                Some(m) => self.spec_metadata() == Some(*m),
                None => self.spec_metadata() is None,
            },
    {
        self.metadata.as_ref()
    }

    /// The children discovered so far, in discovery order.
    pub fn children(&self) -> (r: &Vec<u64>)
        ensures
            r@ == self.spec_children(),
    {
        &self.children
    }

    /// Replaces the metadata. May only be called once metadata is installed,
    /// so that message and metadata stay paired.
    pub fn set_metadata_value(&mut self, metadata: T)
        requires
            old(self).spec_metadata() is Some,
        ensures
            final(self).spec_metadata() == Some(metadata),
            final(self).spec_message() == old(self).spec_message(),
            final(self).spec_children() == old(self).spec_children(),
            final(self).spec_exhaustive() == old(self).spec_exhaustive(),
            final(self).spec_pin() == old(self).spec_pin(),
            old(self).wf() ==> final(self).wf(),
    {
        self.metadata = Some(metadata);
    }

    /// Applies `update` to the metadata in place, returning its result, or
    /// returns `None` (and changes nothing) when no metadata is installed.
    pub fn update_metadata_with<R, F: FnOnce(T) -> (T, R)>(&mut self, update: F) -> (r: Option<R>)
        requires
            forall|t: T| #[trigger] update.requires((t,)),
        ensures
            r is Some <==> old(self).spec_metadata() is Some,
            r is None ==> final(self).spec_metadata() is None,
            r is Some ==> metadata_updated(*old(self), *final(self), update, r->Some_0),
            final(self).spec_message() == old(self).spec_message(),
            final(self).spec_children() == old(self).spec_children(),
            final(self).spec_exhaustive() == old(self).spec_exhaustive(),
            final(self).spec_pin() == old(self).spec_pin(),
            old(self).wf() ==> final(self).wf(),
    {
        match self.metadata.take() {
            Some(m) => {
                let ghost m0 = m;
                let (m1, rv) = update(m);
                self.metadata = Some(m1);
                proof {
                    assert(old(self).spec_metadata() == Some(m0));
                    assert(call_ensures(update, (old(self).spec_metadata()->Some_0,), (m1, rv)));
                    assert(self.spec_metadata() == Some(m1));
                    assert(metadata_updated(*old(self), *self, update, rv));
                }
                Some(rv)
            },
            None => None,
        }
    }
}

impl<T: Clone> Vertex<T> {
    /// A snapshot of the vertex: the message handle is shared, the metadata
    /// is cloned, and the remaining fields are copied.
    pub fn snapshot(&self) -> (r: Vertex<T>)
        ensures
            match (self.spec_message(), r.spec_message()) {
                (Some(a), Some(b)) => a@ == b@,
                (None, None) => true,
                _ => false,
            },
            match (self.spec_metadata(), r.spec_metadata()) {
                (Some(a), Some(b)) => cloned(a, b),
                (None, None) => true,
                _ => false,
            },
            r.spec_children() == self.spec_children(),
            r.spec_exhaustive() == self.spec_exhaustive(),
            r.spec_pin() == self.spec_pin(),
            self.wf() ==> r.wf(),
    {
        let message = match &self.message {
            Some(m) => Some(m.clone()),
            None => None,
        };
        let metadata = match &self.metadata {
            Some(m) => Some(m.clone()),
            None => None,
        };
        let children = self.children.clone();
        proof {
            assert(children@ =~= self.children@);
        }
        Vertex {
            message,
            metadata,
            children,
            exhaustive: self.exhaustive,
            pin_count: self.pin_count,
        }
    }
}

} // verus!
