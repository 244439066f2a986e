//! The opaque message payload and the shared handle that the cache hands out.

use vstd::prelude::*;

verus! {

/// An immutable message payload. The only thing the cache ever reads from a
/// message is the ordered list of its parents' identifiers, so that list is
/// all the type holds; it is what the view of a message denotes.
pub struct Message {
    parents: Vec<u64>,
}

impl View for Message {
    type V = Seq<u64>;

    closed spec fn view(&self) -> Seq<u64> {
        self.parents@
    }
}

impl Message {
    /// Builds a message whose parents are exactly the given identifiers.
    pub fn new(parents: Vec<u64>) -> (r: Message)
        ensures
            r@ == parents@,
    {
        Message { parents }
    }

    /// The ordered list of the message's parents.
    pub fn parents(&self) -> (r: &Vec<u64>)
        ensures
            r@ == self@,
    {
        &self.parents
    }
}

impl Clone for Message {
    /// The clone carries the same parents.
    fn clone(&self) -> (r: Self)
        ensures
            r@ == self@,
    {
        let parents = self.parents.clone();
        proof {
            assert(parents@ =~= self.parents@);
        }
        Message { parents }
    }
}

/// Relies on std::sync::Arc::clone: the clone is a new handle to the very
/// same value.
#[verifier::external_body]
fn arc_clone(a: &std::sync::Arc<Message>) -> (r: std::sync::Arc<Message>)
    ensures
        r == *a,
{
    std::sync::Arc::clone(a)
}

/// A shared handle to a message. It stays valid even after the vertex that
/// held the message is evicted from the cache: cloning the handle shares the
/// underlying message rather than copying it.
pub struct MessageRef {
    msg: std::sync::Arc<Message>,
}

impl View for MessageRef {
    type V = Seq<u64>;

    closed spec fn view(&self) -> Seq<u64> {
        self.msg@
    }
}

impl MessageRef {
    /// Wraps a message in a shared handle.
    pub fn new(msg: Message) -> (r: MessageRef)
        ensures
            r@ == msg@,
    {
        MessageRef { msg: std::sync::Arc::new(msg) }
    }

    /// The message the handle refers to.
    pub fn message(&self) -> (r: &Message)
        ensures
            r@ == self@,
    {
        &*self.msg
    }

    /// The ordered list of the message's parents.
    pub fn parents(&self) -> (r: &Vec<u64>)
        ensures
            r@ == self@,
    {
        self.message().parents()
    }
}

impl Clone for MessageRef {
    /// The clone is a handle to the same message.
    fn clone(&self) -> (r: Self)
        ensures
            r@ == self@,
    {
        MessageRef { msg: arc_clone(&self.msg) }
    }
}

} // verus!
