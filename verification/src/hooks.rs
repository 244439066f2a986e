//! The bridge to the backing store. The tangle is an in-memory cache; when an
//! entry is missing it asks the hooks to fetch it, and when an entry changes
//! it writes the change through. Any implementation is acceptable: the
//! tangle's contracts hold whatever the hooks answer.

use vstd::prelude::*;

use crate::message::Message;

verus! {

/// The capability set a backing store offers to the tangle. Every operation
/// is fallible; the tangle treats a failure as a miss (for reads) or ignores
/// it (for writes), so the in-memory view stays consistent either way.
pub trait Hooks<T> {
    /// An error produced by the backing store.
    type Error;

    /// Fetches a message and its metadata, or reports that none is stored.
    fn get(&mut self, message_id: u64) -> Result<Option<(Message, T)>, Self::Error>;

    /// Writes a message and its metadata through to the backing store.
    fn insert(&mut self, message_id: u64, msg: Message, metadata: T) -> Result<
        (),
        Self::Error,
    >;

    /// Fetches the authoritative children list of a message, if one is known.
    fn fetch_approvers(&mut self, message_id: u64) -> Result<Option<Vec<u64>>, Self::Error>;

    /// Records a single parent-to-child edge in the backing store.
    fn insert_approver(&mut self, message_id: u64, approver: u64) -> Result<(), Self::Error>;

    /// Replaces the children list of a message in the backing store. Reserved:
    /// the tangle's own flows do not call it.
    fn update_approvers(&mut self, message_id: u64, approvers: &Vec<u64>) -> Result<
        (),
        Self::Error,
    >;
}

/// Hooks that store nothing: every read reports absence and every write
/// succeeds without effect. A tangle over these hooks is a plain bounded
/// in-memory cache.
pub struct NullHooks<T> {
    marker: core::marker::PhantomData<T>,
}

impl<T> NullHooks<T> {
    /// Builds the null hooks.
    pub fn new() -> (r: NullHooks<T>) {
        NullHooks { marker: core::marker::PhantomData }
    }
}

impl<T> Default for NullHooks<T> {
    fn default() -> (r: Self) {
        NullHooks::new()
    }
}

impl<T> Hooks<T> for NullHooks<T> {
    type Error = ();

    fn get(&mut self, message_id: u64) -> (r: Result<Option<(Message, T)>, Self::Error>)
        ensures
            r == Ok::<Option<(Message, T)>, ()>(None),
    {
        Ok(None)
    }

    fn insert(&mut self, message_id: u64, msg: Message, metadata: T) -> (r: Result<
        (),
        Self::Error,
    >)
        ensures
            r == Ok::<(), ()>(()),
    {
        Ok(())
    }

    fn fetch_approvers(&mut self, message_id: u64) -> (r: Result<Option<Vec<u64>>, Self::Error>)
        ensures
            r == Ok::<Option<Vec<u64>>, ()>(None),
    {
        Ok(None)
    }

    fn insert_approver(&mut self, message_id: u64, approver: u64) -> (r: Result<(), Self::Error>)
        ensures
            r == Ok::<(), ()>(()),
    {
        Ok(())
    }

    fn update_approvers(&mut self, message_id: u64, approvers: &Vec<u64>) -> (r: Result<
        (),
        Self::Error,
    >)
        ensures
            r == Ok::<(), ()>(()),
    {
        Ok(())
    }
}

} // verus!
