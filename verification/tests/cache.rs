use bee_tangle::hooks::{Hooks, NullHooks};
use bee_tangle::message::Message;
use bee_tangle::tangle::{Tangle, DEFAULT_CACHE_LEN};

fn null_tangle() -> Tangle<u32, NullHooks<u32>> {
    Tangle::new(NullHooks::new())
}

#[test]
fn insert_single_message() {
    let mut t = null_tangle();
    let r = t.insert(1, Message::new(vec![]), 10);
    assert!(r.is_some());
    assert!(t.contains(1));
    assert_eq!(t.len(), 1);
    assert!(!t.is_empty());
    assert_eq!(t.num_children(1), 0);
}

#[test]
fn insert_child_after_parent() {
    let mut t = null_tangle();
    t.insert(1, Message::new(vec![]), 0);
    t.insert(2, Message::new(vec![1]), 0);
    assert_eq!(t.num_children(1), 1);
    assert_eq!(t.get_children(1), Some(vec![2]));
    assert_eq!(t.len(), 2);
}

#[test]
fn insert_child_before_parent() {
    let mut t = null_tangle();
    t.insert(2, Message::new(vec![1]), 0);
    assert!(!t.contains(1));
    let children = t.get_children(1).unwrap();
    assert_eq!(children, vec![2]);
    assert_eq!(t.num_children(1), 1);
    t.insert(1, Message::new(vec![]), 0);
    assert!(t.contains(1));
    assert_eq!(t.num_children(1), 1);
}

#[test]
fn eviction_drops_least_recently_used() {
    let mut t = null_tangle();
    t.resize(2);
    t.insert(1, Message::new(vec![]), 0);
    t.insert(2, Message::new(vec![]), 0);
    t.insert(3, Message::new(vec![]), 0);
    assert!(t.len() <= 2);
    assert!(!t.contains(1));
    assert!(t.contains(3));
}

#[test]
fn bound_holds_after_every_operation() {
    let mut t = null_tangle();
    t.resize(3);
    for id in 0..20u64 {
        t.insert(id, Message::new(vec![]), 0);
        assert!(t.len() <= 3);
        t.contains(id / 2);
        assert!(t.len() <= 3);
    }
}

#[test]
fn reinsert_keeps_first_message_and_returns_none() {
    let mut t = null_tangle();
    let first = t.insert(7, Message::new(vec![1]), 10);
    assert!(first.is_some());
    let second = t.insert(7, Message::new(vec![2]), 20);
    assert!(second.is_none());
    let got = t.get(7).unwrap();
    assert_eq!(got.parents().clone(), vec![1]);
    assert_eq!(t.get_metadata(7), Some(10));
}

#[test]
fn exhaustiveness_is_monotonic_and_merge_is_additive() {
    let mut t = null_tangle();
    t.insert(1, Message::new(vec![]), 0);
    // materializes the children of 1 as complete knowledge (none yet)
    assert_eq!(t.get_children(1), Some(vec![]));
    // a later edge discovered at runtime must be kept
    t.insert(2, Message::new(vec![1]), 0);
    assert_eq!(t.get_children(1), Some(vec![2]));
    assert_eq!(t.num_children(1), 1);
}

#[test]
fn metadata_can_be_set_and_updated() {
    let mut t = null_tangle();
    t.insert(4, Message::new(vec![]), 1);
    assert_eq!(t.get_metadata(4), Some(1));
    assert_eq!(t.get_metadata_maybe(4), Some(1));
    assert_eq!(t.get_metadata_maybe(5), None);
    t.set_metadata(4, 9);
    assert_eq!(t.get_metadata(4), Some(9));
    let old = t.update_metadata(4, |m| (m + 1, m));
    assert_eq!(old, Some(9));
    assert_eq!(t.get_metadata(4), Some(10));
    assert_eq!(t.update_metadata(5, |m| (m, ())), None);
}

#[test]
fn vertex_views_are_coherent() {
    let mut t = null_tangle();
    t.insert(3, Message::new(vec![1, 2]), 5);
    let v = t.get_vertex(3).unwrap();
    assert!(v.message().is_some());
    assert_eq!(v.metadata(), Some(&5));
    assert!(!v.children_exhaustive());
    assert!(t.get_vertex(9).is_none());
    let got = t.get_with(3, |v| v.message().cloned()).unwrap();
    assert_eq!(got.parents().clone(), vec![1, 2]);
}

#[test]
fn missing_message_is_absent() {
    let mut t = null_tangle();
    assert!(!t.contains(42));
    assert!(t.get(42).is_none());
    assert!(t.get_metadata(42).is_none());
    assert!(t.is_empty());
}

#[test]
fn default_and_capacity_constructors() {
    let mut t: Tangle<u32, NullHooks<u32>> = Tangle::default();
    assert!(t.is_empty());
    assert_eq!(DEFAULT_CACHE_LEN, 100_000);
    let mut t2 = Tangle::<u32, NullHooks<u32>>::new(NullHooks::new()).with_capacity(8);
    t2.insert(1, Message::new(vec![]), 0);
    assert!(t2.contains(1));
    t2.clear();
    assert!(t2.is_empty());
}

/// A backing store that records every write, in order.
struct RecordingHooks {
    approvers: Vec<(u64, u64)>,
    inserts: Vec<u64>,
}

impl Hooks<u32> for RecordingHooks {
    type Error = ();

    fn get(&mut self, _message_id: u64) -> Result<Option<(Message, u32)>, ()> {
        Ok(None)
    }

    fn insert(&mut self, message_id: u64, _msg: Message, _metadata: u32) -> Result<(), ()> {
        self.inserts.push(message_id);
        Ok(())
    }

    fn fetch_approvers(&mut self, _message_id: u64) -> Result<Option<Vec<u64>>, ()> {
        Ok(None)
    }

    fn insert_approver(&mut self, message_id: u64, approver: u64) -> Result<(), ()> {
        self.approvers.push((message_id, approver));
        Ok(())
    }

    fn update_approvers(&mut self, _message_id: u64, _approvers: &Vec<u64>) -> Result<(), ()> {
        Ok(())
    }
}

#[test]
fn write_through_reaches_the_hooks_exactly_once() {
    let mut t = Tangle::new(RecordingHooks { approvers: Vec::new(), inserts: Vec::new() });
    t.insert(10, Message::new(vec![7, 8]), 0);
    let hooks = t.hooks();
    assert_eq!(hooks.approvers, vec![(7, 10), (8, 10)]);
    assert_eq!(hooks.inserts, vec![10]);
    // a second insert of the same message writes nothing more
    t.insert(10, Message::new(vec![7, 8]), 0);
    let hooks = t.hooks();
    assert_eq!(hooks.approvers.len(), 2);
    assert_eq!(hooks.inserts.len(), 1);
}

/// A backing store that faithfully persists messages, metadata and edges.
struct MemHooks {
    messages: std::collections::HashMap<u64, (Message, u32)>,
    approvers: std::collections::HashMap<u64, Vec<u64>>,
}

impl Hooks<u32> for MemHooks {
    type Error = ();

    fn get(&mut self, message_id: u64) -> Result<Option<(Message, u32)>, ()> {
        Ok(self.messages.get(&message_id).map(|(m, t)| (m.clone(), *t)))
    }

    fn insert(&mut self, message_id: u64, msg: Message, metadata: u32) -> Result<(), ()> {
        self.messages.insert(message_id, (msg, metadata));
        Ok(())
    }

    fn fetch_approvers(&mut self, message_id: u64) -> Result<Option<Vec<u64>>, ()> {
        Ok(self.approvers.get(&message_id).cloned())
    }

    fn insert_approver(&mut self, message_id: u64, approver: u64) -> Result<(), ()> {
        self.approvers.entry(message_id).or_insert_with(Vec::new).push(approver);
        Ok(())
    }

    fn update_approvers(&mut self, message_id: u64, approvers: &Vec<u64>) -> Result<(), ()> {
        self.approvers.insert(message_id, approvers.clone());
        Ok(())
    }
}

#[test]
fn round_trip_through_a_faithful_store() {
    let mut t = Tangle::new(MemHooks {
        messages: std::collections::HashMap::new(),
        approvers: std::collections::HashMap::new(),
    });
    t.resize(2);
    t.insert(1, Message::new(vec![90, 91]), 77);
    // push enough new messages through to evict 1 from the cache
    for id in 2..8u64 {
        t.insert(id, Message::new(vec![]), 0);
    }
    // the message comes back from the store with the same content
    let back = t.get(1).unwrap();
    assert_eq!(back.parents().clone(), vec![90, 91]);
    assert_eq!(t.get_metadata(1), Some(77));
    // the edges come back from the store as well
    let children = t.get_children(90).unwrap();
    assert_eq!(children, vec![1]);
}

#[test]
fn contains_populates_the_cache_from_the_store() {
    let mut t = Tangle::new(MemHooks {
        messages: std::collections::HashMap::new(),
        approvers: std::collections::HashMap::new(),
    });
    t.insert(1, Message::new(vec![]), 5);
    t.clear();
    assert!(t.is_empty());
    // the store still knows the message, so contains finds it and caches it
    assert!(t.contains(1));
    assert_eq!(t.len(), 1);
    assert_eq!(t.get_metadata_maybe(1), Some(5));
}

/// A backing store whose reads always fail.
struct FailingHooks;

impl Hooks<u32> for FailingHooks {
    type Error = &'static str;

    fn get(&mut self, _message_id: u64) -> Result<Option<(Message, u32)>, &'static str> {
        Err("store down")
    }

    fn insert(&mut self, _message_id: u64, _msg: Message, _metadata: u32) -> Result<(), &'static str> {
        Err("store down")
    }

    fn fetch_approvers(&mut self, _message_id: u64) -> Result<Option<Vec<u64>>, &'static str> {
        Err("store down")
    }

    fn insert_approver(&mut self, _message_id: u64, _approver: u64) -> Result<(), &'static str> {
        Err("store down")
    }

    fn update_approvers(&mut self, _message_id: u64, _approvers: &Vec<u64>) -> Result<(), &'static str> {
        Err("store down")
    }
}

#[test]
fn hook_failures_are_not_fatal_and_do_not_set_exhaustive() {
    let mut t = Tangle::new(FailingHooks);
    // the in-memory view keeps working although every hook call fails
    assert!(t.insert(1, Message::new(vec![]), 3).is_some());
    assert!(t.contains(1));
    assert_eq!(t.get_metadata(1), Some(3));
    // a failed children fetch yields an empty list and stays retryable
    assert_eq!(t.get_children(1), Some(vec![]));
    assert_eq!(t.num_children(1), 0);
    // the vertex was not marked exhaustive, and a discovered edge is kept
    t.insert(2, Message::new(vec![1]), 0);
    let v = t.get_vertex(1).unwrap();
    assert_eq!(v.children().clone(), vec![2]);
}
