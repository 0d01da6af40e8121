//! Message identifiers and the allocator that hands them out.

use vstd::prelude::*;

verus! {

/// A new-type wrapper around message ids.
#[derive(Debug, Default, Clone, Copy, Hash, PartialEq, Eq, PartialOrd, Ord)]
pub struct MessageId(pub usize);

impl From<usize> for MessageId {
    fn from(value: usize) -> (id: MessageId) {
        MessageId(value)
    }
}

impl vstd::std_specs::convert::FromSpecImpl<usize> for MessageId {
    open spec fn obeys_from_spec() -> bool {
        true
    }

    open spec fn from_spec(value: usize) -> MessageId {
        MessageId(value)
    }
}

/// Allocator of message ids: a counter that only ever moves forward.
///
/// Every id it hands out is the number of ids handed out before it, so two
/// ids taken from one counter are never equal and a later id is always the
/// larger one.
#[derive(Debug, Default, PartialEq, Eq, PartialOrd, Ord)]
pub struct MessageIdCounter {
    next: usize,
}

impl View for MessageIdCounter {
    type V = nat;

    /// The number of ids handed out so far, which is also the next id.
    closed spec fn view(&self) -> nat {
        self.next as nat
    }
}

impl MessageIdCounter {
    /// A counter that has handed out nothing yet.
    pub fn new() -> (counter: MessageIdCounter)
        ensures
            counter@ == 0,
    {
        MessageIdCounter { next: 0 }
    }

    /// The id that the next call of `next_id` returns.
    pub fn peek(&self) -> (next: usize)
        ensures
            next == self@,
    {
        self.next
    }

    /// How many more ids the counter can hand out.
    pub fn remaining(&self) -> (left: usize)
        ensures
            left == usize::MAX - self@,
    {
        usize::MAX - self.next
    }

    /// Hands out the next id and moves the counter past it.
    pub fn next_id(&mut self) -> (id: MessageId)
        requires
            old(self)@ < usize::MAX,
        ensures
            id.0 == old(self)@,
            final(self)@ == old(self)@ + 1,
    {
        let id = MessageId(self.next);
        self.next = self.next + 1;
        id
    }
}

} // verus!
