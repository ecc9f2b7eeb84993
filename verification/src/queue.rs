//! The inbound queue: a bounded first-in-first-out buffer between draining
//! the socket and processing one message. When it is full the oldest entry
//! gives way, since newer network state is worth more than older.

use std::collections::VecDeque;
use vstd::prelude::*;

verus! {

/// A bounded queue of received messages.
pub struct Messages<T> {
    messages: VecDeque<T>,
    capacity: usize,
}

impl<T> View for Messages<T> {
    type V = Seq<T>;

    closed spec fn view(&self) -> Seq<T> {
        self.messages@
    }
}

/// `queue` after `message` was put at its end, the oldest entry giving way
/// where the queue already held `capacity` entries.
pub open spec fn pushed<T>(queue: Seq<T>, capacity: usize, message: T) -> Seq<T> {
    if queue.len() >= capacity {
        queue.skip(1).push(message)
    } else {
        queue.push(message)
    }
}

impl<T> Messages<T> {
    #[verifier::type_invariant]
    closed spec fn bounded(&self) -> bool {
        0 < self.capacity && self.messages@.len() <= self.capacity
    }

    /// The largest number of entries the queue holds at once.
    pub closed spec fn limit(&self) -> usize {
        self.capacity
    }

    /// An empty queue for up to `capacity` entries.
    pub fn new(capacity: usize) -> (queue: Self)
        requires
            capacity > 0,
        ensures
            queue@ == Seq::<T>::empty(),
            queue.limit() == capacity,
    {
        Messages { messages: VecDeque::new(), capacity }
    }

    /// Number of entries waiting.
    pub fn len(&self) -> (count: usize)
        ensures
            count == self@.len(),
            count <= self.limit(),
    {
        proof {
            use_type_invariant(self);
        }
        self.messages.len()
    }

    /// The capacity the queue was made with.
    pub fn capacity(&self) -> (capacity: usize)
        ensures
            capacity == self.limit(),
            capacity > 0,
    {
        proof {
            use_type_invariant(self);
        }
        self.capacity
    }

    /// Puts `message` at the end. Where the queue is full the oldest entry
    /// is evicted and handed back; the newest is never dropped.
    pub fn push(&mut self, message: T) -> (evicted: Option<T>)
        ensures
            final(self).limit() == old(self).limit(),
            final(self)@ == pushed(old(self)@, old(self).limit(), message),
            final(self)@.len() <= final(self).limit(),
            final(self)@.last() == message,
            evicted == if old(self)@.len() >= old(self).limit() {
                Some(old(self)@[0])
            } else {
                None
            },
    {
        proof {
            use_type_invariant(&*self);
        }
        let mut waiting: VecDeque<T> = VecDeque::new();
        std::mem::swap(&mut self.messages, &mut waiting);
        let evicted = if waiting.len() >= self.capacity {
            waiting.pop_front()
        } else {
            None
        };
        waiting.push_back(message);
        std::mem::swap(&mut self.messages, &mut waiting);
        evicted
    }

    /// Takes the oldest entry, if there is one.
    pub fn pop(&mut self) -> (message: Option<T>)
        ensures
            final(self).limit() == old(self).limit(),
            old(self)@.len() == 0 ==> message is None && final(self)@ == old(self)@,
            old(self)@.len() > 0 ==> message == Some(old(self)@[0]) && final(self)@ == old(
                self,
            )@.skip(1),
    {
        proof {
            use_type_invariant(&*self);
        }
        let mut waiting: VecDeque<T> = VecDeque::new();
        std::mem::swap(&mut self.messages, &mut waiting);
        let message = waiting.pop_front();
        std::mem::swap(&mut self.messages, &mut waiting);
        message
    }
}

} // verus!
