//! A variant of the sequenced queue whose `next` hands out the item alone.
use vstd::prelude::*;

use crate::sequenced_queue::QueueView;

verus! {

/// Queue which returns only _sequenced events_.
/// If the event with the next id is missing it waits for it forever.
#[derive(Debug)]
pub struct SequencedQueue<T> {
    inner: crate::sequenced_queue::SequencedQueue<T>,
}

impl<T> View for SequencedQueue<T> {
    type V = QueueView<T>;

    closed spec fn view(&self) -> QueueView<T> {
        self.inner@
    }
}

impl<T> SequencedQueue<T> {
    pub fn new(total_items: u32) -> (q: Self)
        ensures
            q@ == QueueView::<T>::init(total_items),
            q@.counter_in_range(),
    {
        SequencedQueue { inner: crate::sequenced_queue::SequencedQueue::new(total_items) }
    }

    /// Id of the next item to hand out.
    pub fn current(&self) -> (r: u32)
        ensures
            r == self@.current,
            self@.counter_in_range(),
    {
        self.inner.current()
    }

    /// Have we iterated over all _total_items_ events
    pub fn finished(&self) -> (r: bool)
        ensures
            r == self@.finished(),
            self@.counter_in_range(),
    {
        self.inner.finished()
    }

    /// Insert event into queue (not necessarily a sequential event)
    pub fn insert(&mut self, id: u32, value: T)
        ensures
            final(self)@ == old(self)@.insert(id, value),
            final(self)@.counter_in_range(),
    {
        self.inner.insert(id, value);
    }

    /// If there is next sequenced event then return it
    pub fn next(&mut self) -> (r: Option<T>)
        requires
            !old(self)@.next_overflows(),
        ensures
            final(self)@ == old(self)@.step().0,
            final(self)@.counter_in_range(),
            r == match old(self)@.step().1 {
                Some(item) => Some(item.1),
                None => None,
            },
    {
        match self.inner.next() {
            Some((_id, value)) => Some(value),
            None => None,
        }
    }
}

} // verus!
