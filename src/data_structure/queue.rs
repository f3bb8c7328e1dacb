use std::collections::VecDeque;
use vstd::prelude::*;

verus! {

/// A first-in first-out queue.
pub struct Queue<T> {
    list: VecDeque<T>,
}

impl<T> Queue<T> {
    /// The items, from the oldest to the newest.
    pub closed spec fn view(&self) -> Seq<T> {
        self.list@
    }

    /// Creates an empty queue.
    pub fn new() -> (q: Self)
        ensures
            q@ == Seq::<T>::empty(),
    {
        Queue { list: VecDeque::new() }
    }

    /// Creates a queue that holds `s` alone.
    pub fn init(s: T) -> (q: Self)
        ensures
            q@ == seq![s],
    {
        let mut res = Queue { list: VecDeque::new() };
        res.enqueue(s);
        assert(res@ =~= seq![s]);
        res
    }

    /// Whether the queue holds no item.
    pub fn is_empty(&self) -> (r: bool)
        ensures
            r == (self@.len() == 0),
    {
        self.list.len() == 0
    }

    /// Number of items in the queue.
    pub fn len(&self) -> (r: usize)
        ensures
            r == self@.len(),
    {
        self.list.len()
    }

    /// Removes and returns the oldest item, if any.
    pub fn dequeue(&mut self) -> (r: Option<T>)
        ensures
            old(self)@.len() == 0 ==> r.is_none() && final(self)@ == old(self)@,
            old(self)@.len() > 0 ==> r == Some(old(self)@[0]) && final(self)@ == old(self)@.drop_first(),
    {
        self.list.pop_front()
    }

    /// Adds `element` as the newest item.
    pub fn enqueue(&mut self, element: T)
        ensures
            final(self)@ == old(self)@.push(element),
    {
        self.list.push_back(element)
    }
}

} // verus!
