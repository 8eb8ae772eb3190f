//! A list that is taken from the front.

use vstd::prelude::*;

verus! {

#[derive(Debug)]
pub struct Queue<T> {
    list: Vec<T>,
    next: usize,
}

impl<T> Queue<T> {
    /// What is left to take.
    pub closed spec fn rest(self) -> Seq<T> {
        if self.next <= self.list@.len() {
            self.list@.skip(self.next as int)
        } else {
            Seq::empty()
        }
    }

    pub fn new(list: Vec<T>) -> (queue: Queue<T>)
        ensures
            queue.rest() == list@,
    {
        let queue = Queue { list, next: 0 };
        assert(queue.rest() =~= list@);
        queue
    }

    pub fn first(&self) -> (first: Option<&T>)
        ensures
            (match first {
                Some(first) => self.rest().len() > 0 && *first == self.rest()[0],
                None => self.rest().len() == 0,
            }),
    {
        if self.next < self.list.len() {
            Some(&self.list[self.next])
        } else {
            None
        }
    }

    /// Takes the first off.
    pub fn advance(&mut self)
        requires
            old(self).rest().len() > 0,
        ensures
            final(self).rest() == old(self).rest().drop_first(),
    {
        assert(self.next < self.list.len());
        self.next = self.next + 1;
        assert(self.rest() =~= old(self).rest().drop_first());
    }
}

} // verus!
