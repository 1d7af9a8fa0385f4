use std::collections::VecDeque;
use vstd::prelude::*;

verus! {

/// Double-ended sequence of items with constant-time access at both ends.
pub trait Deque<T>: Sized {
    /// The items in order from front to back.
    spec fn items(&self) -> Seq<T>;

    /// Returns the number of items.
    fn len(&self) -> (r: usize)
        ensures
            r == self.items().len(),
    ;

    /// Removes and returns the first item, or `None` if there is none.
    fn pop_front(&mut self) -> (r: Option<T>)
        ensures
            old(self).items().len() == 0 ==> r is None && final(self).items() == old(self).items(),
            old(self).items().len() > 0 ==> r == Some(old(self).items().first())
                && final(self).items() == old(self).items().drop_first(),
    ;

    /// Removes and returns the last item, or `None` if there is none.
    fn pop_back(&mut self) -> (r: Option<T>)
        ensures
            old(self).items().len() == 0 ==> r is None && final(self).items() == old(self).items(),
            old(self).items().len() > 0 ==> r == Some(old(self).items().last())
                && final(self).items() == old(self).items().drop_last(),
    ;

    /// Puts `value` before the first item.
    fn push_front(&mut self, value: T)
        ensures
            final(self).items() == seq![value] + old(self).items(),
    ;

    /// Puts `value` after the last item.
    fn push_back(&mut self, value: T)
        ensures
            final(self).items() == old(self).items().push(value),
    ;

    /// Whether there are no items.
    fn is_empty(&self) -> (r: bool)
        ensures
            r == (self.items().len() == 0),
    {
        self.len() == 0
    }
}

impl<T> Deque<T> for VecDeque<T> {
    open spec fn items(&self) -> Seq<T> {
        self@
    }

    fn len(&self) -> (r: usize) {
        VecDeque::len(self)
    }

    fn pop_front(&mut self) -> (r: Option<T>) {
        VecDeque::pop_front(self)
    }

    fn pop_back(&mut self) -> (r: Option<T>) {
        VecDeque::pop_back(self)
    }

    fn push_front(&mut self, value: T) {
        VecDeque::push_front(self, value)
    }

    fn push_back(&mut self, value: T) {
        VecDeque::push_back(self, value)
    }
}

} // verus!
