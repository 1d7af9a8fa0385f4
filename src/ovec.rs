use vstd::prelude::*;

verus! {

/// Stack of items with a capacity fixed at construction: pushing never grows it beyond that.
pub struct OVec<T> {
    items: Vec<T>,
    capacity: usize,
}

impl<T> View for OVec<T> {
    type V = Seq<T>;

    /// The items from the first pushed to the last.
    closed spec fn view(&self) -> Seq<T> {
        self.items@
    }
}

impl<T> OVec<T> {
    /// Largest number of items the stack holds.
    pub closed spec fn spec_capacity(&self) -> nat {
        self.capacity as nat
    }

    /// New empty stack that holds at most `capacity` items.
    pub fn new(capacity: usize) -> (r: Self)
        ensures
            r@ == Seq::<T>::empty(),
            r.spec_capacity() == capacity,
    {
        OVec { items: Vec::new(), capacity }
    }

    /// Largest number of items.
    pub fn capacity(&self) -> (r: usize)
        ensures
            r == self.spec_capacity(),
    {
        self.capacity
    }

    /// Number of items.
    pub fn len(&self) -> (r: usize)
        ensures
            r == self@.len(),
    {
        self.items.len()
    }

    /// Whether the stack holds no item.
    pub fn is_empty(&self) -> (r: bool)
        ensures
            r == (self@.len() == 0),
    {
        self.len() == 0
    }

    /// Whether the stack holds as many items as its capacity, so that no more can be pushed.
    pub fn is_full(&self) -> (r: bool)
        ensures
            r == (self@.len() >= self.spec_capacity()),
    {
        self.len() >= self.capacity
    }

    /// The items from the first pushed to the last.
    pub fn as_slice(&self) -> (r: &[T])
        ensures
            r@ == self@,
    {
        self.items.as_slice()
    }

    /// Puts `item` on top. The stack must not be full.
    pub fn push(&mut self, item: T)
        requires
            old(self)@.len() < old(self).spec_capacity(),
        ensures
            final(self)@ == old(self)@.push(item),
            final(self).spec_capacity() == old(self).spec_capacity(),
    {
        self.items.push(item);
    }

    /// Removes the top item and returns it, or `None` where the stack is empty.
    pub fn pop(&mut self) -> (r: Option<T>)
        ensures
            old(self)@.len() == 0 ==> r is None && final(self)@ == old(self)@,
            old(self)@.len() > 0 ==> r == Some(old(self)@.last()) && final(self)@
                == old(self)@.drop_last(),
            final(self).spec_capacity() == old(self).spec_capacity(),
    {
        self.items.pop()
    }
}

} // verus!
