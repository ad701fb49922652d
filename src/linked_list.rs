use vstd::prelude::*;

use std::collections::VecDeque;

verus! {

/// A sequence that grows at both ends and shrinks at the front.
pub struct LinkedList<T> {
    items: VecDeque<T>,
    pub length: usize,
}

impl<T> View for LinkedList<T> {
    type V = Seq<T>;

    closed spec fn view(&self) -> Seq<T> {
        self.items@
    }
}

impl<T> LinkedList<T> {
    /// `length` counts the elements.
    pub closed spec fn well_formed(&self) -> bool {
        self.length == self.items@.len()
    }

    /// An empty list.
    pub fn new() -> (r: Self)
        ensures
            r.well_formed(),
            r@ == Seq::<T>::empty(),
    {
        LinkedList { items: VecDeque::new(), length: 0 }
    }

    /// The number of elements.
    pub fn len(&self) -> (r: usize)
        requires
            self.well_formed(),
        ensures
            r == self@.len(),
    {
        self.length
    }

    /// Adds `value` at the back.
    pub fn append(&mut self, value: T)
        requires
            old(self).well_formed(),
            old(self)@.len() < usize::MAX,
        ensures
            final(self).well_formed(),
            final(self)@ == old(self)@.push(value),
    {
        self.items.push_back(value);
        self.length += 1;
    }

    /// Adds `value` at the front.
    pub fn prepend(&mut self, value: T)
        requires
            old(self).well_formed(),
            old(self)@.len() < usize::MAX,
        ensures
            final(self).well_formed(),
            final(self)@ == seq![value] + old(self)@,
    {
        self.items.push_front(value);
        self.length += 1;
    }

    /// Takes the front element out, if any.
    pub fn pop(&mut self) -> (r: Option<T>)
        requires
            old(self).well_formed(),
        ensures
            final(self).well_formed(),
            old(self)@.len() == 0 ==> r.is_none() && final(self)@ == old(self)@,
            old(self)@.len() > 0 ==> r == Some(old(self)@[0]) && final(self)@ == old(self)@.drop_first(),
    {
        let r = self.items.pop_front();
        if r.is_some() {
            self.length -= 1;
        }
        r
    }

    /// A traversal from front to back.
    pub fn iter(&self) -> (r: Iter<'_, T>)
        ensures
            r@ == self@,
            r.valid(),
    {
        Iter::new(&self.items)
    }
}

/// A traversal of a list's elements from front to back.
pub struct Iter<'a, T> {
    items: &'a VecDeque<T>,
    next: usize,
}

impl<'a, T> View for Iter<'a, T> {
    type V = Seq<T>;

    closed spec fn view(&self) -> Seq<T> {
        self.items@.skip(self.next as int)
    }
}

impl<'a, T> Iter<'a, T> {
    /// The position does not pass the end.
    pub closed spec fn valid(&self) -> bool {
        self.next <= self.items@.len()
    }

    fn new(items: &'a VecDeque<T>) -> (r: Self)
        ensures
            r@ == items@,
            r.valid(),
    {
        let r = Iter { items, next: 0 };
        proof {
            assert(r@ =~= items@);
        }
        r
    }

    /// The next element, or `None` once all have come.
    pub fn next(&mut self) -> (r: Option<&'a T>)
        requires
            old(self).valid(),
        ensures
            final(self).valid(),
            old(self)@.len() == 0 ==> r.is_none() && final(self)@ == old(self)@,
            old(self)@.len() > 0 ==> r == Some(&old(self)@[0]) && final(self)@ == old(self)@.drop_first(),
    {
        if self.next < self.items.len() {
            let r = &self.items[self.next];
            self.next += 1;
            proof {
                assert(self@ =~= old(self)@.drop_first());
            }
            Some(r)
        } else {
            None
        }
    }
}

} // verus!
