//! A sequence that grows and shrinks at both ends.
use vstd::prelude::*;

verus! {

/// A list of `T` with insertion and removal at the head and at the tail. Its
/// view is the sequence of its items from head to tail.
pub struct DoublyLinkedList<T: Copy> {
    items: Vec<T>,
}

impl<T: Copy> View for DoublyLinkedList<T> {
    type V = Seq<T>;

    closed spec fn view(&self) -> Seq<T> {
        self.items@
    }
}

impl<T: Copy> DoublyLinkedList<T> {
    /// The empty list.
    pub fn new() -> (l: DoublyLinkedList<T>)
        ensures
            l@ == Seq::<T>::empty(),
    {
        DoublyLinkedList { items: Vec::new() }
    }

    /// Puts `data` in front of the head.
    pub fn add_at_head(&mut self, data: T)
        ensures
            final(self)@ == seq![data] + old(self)@,
    {
        self.items.insert(0, data);
        assert(self@ =~= seq![data] + old(self)@);
    }

    /// Puts `data` after the tail.
    pub fn add_at_tail(&mut self, data: T)
        ensures
            final(self)@ == old(self)@.push(data),
    {
        self.items.push(data);
    }

    /// Takes the head off and returns it; `None`, with the list unchanged,
    /// when the list is empty.
    pub fn remove_head(&mut self) -> (r: Option<T>)
        ensures
            old(self)@.len() == 0 ==> r is None && final(self)@ == old(self)@,
            old(self)@.len() > 0 ==> r == Some(old(self)@[0]) && final(self)@ == old(self)@.drop_first(),
    {
        if self.items.len() == 0 {
            None
        } else {
            let data = self.items.remove(0);
            assert(self@ =~= old(self)@.drop_first());
            Some(data)
        }
    }

    /// Takes the tail off and returns it; `None`, with the list unchanged,
    /// when the list is empty.
    pub fn remove_tail(&mut self) -> (r: Option<T>)
        ensures
            old(self)@.len() == 0 ==> r is None && final(self)@ == old(self)@,
            old(self)@.len() > 0 ==> r == Some(old(self)@.last()) && final(self)@ == old(self)@.drop_last(),
    {
        let r = self.items.pop();
        proof {
            if old(self)@.len() > 0 {
                assert(self@ =~= old(self)@.drop_last());
            }
        }
        r
    }

    /// The head, if the list is not empty.
    pub fn head(&self) -> (r: Option<T>)
        ensures
            r == (if self@.len() == 0 { None } else { Some(self@[0]) }),
    {
        if self.items.len() == 0 {
            None
        } else {
            Some(self.items[0])
        }
    }

    /// The tail, if the list is not empty.
    pub fn tail(&self) -> (r: Option<T>)
        ensures
            r == (if self@.len() == 0 { None } else { Some(self@.last()) }),
    {
        let n = self.items.len();
        if n == 0 {
            None
        } else {
            Some(self.items[n - 1])
        }
    }
}

} // verus!
