//! A singly linked list built from a plain recursive enum.
use vstd::prelude::*;

verus! {

/// A list is either empty, or an item followed by the rest of the list.
#[derive(Debug, PartialEq)]
pub enum List<T> where T: Copy + Clone + PartialEq {
    Empty,
    NotEmpty(T, Box<List<T>>),
}

impl<T> List<T> where T: Copy + Clone + PartialEq {
    /// The items of the list, from its head.
    pub open spec fn spec_items(self) -> Seq<T>
        decreases self,
    {
        match self {
            List::Empty => Seq::empty(),
            List::NotEmpty(v, next) => seq![v] + next.spec_items(),
        }
    }
}

impl<T> View for List<T> where T: Copy + Clone + PartialEq {
    type V = Seq<T>;

    open spec fn view(&self) -> Seq<T> {
        self.spec_items()
    }
}

impl<T> List<T> where T: Copy + Clone + PartialEq {
    /// Construct an empty list
    pub fn new() -> (l: List<T>)
        ensures
            l@ == Seq::<T>::empty(),
    {
        List::Empty
    }

    /// Push to the end of the list; popped first
    pub fn push_last(&mut self, item: T)
        ensures
            final(self)@ == old(self)@.push(item),
        decreases old(self)@.len(),
    {
        match self {
            List::Empty => {
                *self = List::NotEmpty(item, Box::new(List::Empty));
                assert(self@ =~= seq![item]);
            },
            List::NotEmpty(v, next) => {
                let ghost n0 = next.spec_items();
                let ghost v0 = *v;
                next.push_last(item);
                assert(seq![v0] + n0.push(item) =~= (seq![v0] + n0).push(item));
            },
        }
    }

    /// Push to the head of the list; popped last
    pub fn push_first(&mut self, item: T)
        ensures
            final(self)@ == seq![item] + old(self)@,
    {
        if let List::Empty = self {
            self.push_last(item);
            assert(seq![item] + Seq::<T>::empty() =~= Seq::<T>::empty().push(item));
        } else {
            // move the current head aside, while self is ready to hold the new head
            let mut old_head = List::Empty;
            std::mem::swap(self, &mut old_head);
            // the new head points to the old one
            *self = List::NotEmpty(item, Box::new(old_head));
        }
    }

    /// Pop from the end of the list
    pub fn pop_last(&mut self) -> (r: Option<T>)
        ensures
            old(self)@.len() == 0 ==> r is None && final(self)@ == old(self)@,
            old(self)@.len() > 0 ==> r == Some(old(self)@.last()) && final(self)@ == old(self)@.drop_last(),
        decreases old(self)@.len(),
    {
        match self {
            List::Empty => None,
            List::NotEmpty(val, next) => {
                let ghost n0 = next.spec_items();
                let ghost v0 = *val;
                let last = match **next {
                    List::Empty => true,
                    List::NotEmpty(_, _) => false,
                };
                if last {
                    // the last node, since next is empty: move its value out
                    let item = *val;
                    assert(n0.len() == 0);
                    assert(seq![v0] + n0 =~= seq![v0]);
                    *self = List::Empty;
                    Some(item)
                } else {
                    // not the last, move to the next
                    let r = next.pop_last();
                    assert(seq![v0] + n0.drop_last() =~= (seq![v0] + n0).drop_last());
                    r
                }
            },
        }
    }

    /// Pop for the head of the list
    pub fn pop_first(&mut self) -> (r: Option<T>)
        ensures
            old(self)@.len() == 0 ==> r is None && final(self)@ == old(self)@,
            old(self)@.len() > 0 ==> r == Some(old(self)@[0]) && final(self)@ == old(self)@.drop_first(),
    {
        match self {
            List::Empty => None,
            List::NotEmpty(item, next) => {
                let val = *item;
                let ghost n0 = next.spec_items();
                // a new empty head, into which the next node moves
                let mut new_head = Box::new(List::Empty);
                std::mem::swap(next, &mut new_head);
                // self takes ownership of the new head
                *self = *new_head;
                assert((seq![val] + n0).drop_first() =~= n0);
                Some(val)
            },
        }
    }

    /// Iterate by reference, from the head.
    pub fn iter(&self) -> (it: ListIterByRef<'_, T>)
        ensures
            it.cursor@ == self@,
    {
        ListIterByRef { cursor: self }
    }

    /// The next item as the list is consumed by iteration: its last one.
    pub fn next(&mut self) -> (r: Option<T>)
        ensures
            old(self)@.len() == 0 ==> r is None && final(self)@ == old(self)@,
            old(self)@.len() > 0 ==> r == Some(old(self)@.last()) && final(self)@ == old(self)@.drop_last(),
    {
        self.pop_last()
    }

    /// The list itself, consumed by iteration through `next`.
    pub fn into_iter(self) -> (l: List<T>)
        ensures
            l@ == self@,
    {
        self
    }

    /// Builds a list holding the items of `v` in the same order.
    pub fn from_iter(v: Vec<T>) -> (l: List<T>)
        ensures
            l@ == v@,
    {
        let mut list = List::Empty;
        let mut k: usize = 0;
        while k < v.len()
            invariant
                k <= v@.len(),
                list@ == v@.take(k as int),
            decreases v@.len() - k,
        {
            list.push_last(v[k]);
            assert(v@.take(k as int).push(v@[k as int]) =~= v@.take(k + 1));
            k = k + 1;
        }
        assert(v@.take(v@.len() as int) =~= v@);
        list
    }
}

/// List by reference iterator
pub struct ListIterByRef<'a, T> where T: Copy + Clone + PartialEq {
    pub cursor: &'a List<T>,
}

impl<'a, T> ListIterByRef<'a, T> where T: Copy + Clone + PartialEq {
    /// The next item by reference, moving the cursor past it.
    pub fn next(&mut self) -> (r: Option<&'a T>)
        ensures
            old(self).cursor@.len() == 0 ==> r is None && final(self).cursor@ == old(self).cursor@,
            old(self).cursor@.len() > 0 ==> r == Some(&old(self).cursor@[0])
                && final(self).cursor@ == old(self).cursor@.drop_first(),
    {
        match self.cursor {
            List::Empty => None,
            List::NotEmpty(value, next) => {
                let ghost c0 = self.cursor@;
                self.cursor = next;
                assert(c0.drop_first() =~= next.spec_items());
                Some(value)
            },
        }
    }
}

} // verus!
