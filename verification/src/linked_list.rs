//! A singly linked list built from boxed nodes, abstracted as a sequence
//! whose first element is the front of the list.

use vstd::prelude::*;

verus! {

struct Node<T> {
    data: T,
    next: Option<Box<Node<T>>>,
}

impl<T> Node<T> {
    /// The elements from this node to the end of the chain.
    spec fn elems(self) -> Seq<T>
        decreases self,
    {
        match self.next {
            None => seq![self.data],
            Some(rest) => seq![self.data] + rest.elems(),
        }
    }
}

/// Elements hanging off an optional chain head.
spec fn link_elems<T>(link: Option<Box<Node<T>>>) -> Seq<T> {
    match link {
        None => Seq::empty(),
        Some(node) => node.elems(),
    }
}

/// Singly linked list with O(1) front operations.
pub struct LinkedList<T> {
    head: Option<Box<Node<T>>>,
    size: usize,
}

impl<T> View for LinkedList<T> {
    type V = Seq<T>;

    closed spec fn view(&self) -> Seq<T> {
        link_elems(self.head)
    }
}

impl<T> LinkedList<T> {
    #[verifier::type_invariant]
    spec fn wf(self) -> bool {
        self.size == link_elems(self.head).len()
    }

    /// An empty list.
    pub fn new() -> (r: LinkedList<T>)
        ensures
            r@ == Seq::<T>::empty(),
    {
        LinkedList { head: None, size: 0 }
    }

    /// Put `data` at the front.
    pub fn push_front(&mut self, data: T)
        requires
            old(self)@.len() < usize::MAX,
        ensures
            final(self)@ == seq![data] + old(self)@,
    {
        proof {
            use_type_invariant(&*self);
        }
        let mut tmp = LinkedList { head: None, size: 0 };
        core::mem::swap(self, &mut tmp);
        *self = LinkedList {
            head: Some(Box::new(Node { data, next: tmp.head })),
            size: tmp.size + 1,
        };
    }

    /// Take the front element out, if there is one.
    pub fn pop_front(&mut self) -> (r: Option<T>)
        ensures
            old(self)@.len() == 0 ==> r is None && final(self)@ == old(self)@,
            old(self)@.len() > 0 ==> r == Some(old(self)@[0]) && final(self)@ == old(
                self,
            )@.drop_first(),
    {
        proof {
            use_type_invariant(&*self);
        }
        let mut tmp = LinkedList { head: None, size: 0 };
        core::mem::swap(self, &mut tmp);
        match tmp.head {
            None => None,
            Some(node) => {
                let inner = *node;
                *self = LinkedList { head: inner.next, size: tmp.size - 1 };
                proof {
                    assert(final(self)@ =~= old(self)@.drop_first());
                }
                Some(inner.data)
            },
        }
    }

    /// Borrow the front element, if there is one.
    pub fn peek(&self) -> (r: Option<&T>)
        ensures
            self@.len() == 0 ==> r is None,
            self@.len() > 0 ==> (r matches Some(x) && *x == self@[0]),
    {
        match &self.head {
            None => None,
            Some(node) => Some(&node.data),
        }
    }

    /// How many elements the list holds.
    pub fn len(&self) -> (r: usize)
        ensures
            r == self@.len(),
    {
        proof {
            use_type_invariant(self);
        }
        self.size
    }

    /// Is the list empty?
    pub fn is_empty(&self) -> (r: bool)
        ensures
            r == (self@.len() == 0),
    {
        proof {
            use_type_invariant(self);
        }
        self.size == 0
    }

    /// Walk the list front to back.
    pub fn iter(&self) -> (r: LinkedListIter<'_, T>)
        ensures
            r.remaining() == self@,
    {
        LinkedListIter {
            current: match &self.head {
                None => None,
                Some(node) => Some(&**node),
            },
        }
    }
}

/// A cursor over a [`LinkedList`], yielding references front to back.
pub struct LinkedListIter<'a, T> {
    current: Option<&'a Node<T>>,
}

impl<'a, T> LinkedListIter<'a, T> {
    /// The elements not yet yielded.
    pub closed spec fn remaining(self) -> Seq<T> {
        match self.current {
            None => Seq::empty(),
            Some(node) => node.elems(),
        }
    }

    /// Yield the next element, or `None` at the end.
    pub fn next(&mut self) -> (r: Option<&'a T>)
        ensures
            old(self).remaining().len() == 0 ==> r is None && final(self).remaining() == old(
                self,
            ).remaining(),
            old(self).remaining().len() > 0 ==> (r matches Some(x) && *x == old(
                self,
            ).remaining()[0]) && final(self).remaining() == old(self).remaining().drop_first(),
    {
        match self.current {
            None => None,
            Some(node) => {
                self.current = match &node.next {
                    None => None,
                    Some(next_node) => Some(&**next_node),
                };
                proof {
                    assert(final(self).remaining() =~= old(self).remaining().drop_first());
                }
                Some(&node.data)
            },
        }
    }
}

} // verus!
