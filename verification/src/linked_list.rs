//! A small singly linked list with a borrowing iterator, kept apart from the
//! diff engine: the two share no code.

use vstd::prelude::*;

verus! {

/// One node: a value and the link to the rest of the list.
#[derive(Debug)]
pub struct LinkedListNode<T> {
    pub next: Option<Box<LinkedListNode<T>>>,
    pub val: T,
}

/// The values a node chain holds, front first.
pub open spec fn node_seq<T>(node: LinkedListNode<T>) -> Seq<T>
    decreases node,
{
    match node.next {
        Option::None => seq![node.val],
        Option::Some(rest) => seq![node.val] + node_seq(*rest),
    }
}

/// The values a possibly empty chain holds.
pub open spec fn chain_seq<T>(head: Option<Box<LinkedListNode<T>>>) -> Seq<T> {
    match head {
        Option::None => Seq::empty(),
        Option::Some(node) => node_seq(*node),
    }
}

impl<T> LinkedListNode<T> {
    /// A node holding `val` with no successor.
    pub fn new(val: T) -> (r: LinkedListNode<T>)
        ensures
            node_seq(r) == seq![val],
    {
        let r = LinkedListNode { val, next: Option::None };
        proof {
            assert(node_seq(r) == seq![r.val]);
        }
        r
    }
}

/// A singly linked list that prepends on `add` and knows its length.
#[derive(Debug)]
pub struct LinkedList<T> {
    pub head: Option<Box<LinkedListNode<T>>>,
    pub length: usize,
}

impl<T> LinkedList<T> {
    /// The values the list holds, front (most recently added) first.
    pub open spec fn values(&self) -> Seq<T> {
        chain_seq(self.head)
    }

    /// The stored length agrees with the values held.
    pub open spec fn wf(&self) -> bool {
        self.length == self.values().len()
    }

    /// The empty list.
    pub fn new() -> (r: LinkedList<T>)
        ensures
            r.values() == Seq::<T>::empty(),
            r.wf(),
    {
        LinkedList { head: Option::None, length: 0 }
    }

    /// Prepends `val` to the front of the list.
    pub fn add(&mut self, val: T)
        requires
            old(self).wf(),
            old(self).length < usize::MAX,
        ensures
            final(self).values() == seq![val] + old(self).values(),
            final(self).wf(),
    {
        let ghost prior = self.values();
        let mut new_node = Box::new(LinkedListNode::new(val));
        core::mem::swap(&mut new_node.next, &mut self.head);
        proof {
            assert(node_seq(*new_node) == seq![new_node.val] + prior);
        }
        self.head = Option::Some(new_node);
        self.length = self.length + 1;
    }

    /// An iterator borrowing the list, front first.
    pub fn iter<'a>(&'a self) -> (r: LinkedListIterator<'a, T>)
        ensures
            r.remaining() == self.values(),
    {
        let r = LinkedListIterator {
            curr_node: match &self.head {
                Option::Some(node) => Option::Some(&**node),
                Option::None => Option::None,
            },
        };
        r
    }
}

/// A borrowing iterator over a linked list.
pub struct LinkedListIterator<'a, T> {
    pub curr_node: Option<&'a LinkedListNode<T>>,
}

impl<'a, T> LinkedListIterator<'a, T> {
    /// The values not yet handed out, front first.
    pub open spec fn remaining(&self) -> Seq<T> {
        match self.curr_node {
            Option::None => Seq::empty(),
            Option::Some(node) => node_seq(*node),
        }
    }

    /// Hands out the next value, or nothing once the list is exhausted.
    pub fn next(&mut self) -> (r: Option<&'a T>)
        ensures
            (old(self).remaining().len() == 0 ==> (r is None && final(self).remaining()
                == old(self).remaining())),
            (old(self).remaining().len() > 0 ==> (r matches Some(v) && *v == old(
                self,
            ).remaining()[0] && final(self).remaining() == old(self).remaining().drop_first())),
    {
        match self.curr_node {
            Option::None => Option::None,
            Option::Some(node) => {
                let r = Option::Some(&node.val);
                self.curr_node = match &node.next {
                    Option::Some(rest) => Option::Some(&**rest),
                    Option::None => Option::None,
                };
                proof {
                    assert(old(self).remaining() == node_seq(*node));
                    assert(node_seq(*node)[0] == node.val);
                    assert(self.remaining() =~= node_seq(*node).drop_first());
                }
                r
            },
        }
    }
}

} // verus!
