//! A node: one payload and one link word.

use vstd::prelude::*;
use crate::link::{mix, unpack, NodeRef};

verus! {

/// One element of a list together with its packed link word.
///
/// Between a previous neighbor `p` and a next neighbor `n` the link word is
/// `pack(p, n)`. A node that stands alone has the link word zero.
pub struct Node<E> {
    pub prev_x_next: usize,
    pub element: E,
}

impl<E> Node<E> {
    /// A node with no neighbors.
    pub fn new(element: E) -> (node: Self)
        ensures
            node.prev_x_next == 0,
            node.element == element,
    {
        Node { prev_x_next: 0, element }
    }

    /// The neighbor on the far side of `other`, where `other` is one of this
    /// node's two neighbors.
    pub fn xor(&self, other: Option<NodeRef>) -> (r: Option<NodeRef>)
        ensures
            r == unpack(self.prev_x_next, other),
    {
        unpack(self.prev_x_next, other)
    }

    /// Mixes the address of `other` into the link word. This gives the node
    /// `other` as a neighbor on a side that was empty, and takes `other` away
    /// where it was a neighbor.
    pub fn xor_assign(&mut self, other: Option<NodeRef>)
        ensures
            final(self).prev_x_next == mix(old(self).prev_x_next, other),
            final(self).element == old(self).element,
    {
        self.prev_x_next = mix(self.prev_x_next, other);
    }

    /// Gives up the node for its payload.
    pub fn into_element(self) -> (element: E)
        ensures
            element == self.element,
    {
        self.element
    }
}

impl<E: Clone> Clone for Node<E> {
    /// A node with the same link word and a clone of the element.
    fn clone(&self) -> (node: Self)
        ensures
            node.prev_x_next == self.prev_x_next,
            cloned::<E>(self.element, node.element),
    {
        Node { prev_x_next: self.prev_x_next, element: self.element.clone() }
    }
}

} // verus!
