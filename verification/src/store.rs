//! The node store: the slots in which a list keeps its nodes.

use vstd::prelude::*;
use crate::link::{mix, NodeRef};
use crate::node::Node;

verus! {

/// Owns the nodes of one list. A node's address is the position of its slot,
/// counted from one, so that no node has the reserved address zero. A slot that
/// a node has left is handed out again before the store grows.
///
/// The store is seen as a finite map from the addresses in use to the nodes
/// that stand there.
pub struct NodeStore<E> {
    slots: Vec<Option<Node<E>>>,
    free: Vec<usize>,
}

impl<E> View for NodeStore<E> {
    type V = Map<NodeRef, Node<E>>;

    closed spec fn view(&self) -> Map<NodeRef, Node<E>> {
        Map::new(
            |r: NodeRef| self.occupied(r),
            |r: NodeRef| self.slots@[r.addr - 1].unwrap(),
        )
    }
}

impl<E> NodeStore<E> {
    spec fn occupied(&self, r: NodeRef) -> bool {
        1 <= r.addr <= self.slots@.len() && self.slots@[r.addr - 1] is Some
    }

    /// Every slot on the free stack is in range and empty, none is listed
    /// twice, and the slots are exactly the nodes held plus the free ones.
    /// Every store is well formed at all times.
    #[verifier::type_invariant]
    pub closed spec fn well_formed(&self) -> bool {
        &&& forall|i: int|
            0 <= i < self.free@.len() ==> (#[trigger] self.free@[i]) < self.slots@.len()
                && self.slots@[self.free@[i] as int] is None
        &&& forall|i: int, j: int|
            0 <= i < j < self.free@.len() ==> self.free@[i] != self.free@[j]
        &&& self@.dom().finite()
        &&& self@.dom().len() + self.free@.len() == self.slots@.len()
    }

    /// A held address is never the reserved zero, and no more nodes are held
    /// than a machine word can count.
    pub proof fn lemma_held(&self, r: NodeRef)
        requires
            self.well_formed(),
        ensures
            self@.dom().contains(r) ==> r.valid(),
            self@.dom().finite(),
            self@.dom().len() <= usize::MAX,
    {
        assert(self.slots@.len() == self.slots.len());
    }

    /// A store that holds no node.
    pub fn new() -> (store: Self)
        ensures
            store.well_formed(),
            store@ == Map::<NodeRef, Node<E>>::empty(),
    {
        let slots: Vec<Option<Node<E>>> = Vec::new();
        let free: Vec<usize> = Vec::new();
        proof {
            let empty = NodeStore { slots, free };
            assert(empty@ =~= Map::<NodeRef, Node<E>>::empty());
        }
        NodeStore { slots, free }
    }

    /// Takes the whole store out and leaves one that holds nothing in its
    /// place.
    fn take(&mut self) -> (all: Self)
        ensures
            all == *old(self),
            final(self)@ == Map::<NodeRef, Node<E>>::empty(),
    {
        let mut all = Self::new();
        core::mem::swap(self, &mut all);
        all
    }

    /// Takes a node in and says where it stands: at an address that was not in
    /// use, with every other node left where it was.
    pub fn insert(&mut self, node: Node<E>) -> (r: NodeRef)
        ensures
            final(self).well_formed(),
            r.valid(),
            !old(self)@.dom().contains(r),
            final(self)@ == old(self)@.insert(r, node),
    {
        proof {
            use_type_invariant(&*self);
        }
        let NodeStore { mut slots, mut free } = self.take();
        let r = match free.pop() {
            Some(idx) => {
                assert(idx < slots.len());
                slots[idx] = Some(node);
                NodeRef { addr: idx + 1 }
            },
            None => {
                slots.push(Some(node));
                NodeRef { addr: slots.len() }
            },
        };
        proof {
            let after = NodeStore { slots, free };
            assert(after@ =~= old(self)@.insert(r, node));
        }
        *self = NodeStore { slots, free };
        r
    }

    /// Hands out the node at `r`, if one stands there, and frees its address.
    pub fn remove(&mut self, r: NodeRef) -> (node: Option<Node<E>>)
        ensures
            final(self).well_formed(),
            node == (if old(self)@.dom().contains(r) {
                Some(old(self)@[r])
            } else {
                None
            }),
            final(self)@ == old(self)@.remove(r),
    {
        proof {
            use_type_invariant(&*self);
        }
        if r.addr == 0 || r.addr > self.slots.len() {
            return None;
        }
        let NodeStore { mut slots, mut free } = self.take();
        let idx = r.addr - 1;
        let node = slots[idx].take();
        if node.is_some() {
            free.push(idx);
        }
        proof {
            let after = NodeStore { slots, free };
            assert(after@ =~= old(self)@.remove(r));
        }
        *self = NodeStore { slots, free };
        node
    }

    /// The node at `r`, if one stands there.
    pub fn get(&self, r: NodeRef) -> (node: Option<&Node<E>>)
        ensures
            node == (if self@.dom().contains(r) {
                Some(&self@[r])
            } else {
                None
            }),
    {
        if r.addr == 0 || r.addr > self.slots.len() {
            None
        } else {
            match &self.slots[r.addr - 1] {
                Some(node) => Some(node),
                None => None,
            }
        }
    }

    /// Mixes the address of `other` into the link word of the node at `r`, if
    /// one stands there.
    pub fn xor_link(&mut self, r: NodeRef, other: Option<NodeRef>)
        ensures
            final(self).well_formed(),
            final(self)@ == (if old(self)@.dom().contains(r) {
                old(self)@.insert(
                    r,
                    (Node {
                        prev_x_next: mix(old(self)@[r].prev_x_next, other),
                        element: old(self)@[r].element,
                    }),
                )
            } else {
                old(self)@
            }),
    {
        proof {
            use_type_invariant(&*self);
        }
        if r.addr == 0 || r.addr > self.slots.len() {
            return ;
        }
        let NodeStore { mut slots, free } = self.take();
        match &mut slots[r.addr - 1] {
            Some(node) => {
                node.xor_assign(other);
            },
            None => {},
        }
        proof {
            let after = NodeStore { slots, free };
            if old(self)@.dom().contains(r) {
                assert(after@ =~= old(self)@.insert(
                    r,
                    (Node {
                        prev_x_next: mix(old(self)@[r].prev_x_next, other),
                        element: old(self)@[r].element,
                    }),
                ));
            } else {
                assert(after@ =~= old(self)@);
            }
        }
        *self = NodeStore { slots, free };
    }
}

impl<E: Clone> Clone for NodeStore<E> {
    /// A store with a clone of every node at the address at which it stands
    /// here.
    fn clone(&self) -> (store: Self)
        ensures
            store.well_formed(),
            store@.dom() == self@.dom(),
            forall|r: NodeRef|
                self@.dom().contains(r) ==> (#[trigger] store@[r]).prev_x_next
                    == self@[r].prev_x_next && cloned::<E>(self@[r].element, store@[r].element),
    {
        proof {
            use_type_invariant(self);
        }
        let slots = self.slots.clone();
        let free = self.free.clone();
        proof {
            let store = NodeStore { slots, free };
            assert(store@.dom() =~= self@.dom());
            assert forall|r: NodeRef| self@.dom().contains(r) implies (#[trigger] store@[r])
                .prev_x_next == self@[r].prev_x_next && cloned::<E>(
                self@[r].element,
                store@[r].element,
            ) by {
                assert(cloned::<Option<Node<E>>>(
                    self.slots@[r.addr - 1],
                    store.slots@[r.addr - 1],
                ));
            }
            assert(store.free@ =~= self.free@);
        }
        NodeStore { slots, free }
    }
}

} // verus!
