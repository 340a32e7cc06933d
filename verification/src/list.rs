//! The list: head, tail and length over a node store, and the operations that
//! keep the link words in step with the order of the nodes.

use vstd::prelude::*;
use crate::iter::Iter;
use crate::ops::Op;
use crate::link::{
    lemma_link_alone, lemma_link_gains, lemma_link_loses, lemma_unpack_pack, pack, NodeRef,
};
use crate::node::Node;
use crate::store::NodeStore;

verus! {

/// The `i`-th address of `s`, or none where `i` is off either end.
pub open spec fn at(s: Seq<NodeRef>, i: int) -> Option<NodeRef> {
    if 0 <= i < s.len() {
        Some(s[i])
    } else {
        None
    }
}

/// A doubly-ended list of `E` whose nodes each keep the exclusive-or of their
/// two neighbors' addresses.
///
/// The list is seen as the sequence of its elements, front to back.
///
/// A list is well formed at every moment of its life. So an operation does not
/// change a list field by field: it takes the list out and leaves an empty one
/// in its place, works on the parts, and puts the list that results back.
pub struct LinkedList<E> {
    /// The first node.
    head: Option<NodeRef>,
    /// The last node.
    tail: Option<NodeRef>,
    /// The number of nodes.
    len: usize,
    /// The nodes.
    store: NodeStore<E>,
    /// The addresses of the nodes in order. No code reads this: it is what the
    /// link words are held against.
    path: Ghost<Seq<NodeRef>>,
}

impl<E> View for LinkedList<E> {
    type V = Seq<E>;

    open spec fn view(&self) -> Seq<E> {
        Seq::new(self.nodes().len(), |i: int| self.element_at(self.nodes()[i]))
    }
}

impl<E> LinkedList<E> {
    /// The addresses of the nodes, front to back.
    pub closed spec fn nodes(&self) -> Seq<NodeRef> {
        self.path@
    }

    /// The address kept as the front end.
    pub closed spec fn front(&self) -> Option<NodeRef> {
        self.head
    }

    /// The address kept as the back end.
    pub closed spec fn back(&self) -> Option<NodeRef> {
        self.tail
    }

    /// The length kept beside the two ends.
    pub closed spec fn spec_len(&self) -> usize {
        self.len
    }

    /// Whether a node of this list stands at `r`.
    pub closed spec fn holds(&self, r: NodeRef) -> bool {
        self.store@.dom().contains(r)
    }

    /// The link word of the node at `r`.
    pub closed spec fn link_at(&self, r: NodeRef) -> usize {
        self.store@[r].prev_x_next
    }

    /// The element of the node at `r`.
    pub closed spec fn element_at(&self, r: NodeRef) -> E {
        self.store@[r].element
    }

    /// The store is sound and holds the nodes of this list and no others.
    pub closed spec fn owns_its_nodes(&self) -> bool {
        &&& self.store.well_formed()
        &&& self.store@.dom().len() == self.path@.len()
        &&& forall|r: NodeRef| self.store@.dom().contains(r) ==> self.path@.contains(r)
    }

    /// The `i`-th node is held, and its link word packs the nodes before and
    /// after it, where a missing neighbor counts as zero.
    pub open spec fn linked(&self, i: int) -> bool {
        let s = self.nodes();
        &&& s[i].valid()
        &&& self.holds(s[i])
        &&& self.link_at(s[i]) == pack(at(s, i - 1), at(s, i + 1))
    }

    /// The link invariant. The ends and the length agree with the sequence of
    /// nodes, no node occurs twice, and every link word packs exactly the two
    /// neighbors of its node. Every list is well formed at all times: each
    /// operation takes a well-formed list to a well-formed list.
    #[verifier::type_invariant]
    pub open spec fn well_formed(&self) -> bool {
        let s = self.nodes();
        &&& self.owns_its_nodes()
        &&& s.len() == self.spec_len()
        &&& self.front() == at(s, 0)
        &&& self.back() == at(s, s.len() - 1)
        &&& s.no_duplicates()
        &&& forall|i: int| 0 <= i < s.len() ==> #[trigger] self.linked(i)
    }

    /// An empty list.
    pub fn new() -> (list: Self)
        ensures
            list.well_formed(),
            list@ == Seq::<E>::empty(),
    {
        let store = NodeStore::new();
        let path: Ghost<Seq<NodeRef>> = Ghost(Seq::empty());
        LinkedList { head: None, tail: None, len: 0, store, path }
    }

    /// Takes the whole list out and leaves an empty one in its place.
    fn take(&mut self) -> (all: Self)
        ensures
            all == *old(self),
            final(self).well_formed(),
            final(self)@ == Seq::<E>::empty(),
    {
        let mut all = Self::new();
        core::mem::swap(self, &mut all);
        all
    }

    /// The number of elements.
    #[verifier::when_used_as_spec(spec_len)]
    pub fn len(&self) -> (n: usize)
        ensures
            n == self@.len(),
            n == self.spec_len(),
    {
        proof {
            use_type_invariant(self);
        }
        self.len
    }

    /// Links a node that has no neighbors yet in front of the first one. The
    /// node gets the old first node as its only neighbor, and the old first
    /// node, whose front side was empty, gets the address of the new node mixed
    /// into its link word.
    fn push_front_node(&mut self, node: Node<E>)
        requires
            node.prev_x_next == 0,
        ensures
            final(self).well_formed(),
            final(self)@ == seq![node.element] + old(self)@,
            final(self).nodes().len() == old(self).nodes().len() + 1,
            final(self).nodes().drop_first() == old(self).nodes(),
            !old(self).holds(final(self).nodes()[0]),
    {
        proof {
            use_type_invariant(&*self);
        }
        let ghost before = *self;
        let LinkedList { head, tail, len, mut store, path } = self.take();
        let mut node = node;
        node.xor_assign(head);
        let r = store.insert(node);
        proof {
            before.store.lemma_held(r);
            store.lemma_held(r);
        }
        let tail = match head {
            None => Some(r),
            Some(first) => {
                assert(before.linked(0));
                store.xor_link(first, Some(r));
                tail
            },
        };
        let path: Ghost<Seq<NodeRef>> = Ghost(seq![r] + path@);
        proof {
            let after = LinkedList { head: Some(r), tail, len: (len + 1) as usize, store, path };
            let s0 = before.nodes();
            let s1 = after.nodes();
            // Every link word packs the two neighbors of its node.
            assert forall|i: int| 0 <= i < s1.len() implies #[trigger] after.linked(i) by {
                if i > 0 {
                    assert(before.linked(i - 1));
                    if i == 1 {
                        lemma_link_gains(at(s0, 1), Some(r));
                    }
                }
            }
            // The store holds no node that is not in the list.
            assert forall|x: NodeRef| after.holds(x) implies s1.contains(x) by {
                if x == r {
                    assert(s1[0] == x);
                } else {
                    assert(s0.contains(x));
                    let j = choose|j: int| 0 <= j < s0.len() && s0[j] == x;
                    assert(s1[j + 1] == x);
                }
            }
            // The new address is none of the old ones.
            assert forall|i: int, j: int| 0 <= i < j < s1.len() implies s1[i] != s1[j] by {
                if i == 0 {
                    assert(before.linked(j - 1));
                }
            }
        }
        *self = LinkedList { head: Some(r), tail, len: len + 1, store, path };
    }

    /// Unlinks the first node and hands it out. Its link word gives the node
    /// behind it, which becomes the first; mixing the address of the node taken
    /// off into the link word of that node empties its front side.
    fn pop_front_node(&mut self) -> (popped: Option<Node<E>>)
        ensures
            final(self).well_formed(),
            match popped {
                Some(node) => {
                    &&& old(self)@.len() > 0
                    &&& node.element == old(self)@[0]
                    &&& final(self)@ == old(self)@.drop_first()
                    &&& final(self).nodes() == old(self).nodes().drop_first()
                },
                None => {
                    &&& old(self)@.len() == 0
                    &&& final(self)@ == old(self)@
                    &&& final(self).nodes() == old(self).nodes()
                },
            },
    {
        proof {
            use_type_invariant(&*self);
        }
        match self.head {
            None => None,
            Some(r) => {
                let ghost before = *self;
                let ghost s0 = before.nodes();
                let LinkedList { head, tail, len, mut store, path } = self.take();
                proof {
                    assert(before.linked(0));
                    if s0.len() > 1 {
                        assert(before.linked(1));
                    }
                    store.lemma_held(r);
                    lemma_unpack_pack(None, at(s0, 1));
                }
                let node = store.remove(r).unwrap();
                let head = node.xor(None);
                let tail = match head {
                    None => None,
                    Some(first) => {
                        store.xor_link(first, Some(r));
                        tail
                    },
                };
                let path: Ghost<Seq<NodeRef>> = Ghost(path@.drop_first());
                proof {
                    let after = LinkedList { head, tail, len: (len - 1) as usize, store, path };
                    let s1 = after.nodes();
                    // Every link word packs the two neighbors of its node.
                    assert forall|i: int| 0 <= i < s1.len() implies #[trigger] after.linked(i) by {
                        assert(before.linked(i + 1));
                        if i == 0 {
                            lemma_link_loses(at(s0, 2), Some(r));
                        }
                    }
                    // The store holds no node that is not in the list.
                    assert forall|x: NodeRef| after.holds(x) implies s1.contains(x) by {
                        assert(s0.contains(x));
                        let j = choose|j: int| 0 <= j < s0.len() && s0[j] == x;
                        assert(s1[j - 1] == x);
                    }
                }
                *self = LinkedList { head, tail, len: len - 1, store, path };
                Some(node)
            },
        }
    }

    /// Links a node that has no neighbors yet behind the last one, in the way
    /// `push_front_node` links one in front.
    fn push_back_node(&mut self, node: Node<E>)
        requires
            node.prev_x_next == 0,
        ensures
            final(self).well_formed(),
            final(self)@ == old(self)@.push(node.element),
            final(self).nodes().len() == old(self).nodes().len() + 1,
            final(self).nodes().drop_last() == old(self).nodes(),
            !old(self).holds(final(self).nodes().last()),
    {
        proof {
            use_type_invariant(&*self);
        }
        let ghost before = *self;
        let LinkedList { head, tail, len, mut store, path } = self.take();
        let mut node = node;
        node.xor_assign(tail);
        let r = store.insert(node);
        proof {
            before.store.lemma_held(r);
            store.lemma_held(r);
        }
        let head = match tail {
            None => Some(r),
            Some(last) => {
                assert(before.linked(before.nodes().len() - 1));
                store.xor_link(last, Some(r));
                head
            },
        };
        let path: Ghost<Seq<NodeRef>> = Ghost(path@.push(r));
        proof {
            let after = LinkedList { head, tail: Some(r), len: (len + 1) as usize, store, path };
            let s0 = before.nodes();
            let s1 = after.nodes();
            let n = s0.len() as int;
            // Every link word packs the two neighbors of its node.
            assert forall|i: int| 0 <= i < s1.len() implies #[trigger] after.linked(i) by {
                if i == n {
                    lemma_link_alone(tail);
                } else {
                    assert(before.linked(i));
                    if i == n - 1 {
                        lemma_link_gains(at(s0, n - 2), Some(r));
                    }
                }
            }
            // The store holds no node that is not in the list.
            assert forall|x: NodeRef| after.holds(x) implies s1.contains(x) by {
                if x == r {
                    assert(s1[n] == x);
                } else {
                    assert(s0.contains(x));
                    let j = choose|j: int| 0 <= j < s0.len() && s0[j] == x;
                    assert(s1[j] == x);
                }
            }
            // The new address is none of the old ones.
            assert forall|i: int, j: int| 0 <= i < j < s1.len() implies s1[i] != s1[j] by {
                if j == n {
                    assert(before.linked(i));
                }
            }
        }
        *self = LinkedList { head, tail: Some(r), len: len + 1, store, path };
    }

    /// Unlinks the last node and hands it out, in the way `pop_front_node`
    /// unlinks the first.
    fn pop_back_node(&mut self) -> (popped: Option<Node<E>>)
        ensures
            final(self).well_formed(),
            match popped {
                Some(node) => {
                    &&& old(self)@.len() > 0
                    &&& node.element == old(self)@.last()
                    &&& final(self)@ == old(self)@.drop_last()
                    &&& final(self).nodes() == old(self).nodes().drop_last()
                },
                None => {
                    &&& old(self)@.len() == 0
                    &&& final(self)@ == old(self)@
                    &&& final(self).nodes() == old(self).nodes()
                },
            },
    {
        proof {
            use_type_invariant(&*self);
        }
        match self.tail {
            None => None,
            Some(r) => {
                let ghost before = *self;
                let ghost s0 = before.nodes();
                let ghost n = s0.len() as int;
                let LinkedList { head, tail, len, mut store, path } = self.take();
                proof {
                    assert(before.linked(n - 1));
                    if n > 1 {
                        assert(before.linked(n - 2));
                    }
                    store.lemma_held(r);
                    lemma_unpack_pack(at(s0, n - 2), None);
                }
                let node = store.remove(r).unwrap();
                let tail = node.xor(None);
                let head = match tail {
                    None => None,
                    Some(last) => {
                        store.xor_link(last, Some(r));
                        head
                    },
                };
                let path: Ghost<Seq<NodeRef>> = Ghost(path@.drop_last());
                proof {
                    let after = LinkedList { head, tail, len: (len - 1) as usize, store, path };
                    let s1 = after.nodes();
                    // Every link word packs the two neighbors of its node.
                    assert forall|i: int| 0 <= i < s1.len() implies #[trigger] after.linked(i) by {
                        assert(before.linked(i));
                        if i == n - 2 {
                            lemma_link_loses(at(s0, n - 3), Some(r));
                        }
                    }
                    // The store holds no node that is not in the list.
                    assert forall|x: NodeRef| after.holds(x) implies s1.contains(x) by {
                        assert(s0.contains(x));
                        let j = choose|j: int| 0 <= j < s0.len() && s0[j] == x;
                        assert(s1[j] == x);
                    }
                }
                *self = LinkedList { head, tail, len: len - 1, store, path };
                Some(node)
            },
        }
    }

    /// Puts an element in front of the first one.
    pub fn push_front(&mut self, elem: E)
        ensures
            final(self).well_formed(),
            final(self)@ == seq![elem] + old(self)@,
            final(self).nodes().len() == old(self).nodes().len() + 1,
            final(self).nodes().drop_first() == old(self).nodes(),
            !old(self).holds(final(self).nodes()[0]),
    {
        self.push_front_node(Node::new(elem));
    }

    /// Takes the first element off, if there is one.
    pub fn pop_front(&mut self) -> (elem: Option<E>)
        ensures
            final(self).well_formed(),
            old(self)@.len() == 0 ==> elem is None && final(self)@ == old(self)@,
            old(self)@.len() > 0 ==> elem == Some(old(self)@[0])
                && final(self)@ == old(self)@.drop_first(),
            final(self).nodes() == (if old(self)@.len() > 0 {
                old(self).nodes().drop_first()
            } else {
                old(self).nodes()
            }),
    {
        match self.pop_front_node() {
            Some(node) => Some(node.into_element()),
            None => None,
        }
    }

    /// Puts an element behind the last one.
    pub fn push_back(&mut self, elem: E)
        ensures
            final(self).well_formed(),
            final(self)@ == old(self)@.push(elem),
            final(self).nodes().len() == old(self).nodes().len() + 1,
            final(self).nodes().drop_last() == old(self).nodes(),
            !old(self).holds(final(self).nodes().last()),
    {
        self.push_back_node(Node::new(elem));
    }

    /// Takes the last element off, if there is one.
    pub fn pop_back(&mut self) -> (elem: Option<E>)
        ensures
            final(self).well_formed(),
            old(self)@.len() == 0 ==> elem is None && final(self)@ == old(self)@,
            old(self)@.len() > 0 ==> elem == Some(old(self)@.last())
                && final(self)@ == old(self)@.drop_last(),
            final(self).nodes() == (if old(self)@.len() > 0 {
                old(self).nodes().drop_last()
            } else {
                old(self).nodes()
            }),
    {
        match self.pop_back_node() {
            Some(node) => Some(node.into_element()),
            None => None,
        }
    }

    /// Moves every element of `other` behind the last element of this list, in
    /// order, and leaves `other` empty.
    ///
    /// Into an empty list the whole of `other` goes at once, by exchanging the
    /// two lists. Otherwise the nodes of `other` are unlinked one by one from
    /// its front and linked in at the back of this list: each list keeps its
    /// nodes in a store of its own, so a node that changes lists changes its
    /// address, and its link word is made anew.
    ///
    /// The two lists are distinct: a list cannot be appended to itself.
    pub fn append(&mut self, other: &mut Self)
        ensures
            final(self).well_formed(),
            final(other).well_formed(),
            final(self)@ == old(self)@ + old(other)@,
            final(other)@ == Seq::<E>::empty(),
            old(self)@.len() == 0 ==> final(self).nodes() == old(other).nodes(),
            old(self)@.len() > 0 ==> final(self).nodes().take(old(self).nodes().len() as int)
                == old(self).nodes(),
    {
        proof {
            use_type_invariant(&*self);
            use_type_invariant(&*other);
        }
        match self.tail {
            None => {
                core::mem::swap(self, other);
            },
            Some(_) => {
                let ghost kept = self.nodes();
                loop
                    invariant
                        self.well_formed(),
                        other.well_formed(),
                        self@ + other@ == old(self)@ + old(other)@,
                        kept.len() <= self.nodes().len(),
                        self.nodes().take(kept.len() as int) == kept,
                    ensures
                        self.well_formed(),
                        other.well_formed(),
                        self@ == old(self)@ + old(other)@,
                        other@ == Seq::<E>::empty(),
                        self.nodes().take(kept.len() as int) == kept,
                    decreases other@.len(),
                {
                    match other.pop_front_node() {
                        Some(node) => {
                            self.push_back_node(Node::new(node.into_element()));
                            assert(self.nodes().take(kept.len() as int)
                                =~= self.nodes().drop_last().take(kept.len() as int));
                        },
                        None => {
                            break ;
                        },
                    }
                }
            },
        }
    }

    /// Puts the elements of `elems` behind the last element, in order.
    pub fn extend(&mut self, elems: Vec<E>)
        ensures
            final(self).well_formed(),
            final(self)@ == old(self)@ + elems@,
    {
        proof {
            use_type_invariant(&*self);
        }
        for elem in it: elems
            invariant
                self.well_formed(),
                it.seq() == elems@,
                self@ == old(self)@ + elems@.take(it.index()),
        {
            self.push_back(elem);
        }
    }

    /// The list of the elements of `elems`, in order.
    pub fn from_vec(elems: Vec<E>) -> (list: Self)
        ensures
            list.well_formed(),
            list@ == elems@,
    {
        let mut list = Self::new();
        list.extend(elems);
        list
    }

    /// Empties the list by taking the nodes off one at a time from the front.
    /// Each node is unlinked before its element is let go, so the list is whole
    /// at every moment at which an element is destroyed. When the last node
    /// has gone the store holds nothing.
    pub fn clear(&mut self)
        ensures
            final(self).well_formed(),
            final(self)@ == Seq::<E>::empty(),
            forall|r: NodeRef| !final(self).holds(r),
    {
        proof {
            use_type_invariant(&*self);
        }
        loop
            invariant
                self.well_formed(),
            ensures
                self.well_formed(),
                self@ == Seq::<E>::empty(),
            decreases self@.len(),
        {
            match self.pop_front_node() {
                Some(_) => {},
                None => {
                    break ;
                },
            }
        }
        proof {
            assert(self.nodes().len() == self@.len());
            assert forall|r: NodeRef| !self.holds(r) by {
                self.lemma_holds_its_nodes(r);
            }
        }
    }

    /// The list holds a node exactly where one of its nodes stands: nothing
    /// that it owns is out of the reach of a walk.
    pub proof fn lemma_holds_its_nodes(&self, r: NodeRef)
        requires
            self.well_formed(),
        ensures
            self.holds(r) <==> self.nodes().contains(r),
    {
        if self.nodes().contains(r) {
            let j = choose|j: int| 0 <= j < self.nodes().len() && self.nodes()[j] == r;
            assert(self.linked(j));
        }
    }

    /// Does one operation and hands back what it gives. The list does to its
    /// elements what the operation does to a sequence, so what is proved of
    /// runs of operations on sequences holds of the list.
    pub fn apply(&mut self, op: Op<E>) -> (elem: Option<E>)
        ensures
            final(self).well_formed(),
            final(self)@ == op.apply(old(self)@),
            elem == op.gives(old(self)@),
    {
        match op {
            Op::PushFront(e) => {
                self.push_front(e);
                None
            },
            Op::PushBack(e) => {
                self.push_back(e);
                None
            },
            Op::PopFront => self.pop_front(),
            Op::PopBack => self.pop_back(),
        }
    }

    /// Starts a read of the elements from both ends. The read leaves the list
    /// as it is.
    pub fn iter(&self) -> (it: Iter<'_, E>)
        ensures
            it.well_formed(),
            it.source() == self,
            it.given_front() == 0,
            it.given_back() == 0,
            it@ == self@,
    {
        Iter::new(self)
    }

    /// The front end.
    pub(crate) fn head(&self) -> (r: Option<NodeRef>)
        ensures
            r == self.front(),
    {
        self.head
    }

    /// The back end.
    pub(crate) fn tail(&self) -> (r: Option<NodeRef>)
        ensures
            r == self.back(),
    {
        self.tail
    }

    /// The node at `r`.
    pub(crate) fn node(&self, r: NodeRef) -> (node: &Node<E>)
        requires
            self.holds(r),
        ensures
            node.prev_x_next == self.link_at(r),
            node.element == self.element_at(r),
    {
        self.store.get(r).unwrap()
    }

    /// The node at `r`, if the list holds one there.
    pub(crate) fn find(&self, r: NodeRef) -> (node: Option<&Node<E>>)
        ensures
            node is Some <==> self.holds(r),
            node is Some ==> node.unwrap().prev_x_next == self.link_at(r),
    {
        self.store.get(r)
    }
}

impl<E> Default for LinkedList<E> {
    /// An empty list.
    fn default() -> (list: Self)
        ensures
            list.well_formed(),
            list@ == Seq::<E>::empty(),
    {
        Self::new()
    }
}

impl<E: Clone> Clone for LinkedList<E> {
    /// A list of clones of the elements, in the same order.
    fn clone(&self) -> (list: Self)
        ensures
            list.well_formed(),
            list@.len() == self@.len(),
            forall|i: int| 0 <= i < self@.len() ==> cloned::<E>(self@[i], list@[i]),
    {
        proof {
            use_type_invariant(self);
        }
        let store = self.store.clone();
        let path: Ghost<Seq<NodeRef>> = Ghost(self.path@);
        proof {
            let list = LinkedList { head: self.head, tail: self.tail, len: self.len, store, path };
            assert forall|i: int| 0 <= i < list.nodes().len() implies #[trigger] list.linked(i) by {
                assert(self.linked(i));
            }
            assert forall|i: int| 0 <= i < self@.len() implies cloned::<E>(self@[i], list@[i]) by {
                assert(self.linked(i));
            }
        }
        LinkedList { head: self.head, tail: self.tail, len: self.len, store, path }
    }
}

} // verus!
