//! Reading a list from both ends.

use vstd::prelude::*;
use crate::ops::End;
use crate::link::{lemma_unpack_pack, NodeRef};
use crate::list::{at, LinkedList};

verus! {

/// A read of a list from both ends at once.
///
/// A link word gives a neighbor only to one who knows the other neighbor, so
/// the read keeps, for each end, the node it will give next and the node it
/// gave last from that end. The count of what is left is shared by the two
/// ends, and it alone says when the read is over.
///
/// The read is seen as the sequence of elements it has yet to give, front to
/// back.
pub struct Iter<'a, E> {
    list: &'a LinkedList<E>,
    head: Option<NodeRef>,
    prev_head: Option<NodeRef>,
    tail: Option<NodeRef>,
    prev_tail: Option<NodeRef>,
    len: usize,
    taken_front: Ghost<nat>,
    taken_back: Ghost<nat>,
}

impl<'a, E> View for Iter<'a, E> {
    type V = Seq<E>;

    open spec fn view(&self) -> Seq<E> {
        self.source()@.subrange(
            self.given_front() as int,
            self.source()@.len() - self.given_back(),
        )
    }
}

impl<'a, E> Iter<'a, E> {
    /// The list that is read.
    pub closed spec fn source(&self) -> &LinkedList<E> {
        self.list
    }

    /// How many elements the read has given from the front.
    pub closed spec fn given_front(&self) -> nat {
        self.taken_front@
    }

    /// How many elements the read has given from the back.
    pub closed spec fn given_back(&self) -> nat {
        self.taken_back@
    }

    /// The list is well formed, the count is what the two ends have left
    /// between them, and each end stands where its reads have brought it.
    /// Every read is well formed at all times.
    #[verifier::type_invariant]
    pub closed spec fn well_formed(&self) -> bool {
        let s = self.list.nodes();
        let f = self.taken_front@ as int;
        let b = self.taken_back@ as int;
        &&& self.list.well_formed()
        &&& f + b + self.len == s.len()
        &&& self.head == at(s, f)
        &&& self.prev_head == at(s, f - 1)
        &&& self.tail == at(s, s.len() - 1 - b)
        &&& self.prev_tail == at(s, s.len() - b)
    }

    /// A read that has given nothing yet.
    pub(crate) fn new(list: &'a LinkedList<E>) -> (it: Self)
        ensures
            it.well_formed(),
            it@ == list@,
            it.source() == list,
            it.given_front() == 0,
            it.given_back() == 0,
    {
        proof {
            use_type_invariant(list);
        }
        Iter {
            list,
            head: list.head(),
            prev_head: None,
            tail: list.tail(),
            prev_tail: None,
            len: list.len(),
            taken_front: Ghost(0),
            taken_back: Ghost(0),
        }
    }

    /// The two ends never cross: what the read has given from the front and
    /// from the back, and what it has left, make up the list.
    pub proof fn lemma_ends_do_not_cross(&self)
        requires
            self.well_formed(),
        ensures
            self.source().well_formed(),
            self.given_front() + self@.len() + self.given_back() == self.source()@.len(),
    {
    }

    /// Gives the first element that is left and moves the front end on. The
    /// node to go to is the one that the link word of the node just read gives
    /// for the node read before it from this end. Once nothing is left the
    /// read gives nothing from either end.
    pub fn next(&mut self) -> (elem: Option<&'a E>)
        ensures
            final(self).well_formed(),
            final(self).source() == old(self).source(),
            old(self)@.len() == 0 ==> elem is None && final(self)@ == old(self)@,
            old(self)@.len() > 0 ==> elem == Some(&old(self)@[0])
                && final(self)@ == old(self)@.drop_first(),
            final(self).given_front() == old(self).given_front() + (if old(self)@.len() > 0 {
                1nat
            } else {
                0nat
            }),
            final(self).given_back() == old(self).given_back(),
    {
        proof {
            use_type_invariant(&*self);
        }
        if self.len == 0 {
            None
        } else {
            match self.head {
                None => None,
                Some(current) => {
                    let list: &'a LinkedList<E> = self.list;
                    proof {
                        let s = list.nodes();
                        let f = self.taken_front@ as int;
                        assert(list.linked(f));
                        if f > 0 {
                            assert(list.linked(f - 1));
                        }
                        if f + 1 < s.len() {
                            assert(list.linked(f + 1));
                        }
                        lemma_unpack_pack(at(s, f - 1), at(s, f + 1));
                    }
                    let node = list.node(current);
                    *self = Iter {
                        list,
                        head: node.xor(self.prev_head),
                        prev_head: Some(current),
                        tail: self.tail,
                        prev_tail: self.prev_tail,
                        len: self.len - 1,
                        taken_front: Ghost(self.taken_front@ + 1),
                        taken_back: Ghost(self.taken_back@),
                    };
                    Some(&node.element)
                },
            }
        }
    }

    /// Gives the last element that is left and moves the back end on, in the
    /// way `next` moves the front end.
    pub fn next_back(&mut self) -> (elem: Option<&'a E>)
        ensures
            final(self).well_formed(),
            final(self).source() == old(self).source(),
            old(self)@.len() == 0 ==> elem is None && final(self)@ == old(self)@,
            old(self)@.len() > 0 ==> elem == Some(&old(self)@.last())
                && final(self)@ == old(self)@.drop_last(),
            final(self).given_front() == old(self).given_front(),
            final(self).given_back() == old(self).given_back() + (if old(self)@.len() > 0 {
                1nat
            } else {
                0nat
            }),
    {
        proof {
            use_type_invariant(&*self);
        }
        if self.len == 0 {
            None
        } else {
            match self.tail {
                None => None,
                Some(current) => {
                    let list: &'a LinkedList<E> = self.list;
                    proof {
                        let s = list.nodes();
                        let k = s.len() - 1 - self.taken_back@;
                        assert(list.linked(k));
                        if k > 0 {
                            assert(list.linked(k - 1));
                        }
                        if k + 1 < s.len() {
                            assert(list.linked(k + 1));
                        }
                        lemma_unpack_pack(at(s, k - 1), at(s, k + 1));
                    }
                    let node = list.node(current);
                    *self = Iter {
                        list,
                        head: self.head,
                        prev_head: self.prev_head,
                        tail: node.xor(self.prev_tail),
                        prev_tail: Some(current),
                        len: self.len - 1,
                        taken_front: Ghost(self.taken_front@),
                        taken_back: Ghost(self.taken_back@ + 1),
                    };
                    Some(&node.element)
                },
            }
        }
    }

    /// Reads from the end that is named: `next` for the front and `next_back`
    /// for the back. The read does to what is left what the pop at that end
    /// does to a list, so what is proved of runs of pops holds of reads.
    pub fn read(&mut self, end: End) -> (elem: Option<&'a E>)
        ensures
            final(self).well_formed(),
            final(self).source() == old(self).source(),
            final(self)@ == end.pop::<E>().apply(old(self)@),
            elem == (match end.pop::<E>().gives(old(self)@) {
                Some(e) => Some(&e),
                None => None,
            }),
    {
        match end {
            End::Front => self.next(),
            End::Back => self.next_back(),
        }
    }

    /// The number of elements that are left, as a lower and an upper bound.
    pub fn size_hint(&self) -> (bounds: (usize, Option<usize>))
        ensures
            bounds.0 == self@.len(),
            bounds.1 == Some(bounds.0),
    {
        proof {
            use_type_invariant(self);
        }
        (self.len, Some(self.len))
    }

    /// The last element that is left.
    pub fn last(self) -> (elem: Option<&'a E>)
        ensures
            elem == (if self@.len() > 0 {
                Some(&self@.last())
            } else {
                None
            }),
    {
        let mut it = self;
        it.next_back()
    }
}

impl<'a, E> Clone for Iter<'a, E> {
    /// A second read that stands where this one stands.
    fn clone(&self) -> (it: Self)
        ensures
            it == *self,
    {
        proof {
            use_type_invariant(self);
        }
        Iter {
            list: self.list,
            head: self.head,
            prev_head: self.prev_head,
            tail: self.tail,
            prev_tail: self.prev_tail,
            len: self.len,
            taken_front: Ghost(self.taken_front@),
            taken_back: Ghost(self.taken_back@),
        }
    }
}

} // verus!
