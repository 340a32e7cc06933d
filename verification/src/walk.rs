//! Walking the links: what a walk visits, why a well-formed list is walked
//! through from either end, and a run over the links that checks them.

use vstd::prelude::*;
use crate::link::{lemma_unpack_pack, unpack, NodeRef};
use crate::list::{at, LinkedList};

verus! {

impl<E> LinkedList<E> {
    /// The addresses that a walk visits. It stands at `current`, having come
    /// from `coming_from`, and at each node it goes on to the neighbor that the
    /// link word gives for the node it came from. It ends where no neighbor is
    /// left or after `fuel` nodes.
    pub open spec fn walk(
        &self,
        coming_from: Option<NodeRef>,
        current: Option<NodeRef>,
        fuel: nat,
    ) -> Seq<NodeRef>
        decreases fuel,
    {
        if fuel == 0 {
            Seq::empty()
        } else {
            match current {
                None => Seq::empty(),
                Some(c) => seq![c] + self.walk(
                    current,
                    unpack(self.link_at(c), coming_from),
                    (fuel - 1) as nat,
                ),
            }
        }
    }

    /// The walk from the front end.
    pub open spec fn forward_walk(&self, fuel: nat) -> Seq<NodeRef> {
        self.walk(None, self.front(), fuel)
    }

    /// The walk from the back end.
    pub open spec fn backward_walk(&self, fuel: nat) -> Seq<NodeRef> {
        self.walk(None, self.back(), fuel)
    }

    /// What a run over the links can see of the link invariant: the walk from
    /// the front, allowed one node more than the length, visits exactly as
    /// many nodes as the length says, all of them held, and ends at the back
    /// end.
    pub open spec fn links_consistent(&self) -> bool {
        let w = self.forward_walk((self.spec_len() + 1) as nat);
        &&& w.len() == self.spec_len()
        &&& forall|i: int| 0 <= i < w.len() ==> self.holds(#[trigger] w[i])
        &&& self.back() == at(w, w.len() - 1)
    }

    /// In a well-formed list a walk that comes to the `i`-th node from the
    /// node before it visits the rest of the nodes in order and then ends.
    proof fn lemma_walk_forward(&self, i: int, fuel: nat)
        requires
            self.well_formed(),
            0 <= i <= self.nodes().len(),
            fuel >= self.nodes().len() - i,
        ensures
            self.walk(at(self.nodes(), i - 1), at(self.nodes(), i), fuel) == self.nodes().skip(i),
        decreases fuel,
    {
        let s = self.nodes();
        if i < s.len() {
            assert(self.linked(i));
            if i > 0 {
                assert(self.linked(i - 1));
            }
            if i + 1 < s.len() {
                assert(self.linked(i + 1));
            }
            lemma_unpack_pack(at(s, i - 1), at(s, i + 1));
            self.lemma_walk_forward(i + 1, (fuel - 1) as nat);
        }
    }

    /// In a well-formed list a walk that comes to the `i`-th node from the
    /// node behind it visits the nodes before it, last first, and then ends.
    proof fn lemma_walk_backward(&self, i: int, fuel: nat)
        requires
            self.well_formed(),
            -1 <= i < self.nodes().len(),
            fuel >= i + 1,
        ensures
            self.walk(at(self.nodes(), i + 1), at(self.nodes(), i), fuel) == self.nodes().take(
                i + 1,
            ).reverse(),
        decreases fuel,
    {
        let s = self.nodes();
        if i >= 0 {
            assert(self.linked(i));
            if i > 0 {
                assert(self.linked(i - 1));
            }
            if i + 1 < s.len() {
                assert(self.linked(i + 1));
            }
            lemma_unpack_pack(at(s, i - 1), at(s, i + 1));
            self.lemma_walk_backward(i - 1, (fuel - 1) as nat);
        }
    }

    /// The link invariant, as a walk sees it. In a well-formed list the walk
    /// from the front visits the nodes in order, ends by itself after exactly
    /// as many nodes as the length says, and its last node is the back end. The
    /// walk from the back visits the same nodes in the opposite order. The
    /// elements along the forward walk are the elements of the list. This holds
    /// for every allowance of steps that is no less than the length.
    pub proof fn lemma_walks(&self, fuel: nat)
        requires
            self.well_formed(),
            fuel >= self.spec_len(),
        ensures
            self.forward_walk(fuel) == self.nodes(),
            self.backward_walk(fuel) == self.nodes().reverse(),
            self.nodes().len() == self.spec_len(),
            self.front() == at(self.nodes(), 0),
            self.back() == at(self.nodes(), self.nodes().len() - 1),
            self@ == self.forward_walk(fuel).map_values(|r: NodeRef| self.element_at(r)),
            self.links_consistent(),
    {
        let s = self.nodes();
        self.lemma_walk_forward(0, fuel);
        self.lemma_walk_forward(0, (self.spec_len() + 1) as nat);
        self.lemma_walk_backward(s.len() - 1, fuel);
        assert forall|i: int| 0 <= i < s.len() implies self.holds(#[trigger] s[i]) by {
            assert(self.linked(i));
        }
    }

    /// Walks the links from the front and says whether they are consistent
    /// with the two ends and the length. The walk takes nothing for granted:
    /// it stops at an address where no node is held and after one node more
    /// than the length. In a well-formed list, and every list is one, it comes
    /// through.
    pub fn check_links(&self) -> (ok: bool)
        ensures
            ok == self.links_consistent(),
            ok,
    {
        proof {
            use_type_invariant(self);
            self.lemma_walks(self.spec_len() as nat);
        }
        let ghost full = self.forward_walk((self.spec_len() + 1) as nat);
        let ghost mut seen: Seq<NodeRef> = Seq::empty();
        let mut coming_from: Option<NodeRef> = None;
        let mut current: Option<NodeRef> = self.head();
        let len = self.len();
        let mut count: usize = 0;
        loop
            invariant
                self.links_consistent(),
                len == self.spec_len(),
                count <= len,
                seen.len() == count,
                full == self.forward_walk((self.spec_len() + 1) as nat),
                full == seen + self.walk(coming_from, current, (len + 1 - count) as nat),
                forall|i: int| 0 <= i < seen.len() ==> self.holds(#[trigger] seen[i]),
                coming_from == at(seen, seen.len() - 1),
            ensures
                current is None,
                len == self.spec_len(),
                count <= len,
                seen.len() == count,
                full == self.forward_walk((self.spec_len() + 1) as nat),
                full == seen,
                forall|i: int| 0 <= i < seen.len() ==> self.holds(#[trigger] seen[i]),
                coming_from == at(seen, seen.len() - 1),
            decreases len - count,
        {
            match current {
                None => {
                    break ;
                },
                Some(c) => {
                    let ghost rest = self.walk(
                        current,
                        unpack(self.link_at(c), coming_from),
                        (len - count) as nat,
                    );
                    if count == len {
                        return false;
                    }
                    match self.find(c) {
                        None => {
                            assert(full[count as int] == c);
                            return false;
                        },
                        Some(node) => {
                            let next = node.xor(coming_from);
                            coming_from = current;
                            current = next;
                            count = count + 1;
                            proof {
                                seen = seen.push(c);
                            }
                        },
                    }
                },
            }
        }
        count == len && self.tail() == coming_from
    }
}

} // verus!
