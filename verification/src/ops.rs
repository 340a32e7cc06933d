//! Operations as values, and runs of them.
//!
//! A run is a sequence of operations applied one after the other to the
//! sequence of elements. Each operation acts on that sequence as the method it
//! stands for promises to: `Op::apply` is the list after the method, and
//! `Op::gives` is what the method hands back. A read of a list from one end
//! does to what is left to read what the pop at that end does to a list, so
//! runs of pops describe reads from both ends too.

use vstd::prelude::*;

verus! {

/// One operation on a list.
pub enum Op<E> {
    /// `push_front` of the element.
    PushFront(E),
    /// `push_back` of the element.
    PushBack(E),
    /// `pop_front`.
    PopFront,
    /// `pop_back`.
    PopBack,
}

/// One of the two ends of a list.
pub enum End {
    Front,
    Back,
}

impl End {
    /// The pop at this end. A read from this end gives what the pop gives and
    /// leaves to read what the pop leaves.
    pub open spec fn pop<E>(self) -> Op<E> {
        match self {
            End::Front => Op::PopFront,
            End::Back => Op::PopBack,
        }
    }
}

impl<E> Op<E> {
    /// Whether the operation puts an element in.
    pub open spec fn is_push(self) -> bool {
        self is PushFront || self is PushBack
    }

    /// The elements after the operation, where `s` are the elements before it.
    pub open spec fn apply(self, s: Seq<E>) -> Seq<E> {
        match self {
            Op::PushFront(e) => seq![e] + s,
            Op::PushBack(e) => s.push(e),
            Op::PopFront => if s.len() > 0 {
                s.drop_first()
            } else {
                s
            },
            Op::PopBack => if s.len() > 0 {
                s.drop_last()
            } else {
                s
            },
        }
    }

    /// The element that the operation hands back: none for a push, and none
    /// for a pop where nothing is left.
    pub open spec fn gives(self, s: Seq<E>) -> Option<E> {
        match self {
            Op::PushFront(_) => None,
            Op::PushBack(_) => None,
            Op::PopFront => if s.len() > 0 {
                Some(s[0])
            } else {
                None
            },
            Op::PopBack => if s.len() > 0 {
                Some(s.last())
            } else {
                None
            },
        }
    }
}

/// The elements after a run of operations that started from `s`.
pub open spec fn run<E>(s: Seq<E>, ops: Seq<Op<E>>) -> Seq<E>
    decreases ops.len(),
{
    if ops.len() == 0 {
        s
    } else {
        ops.last().apply(run(s, ops.drop_last()))
    }
}

/// The elements that the run handed back, in the order in which they came.
pub open spec fn given<E>(s: Seq<E>, ops: Seq<Op<E>>) -> Seq<E>
    decreases ops.len(),
{
    if ops.len() == 0 {
        Seq::empty()
    } else {
        let before = given(s, ops.drop_last());
        match ops.last().gives(run(s, ops.drop_last())) {
            Some(e) => before.push(e),
            None => before,
        }
    }
}

/// How many operations of the run are pushes.
pub open spec fn pushes<E>(ops: Seq<Op<E>>) -> nat
    decreases ops.len(),
{
    if ops.len() == 0 {
        0
    } else {
        pushes(ops.drop_last()) + if ops.last().is_push() {
            1nat
        } else {
            0nat
        }
    }
}

/// How many of the ends named in `ends` are `end`.
pub open spec fn taken(ends: Seq<End>, end: End) -> nat
    decreases ends.len(),
{
    if ends.len() == 0 {
        0
    } else {
        taken(ends.drop_last(), end) + if ends.last() == end {
            1nat
        } else {
            0nat
        }
    }
}

/// The run of pops at the ends named in `ends`.
pub open spec fn pops<E>(ends: Seq<End>) -> Seq<Op<E>> {
    Seq::new(ends.len(), |i: int| ends[i].pop())
}

/// The run that pushes the elements of `vs` to the back, in order.
pub open spec fn push_backs<E>(vs: Seq<E>) -> Seq<Op<E>> {
    Seq::new(vs.len(), |i: int| Op::PushBack(vs[i]))
}

/// The run of `n` pops from the front.
pub open spec fn pop_fronts<E>(n: nat) -> Seq<Op<E>> {
    Seq::new(n, |i: int| Op::PopFront)
}

/// The run of `n` pops from the back.
pub open spec fn pop_backs<E>(n: nat) -> Seq<Op<E>> {
    Seq::new(n, |i: int| Op::PopBack)
}

} // verus!
