//! Equality of lists: two lists are equal when they have the same length and
//! their elements are equal one by one.

use vstd::prelude::*;
use vstd::std_specs::cmp::{PartialEqSpec, PartialEqSpecImpl};
use crate::list::LinkedList;

verus! {

impl<E: PartialEq> PartialEq for LinkedList<E> {
    /// Compares the lengths, and then the elements in order from the front
    /// until two of them differ.
    fn eq(&self, other: &Self) -> (equal: bool) {
        if self.len() != other.len() {
            return false;
        }
        let mut a = self.iter();
        let mut b = other.iter();
        loop
            invariant
                a.well_formed(),
                b.well_formed(),
                a.source() == self,
                b.source() == other,
                self@.len() == other@.len(),
                a.given_back() == 0,
                b.given_back() == 0,
                a.given_front() == b.given_front(),
                a.given_front() <= self@.len(),
                E::obeys_eq_spec() ==> forall|k: int|
                    0 <= k < a.given_front() ==> (#[trigger] self@[k]).eq_spec(&other@[k]),
            decreases a@.len(),
        {
            match a.next() {
                None => {
                    return true;
                },
                Some(x) => {
                    match b.next() {
                        None => {
                            return true;
                        },
                        Some(y) => {
                            if !(*x == *y) {
                                return false;
                            }
                        },
                    }
                },
            }
        }
    }
}

impl<E: PartialEq> PartialEqSpecImpl for LinkedList<E> {
    open spec fn obeys_eq_spec() -> bool {
        E::obeys_eq_spec()
    }

    open spec fn eq_spec(&self, other: &Self) -> bool {
        &&& self@.len() == other@.len()
        &&& forall|i: int| 0 <= i < self@.len() ==> (#[trigger] self@[i]).eq_spec(&other@[i])
    }
}

impl<E: Eq> Eq for LinkedList<E> {

}

} // verus!
