//! The order of lists: that of their elements, the first difference deciding.

use core::cmp::Ordering;
use vstd::prelude::*;
use vstd::std_specs::cmp::{PartialOrdSpec, PartialOrdSpecImpl};
use crate::list::LinkedList;

verus! {

/// How two sequences compare, going by the first place at which their elements
/// do not compare as equal. Where one sequence ends first and nothing differed
/// before, the shorter one is the lesser.
pub open spec fn first_difference<E: PartialOrd>(a: Seq<E>, b: Seq<E>) -> Option<Ordering>
    decreases a.len(),
{
    if a.len() == 0 {
        if b.len() == 0 {
            Some(Ordering::Equal)
        } else {
            Some(Ordering::Less)
        }
    } else if b.len() == 0 {
        Some(Ordering::Greater)
    } else {
        match a[0].partial_cmp_spec(&b[0]) {
            Some(Ordering::Equal) => first_difference(a.drop_first(), b.drop_first()),
            decided => decided,
        }
    }
}

impl<E: PartialOrd> PartialOrd for LinkedList<E> {
    /// Compares the elements in order from the front until two of them do not
    /// compare as equal, or one list ends.
    fn partial_cmp(&self, other: &Self) -> (order: Option<Ordering>) {
        let mut a = self.iter();
        let mut b = other.iter();
        loop
            invariant
                a.well_formed(),
                b.well_formed(),
                E::obeys_partial_cmp_spec() ==> first_difference(a@, b@) == first_difference(
                    self@,
                    other@,
                ),
            decreases a@.len(),
        {
            match a.next() {
                None => {
                    return match b.next() {
                        None => Some(Ordering::Equal),
                        Some(_) => Some(Ordering::Less),
                    };
                },
                Some(x) => {
                    match b.next() {
                        None => {
                            return Some(Ordering::Greater);
                        },
                        Some(y) => {
                            match x.partial_cmp(y) {
                                Some(Ordering::Equal) => {},
                                decided => {
                                    return decided;
                                },
                            }
                        },
                    }
                },
            }
        }
    }
}

impl<E: PartialOrd> PartialOrdSpecImpl for LinkedList<E> {
    open spec fn obeys_partial_cmp_spec() -> bool {
        E::obeys_partial_cmp_spec()
    }

    open spec fn partial_cmp_spec(&self, other: &Self) -> Option<Ordering> {
        first_difference(self@, other@)
    }
}

} // verus!
