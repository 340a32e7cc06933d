use xor_list::ops::End;
use xor_list::{Iter, LinkedList};

fn forward<T: Clone>(it: &mut Iter<'_, T>) -> Vec<T> {
    let mut out = Vec::new();
    while let Some(x) = it.next() {
        out.push(x.clone());
    }
    out
}

#[test]
fn reads_from_both_ends() {
    let l = LinkedList::from_vec(vec![1, 2, 3, 4, 5]);
    let mut it = l.iter();
    assert_eq!(it.size_hint(), (5, Some(5)));
    assert_eq!(it.next(), Some(&1));
    assert_eq!(it.next_back(), Some(&5));
    assert_eq!(it.next(), Some(&2));
    assert_eq!(it.size_hint(), (2, Some(2)));
    assert_eq!(forward(&mut it), vec![3, 4]);
}

#[test]
fn reads_do_not_depend_on_the_order_of_the_ends() {
    let l = LinkedList::from_vec(vec![1, 2, 3, 4, 5]);

    let mut a = l.iter();
    assert_eq!(a.next_back(), Some(&5));
    assert_eq!(a.next(), Some(&1));
    assert_eq!(a.next(), Some(&2));
    assert_eq!(a.size_hint(), (2, Some(2)));

    let mut b = l.iter();
    assert_eq!(b.next(), Some(&1));
    assert_eq!(b.next(), Some(&2));
    assert_eq!(b.next_back(), Some(&5));
    assert_eq!(b.size_hint(), (2, Some(2)));

    assert_eq!(forward(&mut a), vec![3, 4]);
    assert_eq!(forward(&mut b), vec![3, 4]);
}

#[test]
fn the_two_ends_never_cross() {
    let l = LinkedList::from_vec(vec![1, 2, 3]);
    let mut it = l.iter();
    assert_eq!(it.next(), Some(&1));
    assert_eq!(it.next_back(), Some(&3));
    assert_eq!(it.next_back(), Some(&2));
    assert_eq!(it.size_hint(), (0, Some(0)));
    assert_eq!(it.next(), None);
    assert_eq!(it.next_back(), None);
    assert_eq!(it.next(), None);
    assert_eq!(it.size_hint(), (0, Some(0)));
}

#[test]
fn forward_read_gives_every_element_in_order() {
    let l = LinkedList::from_vec(vec![7, 8, 9]);
    let mut it = l.iter();
    assert_eq!(forward(&mut it), vec![7, 8, 9]);
    assert_eq!(it.next(), None);
    assert_eq!(it.next_back(), None);
}

#[test]
fn backward_read_gives_every_element_in_reverse() {
    let l = LinkedList::from_vec(vec![7, 8, 9]);
    let mut it = l.iter();
    assert_eq!(it.next_back(), Some(&9));
    assert_eq!(it.next_back(), Some(&8));
    assert_eq!(it.next_back(), Some(&7));
    assert_eq!(it.next_back(), None);
    assert_eq!(it.next(), None);
}

#[test]
fn read_of_an_empty_list() {
    let l = LinkedList::<i32>::new();
    let mut it = l.iter();
    assert_eq!(it.size_hint(), (0, Some(0)));
    assert_eq!(it.next(), None);
    assert_eq!(it.next_back(), None);
    assert_eq!(l.iter().last(), None);
}

#[test]
fn read_of_one_element() {
    let l = LinkedList::from_vec(vec![42]);
    let mut it = l.iter();
    assert_eq!(it.next_back(), Some(&42));
    assert_eq!(it.next(), None);
    let mut it = l.iter();
    assert_eq!(it.next(), Some(&42));
    assert_eq!(it.next_back(), None);
}

#[test]
fn last_is_the_last_that_is_left() {
    let l = LinkedList::from_vec(vec![1, 2, 3]);
    assert_eq!(l.iter().last(), Some(&3));
    let mut it = l.iter();
    assert_eq!(it.next_back(), Some(&3));
    assert_eq!(it.clone().last(), Some(&2));
    assert_eq!(it.next(), Some(&1));
    assert_eq!(it.next(), Some(&2));
    assert_eq!(it.last(), None);
}

#[test]
fn a_clone_reads_on_from_the_same_place() {
    let l = LinkedList::from_vec(vec![1, 2, 3, 4]);
    let mut it = l.iter();
    assert_eq!(it.next(), Some(&1));
    assert_eq!(it.next_back(), Some(&4));
    let mut other = it.clone();
    assert_eq!(it.next(), Some(&2));
    assert_eq!(it.next(), Some(&3));
    assert_eq!(it.next(), None);
    assert_eq!(other.size_hint(), (2, Some(2)));
    assert_eq!(other.next_back(), Some(&3));
    assert_eq!(other.next_back(), Some(&2));
    assert_eq!(other.next_back(), None);
}

#[test]
fn reading_leaves_the_list_as_it_is() {
    let mut l = LinkedList::from_vec(vec![1, 2, 3]);
    {
        let mut it = l.iter();
        assert_eq!(it.next(), Some(&1));
        assert_eq!(it.next_back(), Some(&3));
    }
    assert!(l.check_links());
    assert_eq!(l.len(), 3);
    assert_eq!(l.pop_front(), Some(1));
    assert_eq!(l.pop_front(), Some(2));
    assert_eq!(l.pop_front(), Some(3));
}

#[test]
fn two_reads_at_once() {
    let l = LinkedList::from_vec(vec![1, 2, 3]);
    let mut a = l.iter();
    let mut b = l.iter();
    assert_eq!(a.next(), Some(&1));
    assert_eq!(b.next_back(), Some(&3));
    assert_eq!(a.next(), Some(&2));
    assert_eq!(b.next_back(), Some(&2));
    assert_eq!(a.next(), Some(&3));
    assert_eq!(b.next_back(), Some(&1));
    assert_eq!(a.next(), None);
    assert_eq!(b.next_back(), None);
}

#[test]
fn read_after_changes_at_both_ends() {
    let mut l = LinkedList::new();
    for i in 0..10 {
        l.push_back(i);
    }
    for _ in 0..3 {
        l.pop_front();
        l.pop_back();
    }
    l.push_front(100);
    l.push_back(200);
    let mut it = l.iter();
    assert_eq!(forward(&mut it), vec![100, 3, 4, 5, 6, 200]);
}

#[test]
fn read_names_the_end() {
    let l = LinkedList::from_vec(vec![1, 2, 3, 4, 5]);
    let mut it = l.iter();
    assert_eq!(it.read(End::Front), Some(&1));
    assert_eq!(it.read(End::Back), Some(&5));
    assert_eq!(it.read(End::Front), Some(&2));
    assert_eq!(it.size_hint(), (2, Some(2)));
    assert_eq!(it.read(End::Back), Some(&4));
    assert_eq!(it.read(End::Back), Some(&3));
    assert_eq!(it.read(End::Back), None);
    assert_eq!(it.read(End::Front), None);
}

#[test]
fn every_mix_of_reads_gives_the_same_from_each_end() {
    let values = vec![10, 20, 30, 40];
    let l = LinkedList::from_vec(values.clone());
    for mix in 0u32..16 {
        let mut it = l.iter();
        let mut fronts = 0;
        let mut backs = 0;
        for step in 0..4 {
            if mix >> step & 1 == 0 {
                assert_eq!(it.read(End::Front), Some(&values[fronts]));
                fronts += 1;
            } else {
                assert_eq!(it.read(End::Back), Some(&values[3 - backs]));
                backs += 1;
            }
            assert_eq!(it.size_hint(), (3 - step, Some(3 - step)));
        }
        assert_eq!(it.next(), None);
        assert_eq!(it.next_back(), None);
    }
}

fn is_send<T: Send>() {}

fn is_sync<T: Sync>() {}

#[test]
fn lists_and_reads_can_be_sent_and_shared() {
    is_send::<LinkedList<i32>>();
    is_sync::<LinkedList<i32>>();
    is_send::<LinkedList<String>>();
    is_sync::<LinkedList<String>>();
    is_send::<Iter<'static, i32>>();
    is_sync::<Iter<'static, i32>>();
}
