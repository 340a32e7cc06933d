use xor_list::link::{mix, pack, unpack, NodeRef};
use xor_list::node::Node;
use xor_list::store::NodeStore;

fn r(addr: usize) -> Option<NodeRef> {
    NodeRef::new(addr)
}

#[test]
fn zero_is_no_reference() {
    assert_eq!(NodeRef::new(0), None);
    assert_eq!(NodeRef::new(1), Some(NodeRef { addr: 1 }));
    assert_eq!(NodeRef::new(usize::MAX), Some(NodeRef { addr: usize::MAX }));
}

#[test]
fn pack_is_the_exclusive_or() {
    assert_eq!(pack(r(5), r(3)), 6);
    assert_eq!(pack(r(3), r(5)), 6);
    assert_eq!(pack(r(0b1100), r(0b1010)), 0b0110);
    assert_eq!(pack(None, r(9)), 9);
    assert_eq!(pack(r(9), None), 9);
    assert_eq!(pack(None, None), 0);
    assert_eq!(pack(r(7), r(7)), 0);
}

#[test]
fn unpack_gives_the_other_neighbor() {
    assert_eq!(unpack(6, r(5)), r(3));
    assert_eq!(unpack(6, r(3)), r(5));
    assert_eq!(unpack(9, None), r(9));
    assert_eq!(unpack(9, r(9)), None);
    assert_eq!(unpack(0, None), None);
}

#[test]
fn unpack_undoes_pack() {
    let refs = [None, r(1), r(2), r(3), r(8), r(255), r(4096), r(usize::MAX)];
    for a in refs {
        for b in refs {
            assert_eq!(unpack(pack(a, b), a), b);
            assert_eq!(unpack(pack(a, b), b), a);
        }
    }
}

#[test]
fn new_node_has_no_neighbors() {
    let n = Node::new('x');
    assert_eq!(n.prev_x_next, 0);
    assert_eq!(n.element, 'x');
    assert_eq!(n.xor(None), None);
    assert_eq!(n.into_element(), 'x');
}

#[test]
fn node_gains_and_loses_neighbors() {
    let mut n = Node::new(1u8);
    n.xor_assign(r(12));
    assert_eq!(n.prev_x_next, 12);
    assert_eq!(n.xor(None), r(12));
    n.xor_assign(r(10));
    assert_eq!(n.prev_x_next, 6);
    assert_eq!(n.xor(r(12)), r(10));
    assert_eq!(n.xor(r(10)), r(12));
    n.xor_assign(r(12));
    assert_eq!(n.prev_x_next, 10);
    assert_eq!(n.xor(None), r(10));
    n.xor_assign(None);
    assert_eq!(n.prev_x_next, 10);
    assert_eq!(n.element, 1);
}

#[test]
fn store_hands_out_distinct_places() {
    let mut s = NodeStore::new();
    let a = s.insert(Node::new("a"));
    let b = s.insert(Node::new("b"));
    let c = s.insert(Node::new("c"));
    assert_ne!(a, b);
    assert_ne!(b, c);
    assert_ne!(a, c);
    assert_ne!(a.addr, 0);
    assert_ne!(b.addr, 0);
    assert_ne!(c.addr, 0);
    assert_eq!(s.get(a).map(|n| n.element), Some("a"));
    assert_eq!(s.get(b).map(|n| n.element), Some("b"));
    assert_eq!(s.get(c).map(|n| n.element), Some("c"));
}

#[test]
fn store_frees_and_reuses_places() {
    let mut s = NodeStore::new();
    let a = s.insert(Node::new(1));
    let b = s.insert(Node::new(2));
    let gone = s.remove(a);
    assert_eq!(gone.map(|n| n.element), Some(1));
    assert!(s.get(a).is_none());
    assert!(s.remove(a).is_none());
    assert_eq!(s.get(b).map(|n| n.element), Some(2));
    let c = s.insert(Node::new(3));
    assert_eq!(c, a);
    assert_eq!(s.get(c).map(|n| n.element), Some(3));
    assert_eq!(s.get(b).map(|n| n.element), Some(2));
    let d = s.insert(Node::new(4));
    assert_ne!(d, b);
    assert_ne!(d, c);
}

#[test]
fn store_holds_nothing_at_unknown_places() {
    let mut s = NodeStore::<u8>::new();
    assert!(s.get(NodeRef { addr: 0 }).is_none());
    assert!(s.get(NodeRef { addr: 1 }).is_none());
    let a = s.insert(Node::new(9));
    assert!(s.get(NodeRef { addr: 0 }).is_none());
    assert!(s.get(NodeRef { addr: a.addr + 1 }).is_none());
    assert!(s.get(NodeRef { addr: usize::MAX }).is_none());
    assert!(s.get(a).is_some());
    assert!(s.remove(NodeRef { addr: 0 }).is_none());
    assert!(s.remove(NodeRef { addr: a.addr + 1 }).is_none());
    s.xor_link(NodeRef { addr: 0 }, Some(a));
    s.xor_link(NodeRef { addr: a.addr + 1 }, Some(a));
    assert_eq!(s.get(a).map(|n| (n.prev_x_next, n.element)), Some((0, 9)));
}

#[test]
fn store_mixes_an_address_into_a_link() {
    let mut s = NodeStore::new();
    let a = s.insert(Node::new('a'));
    let b = s.insert(Node::new('b'));
    s.xor_link(a, Some(b));
    assert_eq!(s.get(a).map(|n| n.prev_x_next), Some(b.addr));
    assert_eq!(s.get(a).map(|n| n.element), Some('a'));
    assert_eq!(s.get(b).map(|n| n.prev_x_next), Some(0));
    s.xor_link(a, Some(b));
    assert_eq!(s.get(a).map(|n| n.prev_x_next), Some(0));
    s.xor_link(b, None);
    assert_eq!(s.get(b).map(|n| n.prev_x_next), Some(0));
}

#[test]
fn a_clone_of_a_store_holds_the_same_at_the_same_places() {
    let mut s = NodeStore::new();
    let a = s.insert(Node::new(1));
    let b = s.insert(Node::new(2));
    s.xor_link(a, Some(b));
    s.remove(b);
    let mut t = s.clone();
    assert_eq!(t.get(a).map(|n| (n.prev_x_next, n.element)), Some((b.addr, 1)));
    assert!(t.get(b).is_none());
    assert_eq!(t.insert(Node::new(3)), b);
    assert!(s.get(b).is_none());
}

#[test]
fn mix_is_the_exclusive_or_with_the_address() {
    assert_eq!(mix(6, r(5)), 3);
    assert_eq!(mix(3, r(5)), 6);
    assert_eq!(mix(0, r(9)), 9);
    assert_eq!(mix(9, r(9)), 0);
    assert_eq!(mix(12, None), 12);
    assert_eq!(mix(0, None), 0);
    assert_eq!(mix(mix(77, r(31)), r(31)), 77);
}
