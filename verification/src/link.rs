//! The link algebra: packing two neighbor addresses into one word, getting one
//! of them back from the word and the other, and mixing an address into a word.
//! Nothing outside this file computes on addresses.

use vstd::prelude::*;

verus! {

/// The address of a node.
///
/// Address zero is reserved. In a link word it stands for "no neighbor", so a
/// reference is valid only if its address is not zero.
#[derive(Clone, Copy, PartialEq, Eq, Structural, Debug)]
pub struct NodeRef {
    pub addr: usize,
}

impl NodeRef {
    /// A reference names a node only if its address is not the reserved zero.
    pub open spec fn valid(self) -> bool {
        self.addr != 0
    }

    /// The reference that an address word denotes: none for zero.
    pub open spec fn from_addr(addr: usize) -> Option<NodeRef> {
        if addr == 0 {
            None
        } else {
            Some(NodeRef { addr })
        }
    }

    /// Reads a word as an optional reference: zero is "no node".
    pub fn new(addr: usize) -> (r: Option<NodeRef>)
        ensures
            r == Self::from_addr(addr),
    {
        if addr == 0 {
            None
        } else {
            Some(NodeRef { addr })
        }
    }
}

/// The word that an optional neighbor contributes to a link: its address, or
/// zero where there is no neighbor.
pub open spec fn addr_of(r: Option<NodeRef>) -> usize {
    match r {
        Some(n) => n.addr,
        None => 0,
    }
}

/// The link word of a node whose neighbors are `a` and `b`.
pub open spec fn spec_pack(a: Option<NodeRef>, b: Option<NodeRef>) -> usize {
    addr_of(a) ^ addr_of(b)
}

/// The neighbor that a link word holds besides `known`.
pub open spec fn spec_unpack(link: usize, known: Option<NodeRef>) -> Option<NodeRef> {
    NodeRef::from_addr(link ^ addr_of(known))
}

/// The link word with the address of `r` mixed in.
pub open spec fn spec_mix(link: usize, r: Option<NodeRef>) -> usize {
    link ^ addr_of(r)
}

/// The word of an optional reference.
fn word(r: Option<NodeRef>) -> (w: usize)
    ensures
        w == addr_of(r),
{
    match r {
        Some(n) => n.addr,
        None => 0,
    }
}

/// Packs two optional neighbors into one link word.
#[verifier::when_used_as_spec(spec_pack)]
pub fn pack(a: Option<NodeRef>, b: Option<NodeRef>) -> (link: usize)
    ensures
        link == spec_pack(a, b),
{
    word(a) ^ word(b)
}

/// Recovers from a link word the neighbor on the other side of `known`.
#[verifier::when_used_as_spec(spec_unpack)]
pub fn unpack(link: usize, known: Option<NodeRef>) -> (r: Option<NodeRef>)
    ensures
        r == spec_unpack(link, known),
{
    NodeRef::new(link ^ word(known))
}

/// Mixes the address of `r` into a link word. Where `r` was no neighbor, the
/// word then holds it on a side that was empty. Where it was a neighbor, the
/// word holds it no more.
#[verifier::when_used_as_spec(spec_mix)]
pub fn mix(link: usize, r: Option<NodeRef>) -> (mixed: usize)
    ensures
        mixed == spec_mix(link, r),
{
    link ^ word(r)
}

/// Exclusive-or undoes itself.
proof fn lemma_xor(x: usize, y: usize)
    ensures
        (x ^ y) ^ x == y,
        (x ^ y) ^ y == x,
{
    assert((x ^ y) ^ x == y) by (bit_vector);
    assert((x ^ y) ^ y == x) by (bit_vector);
}

/// Unpacking is the inverse of packing: from the link word of two neighbors and
/// either one of them, `unpack` gives the other. This holds for every pair of
/// valid references, and where one or both neighbors are missing.
pub proof fn lemma_unpack_pack(a: Option<NodeRef>, b: Option<NodeRef>)
    requires
        a is Some ==> a.unwrap().valid(),
        b is Some ==> b.unwrap().valid(),
    ensures
        unpack(pack(a, b), a) == b,
        unpack(pack(a, b), b) == a,
{
    lemma_xor(addr_of(a), addr_of(b));
}

/// A node that stood alone and gets `c` as a neighbor has the link word of
/// `c` and nothing, whichever side `c` is on.
pub proof fn lemma_link_alone(c: Option<NodeRef>)
    ensures
        mix(0, c) == pack(None, c),
        mix(0, c) == pack(c, None),
{
    let b = addr_of(c);
    assert(0usize ^ b == b ^ 0usize) by (bit_vector);
}

/// Mixing the address of `c` into the link word of a node that has `x` on one
/// side and nothing on the other gives the link word of `x` and `c`: the empty
/// side is filled, whichever side it is.
pub proof fn lemma_link_gains(x: Option<NodeRef>, c: Option<NodeRef>)
    ensures
        mix(pack(None, x), c) == pack(c, x),
        mix(pack(x, None), c) == pack(x, c),
{
    let a = addr_of(x);
    let b = addr_of(c);
    assert((0usize ^ a) ^ b == b ^ a) by (bit_vector);
    assert((a ^ 0usize) ^ b == a ^ b) by (bit_vector);
}

/// Mixing the address of a neighbor `c` into a link word once more takes `c`
/// away and leaves that side empty.
pub proof fn lemma_link_loses(x: Option<NodeRef>, c: Option<NodeRef>)
    ensures
        mix(pack(c, x), c) == pack(None, x),
        mix(pack(x, c), c) == pack(x, None),
{
    let a = addr_of(x);
    let b = addr_of(c);
    assert((b ^ a) ^ b == 0usize ^ a) by (bit_vector);
    assert((a ^ b) ^ b == a ^ 0usize) by (bit_vector);
}

} // verus!
