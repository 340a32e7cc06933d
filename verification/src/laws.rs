//! What holds of every run of operations on a list, and of every run of
//! reads from its two ends.

use vstd::prelude::*;
use crate::ops::{given, pop_backs, pop_fronts, pops, push_backs, pushes, run, taken, End, Op};

verus! {

/// A run in two parts ends where the second part ends when it starts from
/// the end of the first, and hands back what the two parts hand back.
pub proof fn lemma_run_in_parts<E>(s: Seq<E>, a: Seq<Op<E>>, b: Seq<Op<E>>)
    ensures
        run(s, a + b) == run(run(s, a), b),
        given(s, a + b) == given(s, a) + given(run(s, a), b),
    decreases b.len(),
{
    if b.len() > 0 {
        assert((a + b).drop_last() =~= a + b.drop_last());
        lemma_run_in_parts(s, a, b.drop_last());
    }
}

/// The length is the net count of a run. After any run of pushes and pops the
/// number of elements is the number there was, plus the pushes, minus the pops
/// that handed an element back. A pop that finds nothing hands nothing back
/// and takes nothing off, so the count never falls below zero.
pub proof fn lemma_length_is_net_count<E>(s: Seq<E>, ops: Seq<Op<E>>)
    ensures
        run(s, ops).len() == s.len() + pushes(ops) - given(s, ops).len(),
        given(s, ops).len() <= s.len() + pushes(ops),
    decreases ops.len(),
{
    if ops.len() > 0 {
        lemma_length_is_net_count(s, ops.drop_last());
    }
}

/// Pushing to the back puts the elements behind those that were there, in the
/// order in which they were pushed, and hands nothing back.
pub proof fn lemma_push_backs<E>(s: Seq<E>, vs: Seq<E>)
    ensures
        run(s, push_backs(vs)) == s + vs,
        given(s, push_backs(vs)) == Seq::<E>::empty(),
    decreases vs.len(),
{
    if vs.len() > 0 {
        assert(push_backs(vs).drop_last() =~= push_backs(vs.drop_last()));
        lemma_push_backs(s, vs.drop_last());
    }
}

/// Popping `n` times from the front, with `n` no more than the length, hands
/// back the first `n` elements in order and leaves the rest.
pub proof fn lemma_pop_fronts<E>(s: Seq<E>, n: nat)
    requires
        n <= s.len(),
    ensures
        run(s, pop_fronts(n)) == s.skip(n as int),
        given(s, pop_fronts(n)) == s.take(n as int),
    decreases n,
{
    if n > 0 {
        let m = (n - 1) as nat;
        assert(pop_fronts::<E>(n).drop_last() =~= pop_fronts::<E>(m));
        lemma_pop_fronts(s, m);
    }
}

/// Popping `n` times from the back, with `n` no more than the length, hands
/// back the last `n` elements, the last one first, and leaves the rest.
pub proof fn lemma_pop_backs<E>(s: Seq<E>, n: nat)
    requires
        n <= s.len(),
    ensures
        run(s, pop_backs(n)) == s.take(s.len() - n),
        given(s, pop_backs(n)) == s.reverse().take(n as int),
    decreases n,
{
    if n > 0 {
        let m = (n - 1) as nat;
        assert(pop_backs::<E>(n).drop_last() =~= pop_backs::<E>(m));
        lemma_pop_backs(s, m);
        assert(s.reverse().take(n as int) =~= s.reverse().take(m as int).push(
            s.take(s.len() - m).last(),
        ));
    }
}

/// First in, first out. The elements pushed to the back of an empty list come
/// off the front in the order in which they were pushed, and the list is empty
/// again.
pub proof fn lemma_first_in_first_out<E>(vs: Seq<E>)
    ensures
        given(Seq::<E>::empty(), push_backs(vs) + pop_fronts(vs.len())) == vs,
        run(Seq::<E>::empty(), push_backs(vs) + pop_fronts(vs.len())) == Seq::<E>::empty(),
{
    let e = Seq::<E>::empty();
    lemma_run_in_parts(e, push_backs(vs), pop_fronts(vs.len()));
    lemma_push_backs(e, vs);
    lemma_pop_fronts(vs, vs.len());
}

/// Last in, first out. The elements pushed to the back of an empty list come
/// off the back in the opposite order, and the list is empty again.
pub proof fn lemma_last_in_first_out<E>(vs: Seq<E>)
    ensures
        given(Seq::<E>::empty(), push_backs(vs) + pop_backs(vs.len())) == vs.reverse(),
        run(Seq::<E>::empty(), push_backs(vs) + pop_backs(vs.len())) == Seq::<E>::empty(),
{
    let e = Seq::<E>::empty();
    lemma_run_in_parts(e, push_backs(vs), pop_backs(vs.len()));
    lemma_push_backs(e, vs);
    lemma_pop_backs(vs, vs.len());
}

/// Appending keeps the order. Where one list holds the elements of `a` and
/// another those of `b`, each pushed to the back in order, the first list
/// after the append holds `a + b`, and popping from its front until it is
/// empty hands back the elements of `a` in order and then those of `b`.
pub proof fn lemma_append_in_order<E>(a: Seq<E>, b: Seq<E>)
    ensures
        run(Seq::<E>::empty(), push_backs(a)) + run(Seq::<E>::empty(), push_backs(b)) == a + b,
        given(a + b, pop_fronts((a + b).len())) == a + b,
        run(a + b, pop_fronts((a + b).len())) == Seq::<E>::empty(),
{
    let e = Seq::<E>::empty();
    lemma_push_backs(e, a);
    lemma_push_backs(e, b);
    let c = a + b;
    lemma_pop_fronts(c, c.len());
}

/// Reads from both ends do not get in each other's way. Take any run of
/// reads, from the front and from the back in any order, that is no longer
/// than the sequence read. Then every read gives an element. A read from the
/// front gives the element whose index is the number of reads from the front
/// before it, and a read from the back gives the element that is as far from
/// the end as there were reads from the back before it. What is left is what
/// lies between the elements taken at the two ends. So what the reads from
/// one end give, and what is left, does not depend on how the reads from the
/// other end are mixed in.
pub proof fn lemma_reads_from_both_ends<E>(s: Seq<E>, ends: Seq<End>)
    requires
        ends.len() <= s.len(),
    ensures
        taken(ends, End::Front) + taken(ends, End::Back) == ends.len(),
        run(s, pops(ends)) == s.subrange(
            taken(ends, End::Front) as int,
            s.len() - taken(ends, End::Back),
        ),
        given(s, pops(ends)).len() == ends.len(),
        forall|i: int|
            0 <= i < ends.len() ==> (#[trigger] given(s, pops(ends))[i]) == (match ends[i] {
                End::Front => s[taken(ends.take(i), End::Front) as int],
                End::Back => s[s.len() - 1 - taken(ends.take(i), End::Back)],
            }),
    decreases ends.len(),
{
    if ends.len() > 0 {
        let init = ends.drop_last();
        assert(pops::<E>(ends).drop_last() =~= pops::<E>(init));
        lemma_reads_from_both_ends(s, init);
        assert forall|i: int| 0 <= i < ends.len() implies (#[trigger] given(s, pops(ends))[i])
            == (match ends[i] {
            End::Front => s[taken(ends.take(i), End::Front) as int],
            End::Back => s[s.len() - 1 - taken(ends.take(i), End::Back)],
        }) by {
            if i < init.len() {
                assert(ends.take(i) =~= init.take(i));
            }
        }
    }
}

} // verus!
