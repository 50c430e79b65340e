//! Every ordering of a sequence, by Heap's algorithm.
//!
//! The generator works by position: it only ever exchanges two places of its
//! working arrangement and never looks at an element. [`heap_run`] is the
//! mathematical model of a run; [`permutations`] is the executable form.

use crate::ordering_laws::{every_ordering_once, lemma_every_ordering_once};
use vstd::prelude::*;

verus! {

/// `s` with the elements at places `i` and `j` exchanged.
pub open spec fn swapped<A>(s: Seq<A>, i: int, j: int) -> Seq<A> {
    s.update(i, s[j]).update(j, s[i])
}

/// The place whose element changes places with the last one of the first `n`
/// after pass `x` of a level-`n` run.
pub open spec fn partner(n: nat, x: nat) -> int {
    if n % 2 == 0 {
        x as int
    } else {
        0
    }
}

/// Passes `x`, `x + 1`, ..., `n - 1` of a level-`n` run that finds the
/// arrangement `s` before pass `x`: the orderings they record, in order, and
/// the arrangement they leave behind.
///
/// A level-`n` run reorders the first `n` places only. Each of its `n` passes
/// is a whole run of level `n - 1`; between two passes the last of the `n`
/// places changes places with [`partner`]. A run of level 1 records the
/// arrangement as it stands.
pub open spec fn heap_passes<A>(s: Seq<A>, n: nat, x: nat) -> (Seq<Seq<A>>, Seq<A>)
    decreases n, n - x,
{
    if n <= 1 {
        (seq![s], s)
    } else {
        let pass = heap_passes(s, (n - 1) as nat, 0);
        if x + 1 >= n {
            pass
        } else {
            let rest = heap_passes(swapped(pass.1, n - 1, partner(n, x)), n, x + 1);
            (pass.0 + rest.0, rest.1)
        }
    }
}

/// A whole level-`n` run from the arrangement `s`.
pub open spec fn heap_run<A>(s: Seq<A>, n: nat) -> (Seq<Seq<A>>, Seq<A>) {
    heap_passes(s, n, 0)
}

/// The orderings of `s` in the order in which the generator records them.
pub open spec fn orderings<A>(s: Seq<A>) -> Seq<Seq<A>> {
    heap_run(s, s.len()).0
}

/// The arrangement in which the generator leaves `s`.
pub open spec fn rest_arrangement<A>(s: Seq<A>) -> Seq<A> {
    heap_run(s, s.len()).1
}

/// What a list of vectors holds, as sequences.
pub open spec fn contents<T>(list: Seq<Vec<T>>) -> Seq<Seq<T>> {
    Seq::new(list.len(), |k: int| list[k]@)
}

/// A copy of `v`.
fn snapshot<T: Copy>(v: &[T]) -> (copy: Vec<T>)
    ensures
        copy@ == v@,
{
    let mut copy: Vec<T> = Vec::new();
    let mut i: usize = 0;
    while i < v.len()
        invariant
            i <= v.len(),
            copy@ == v@.take(i as int),
        decreases v.len() - i,
    {
        copy.push(v[i]);
        i += 1;
    }
    assert(v@.take(v.len() as int) =~= v@);
    copy
}

/// Exchanges the elements at places `i` and `j` of `v`.
fn exchange<T: Copy>(v: &mut [T], i: usize, j: usize)
    requires
        i < old(v).len(),
        j < old(v).len(),
    ensures
        final(v)@ == swapped(old(v)@, i as int, j as int),
{
    let a = v[i];
    let b = v[j];
    v[i] = b;
    v[j] = a;
}

/// One run of level `n` on `v`: returns the orderings it records and leaves
/// `v` in the arrangement in which the run ends.
pub fn heaps_alg<T: Copy>(v: &mut [T], n: usize) -> (perms: Vec<Vec<T>>)
    requires
        1 <= n <= old(v).len(),
    ensures
        contents(perms@) == heap_run(old(v)@, n as nat).0,
        final(v)@ == heap_run(old(v)@, n as nat).1,
        final(v)@.len() == old(v)@.len(),
    decreases n,
{
    if n == 1 {
        let mut perms: Vec<Vec<T>> = Vec::new();
        perms.push(snapshot(v));
        assert(contents(perms@) =~= seq![v@]);
        return perms;
    }
    let mut perms: Vec<Vec<T>> = Vec::new();
    let mut x: usize = 0;
    assert(contents(perms@) =~= Seq::<Seq<T>>::empty());
    while x < n - 1
        invariant
            2 <= n <= v.len(),
            v.len() == old(v).len(),
            x <= n - 1,
            heap_run(old(v)@, n as nat).0 == contents(perms@) + heap_passes(
                v@,
                n as nat,
                x as nat,
            ).0,
            heap_run(old(v)@, n as nat).1 == heap_passes(v@, n as nat, x as nat).1,
        decreases n - 1 - x,
    {
        let ghost before = contents(perms@);
        let ghost start = v@;
        let mut pass = heaps_alg(v, n - 1);
        let ghost recorded = contents(pass@);
        perms.append(&mut pass);
        assert(contents(perms@) =~= before + recorded);
        let other: usize = if n % 2 == 0 {
            x
        } else {
            0
        };
        exchange(v, n - 1, other);
        proof {
            let rest = heap_passes(v@, n as nat, (x + 1) as nat);
            assert(heap_passes(start, n as nat, x as nat).0 == recorded + rest.0);
            assert((before + recorded) + rest.0 =~= before + (recorded + rest.0));
        }
        x += 1;
    }
    let ghost before = contents(perms@);
    let mut pass = heaps_alg(v, n - 1);
    let ghost recorded = contents(pass@);
    perms.append(&mut pass);
    assert(contents(perms@) =~= before + recorded);
    perms
}

/// Every ordering of `v`, each exactly once, in the generator's order. `v`
/// itself is left in the arrangement in which the run ends.
///
/// The generator does not take an empty `v`: there is nothing to order.
pub fn permutations<T: Copy>(v: &mut [T]) -> (perms: Vec<Vec<T>>)
    requires
        old(v).len() >= 1,
    ensures
        contents(perms@) == orderings(old(v)@),
        every_ordering_once(contents(perms@), old(v)@),
        final(v)@ == rest_arrangement(old(v)@),
        final(v)@.len() == old(v)@.len(),
{
    proof {
        lemma_every_ordering_once(v@);
    }
    let len = v.len();
    heaps_alg(v, len)
}

} // verus!
