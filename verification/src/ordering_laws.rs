//! What the generator of [`crate::permute`] produces: every ordering, each
//! exactly once.
//!
//! The generator only moves places, so the orderings of any sequence are the
//! orderings of the places `0, 1, ..., n - 1` read through the sequence. The
//! laws are therefore stated for orderings of places, and carried over to
//! arbitrary sequences by [`lemma_orderings_by_place`].
//!
//! The proof follows the arrangement through a run. A run of level `n` makes
//! `n` passes, each a run of level `n - 1` that leaves the last of the `n`
//! places alone. `source` says in closed form what each place holds when a
//! pass begins, `target` what it holds when the run has ended; with them the
//! last place is seen to hold a different element during each pass, and each
//! of the `n` elements during one of them. By induction on `n` the passes
//! then record different orderings, and all of them.

use crate::permute::{heap_passes, heap_run, orderings, partner, swapped};
use vstd::prelude::*;

verus! {

/// The places `0, 1, ..., len - 1` in their own order.
pub open spec fn identity(len: nat) -> Seq<int> {
    Seq::new(len, |i: int| i)
}

/// `s` read through the places `p`: the element at place `i` of the result is
/// the element at place `p[i]` of `s`.
pub open spec fn arranged<A>(s: Seq<A>, p: Seq<int>) -> Seq<A> {
    Seq::new(p.len(), |i: int| s[p[i]])
}

/// Each ordering of `ps`, read through `s`.
pub open spec fn arranged_each<A>(s: Seq<A>, ps: Seq<Seq<int>>) -> Seq<Seq<A>> {
    Seq::new(ps.len(), |k: int| arranged(s, ps[k]))
}

/// `p` lists places below `len`, none of them twice.
pub open spec fn is_injection(p: Seq<int>, len: nat) -> bool {
    &&& p.len() == len
    &&& forall|i: int| 0 <= i < len ==> 0 <= #[trigger] p[i] < len
    &&& forall|i: int, j: int| 0 <= i < len && 0 <= j < len && p[i] == p[j] ==> i == j
}

/// `p` lists each of the places `0, 1, ..., len - 1` exactly once.
pub open spec fn is_bijection(p: Seq<int>, len: nat) -> bool {
    &&& is_injection(p, len)
    &&& forall|v: int| 0 <= v < len ==> #[trigger] p.contains(v)
}

/// `n!`
pub open spec fn factorial(n: nat) -> nat
    decreases n,
{
    if n == 0 {
        1
    } else {
        n * factorial((n - 1) as nat)
    }
}

/// The orderings of the places `0, 1, ..., n - 1`, in the generator's order.
pub open spec fn place_orderings(n: nat) -> Seq<Seq<int>> {
    orderings(identity(n))
}

/// `list` holds every ordering of `s` exactly once: it has `n!` entries for
/// the `n` elements of `s`, each entry is `s` read through a bijection of its
/// places, no two entries through the same one, and no bijection is left out.
pub open spec fn every_ordering_once<A>(list: Seq<Seq<A>>, s: Seq<A>) -> bool {
    exists|places: Seq<Seq<int>>|
        {
            &&& list.len() == factorial(s.len())
            &&& #[trigger] places.len() == list.len()
            &&& forall|k: int|
                0 <= k < list.len() ==> is_bijection(#[trigger] places[k], s.len()) && list[k]
                    == arranged(s, places[k])
            &&& forall|k1: int, k2: int|
                0 <= k1 < list.len() && 0 <= k2 < list.len() && k1 != k2 ==> #[trigger] places[k1]
                    != #[trigger] places[k2]
            &&& forall|p: Seq<int>| is_bijection(p, s.len()) ==> #[trigger] places.contains(p)
        }
}

// ---------------------------------------------------------------------------
// Where a run leaves each element.
//
// A level-`n` run from the identity ends with place `i` holding `target(n, i)`,
// and finds place `i` holding `source(n, x, i)` when pass `x` begins.
// ---------------------------------------------------------------------------

/// What place `i` holds when a level-`n` run from the identity has ended.
spec fn target(n: int, i: int) -> int {
    if i >= n {
        i
    } else if n % 2 == 1 {
        if i == 0 {
            n - 1
        } else if i == n - 1 {
            0
        } else {
            i
        }
    } else if i == n - 1 {
        0
    } else if i == n - 2 {
        n - 1
    } else if i == 0 {
        n - 3
    } else if i == 1 {
        n - 2
    } else {
        i - 1
    }
}

/// For even `n`: what the last of the `n` places holds during pass `x`.
spec fn last_even(n: int, x: int) -> int {
    if x == 0 {
        n - 1
    } else if x == 1 {
        n - 2
    } else if x == n - 1 {
        0
    } else {
        x - 1
    }
}

/// For even `n`: what place `i` holds when pass `x` begins.
spec fn source_even(n: int, x: int, i: int) -> int {
    if i >= n || x == 0 {
        i
    } else if i == n - 1 {
        last_even(n, x)
    } else if i == 0 {
        if x % 2 == 1 {
            n - 1
        } else {
            0
        }
    } else if i < x {
        last_even(n, i)
    } else if i == n - 2 {
        if x % 2 == 1 {
            0
        } else {
            n - 1
        }
    } else {
        i
    }
}

/// For odd `n`, one pass and the exchange after it move every element one
/// step along a single cycle through all `n` places. This is the place at
/// step `k` of that cycle.
spec fn cycle_place(n: int, k: int) -> int {
    if k == 0 {
        0
    } else if k == 1 {
        n - 1
    } else if k == n - 1 {
        n - 2
    } else if k == n - 2 {
        n - 3
    } else {
        n - 2 - k
    }
}

/// For odd `n`: the step of the cycle at which place `i` stands.
spec fn cycle_step(n: int, i: int) -> int {
    if i == 0 {
        0
    } else if i == n - 1 {
        1
    } else if i == n - 2 {
        n - 1
    } else if i == n - 3 {
        n - 2
    } else {
        n - 2 - i
    }
}

/// For odd `n`: what place `i` holds when pass `x` begins.
spec fn source_odd(n: int, x: int, i: int) -> int {
    if i >= n {
        i
    } else {
        let k = cycle_step(n, i) + x;
        cycle_place(
            n,
            if k >= n {
                k - n
            } else {
                k
            },
        )
    }
}

/// What place `i` holds when pass `x` of a level-`n` run from the identity
/// begins.
spec fn source(n: int, x: int, i: int) -> int {
    if n % 2 == 0 {
        source_even(n, x, i)
    } else {
        source_odd(n, x, i)
    }
}

/// The pass of a level-`n` run during which the last of the `n` places holds
/// what the identity has at place `j`.
spec fn pass_of(n: int, j: int) -> int {
    if n % 2 == 0 {
        if j == n - 1 {
            0
        } else if j == n - 2 {
            1
        } else if j == 0 {
            n - 1
        } else {
            j + 1
        }
    } else {
        let k = cycle_step(n, j) - 1;
        if k < 0 {
            k + n
        } else {
            k
        }
    }
}

proof fn lemma_target_range(n: int, i: int)
    requires
        1 <= n,
        0 <= i,
    ensures
        i < n ==> 0 <= target(n, i) < n,
        i >= n ==> target(n, i) == i,
{
}

proof fn lemma_source_range(n: int, x: int, i: int)
    requires
        1 <= n,
        0 <= x < n,
        0 <= i,
    ensures
        i < n ==> 0 <= source(n, x, i) < n,
        i >= n ==> source(n, x, i) == i,
        source(n, 0, i) == i,
{
}

/// The exchange after pass `x` turns what the pass left into what pass
/// `x + 1` finds.
proof fn lemma_source_step(n: int, x: int, i: int)
    requires
        2 <= n,
        0 <= x,
        x + 1 < n,
        0 <= i,
    ensures
        source(n, x + 1, i) == ({
            let j = partner(n as nat, x as nat);
            if i == n - 1 {
                source(n, x, target(n - 1, j))
            } else if i == j {
                source(n, x, target(n - 1, n - 1))
            } else {
                source(n, x, target(n - 1, i))
            }
        }),
{
}

/// The last pass leaves the arrangement in which the run ends.
proof fn lemma_source_finish(n: int, i: int)
    requires
        2 <= n,
        0 <= i,
    ensures
        source(n, n - 1, target(n - 1, i)) == target(n, i),
{
}

/// During different passes the last place holds different elements, and
/// every element of the first `n` places has its pass.
proof fn lemma_pass_of(n: int, x: int, j: int)
    requires
        1 <= n,
        0 <= x < n,
        0 <= j < n,
    ensures
        0 <= pass_of(n, j) < n,
        source(n, pass_of(n, j), n - 1) == j,
        pass_of(n, source(n, x, n - 1)) == x,
{
}

// ---------------------------------------------------------------------------
// What every run keeps.
// ---------------------------------------------------------------------------

/// A level-`n` run keeps the length, and leaves the places from `n` on as
/// they are, in what it records and in what it leaves behind.
proof fn lemma_passes_keep<A>(s: Seq<A>, n: nat, x: nat)
    requires
        n <= s.len(),
    ensures
        heap_passes(s, n, x).1.len() == s.len(),
        forall|i: int| n <= i < s.len() ==> heap_passes(s, n, x).1[i] == s[i],
        forall|k: int|
            0 <= k < heap_passes(s, n, x).0.len() ==> (#[trigger] heap_passes(s, n, x).0[k]).len()
                == s.len(),
        forall|k: int, i: int|
            0 <= k < heap_passes(s, n, x).0.len() && n <= i < s.len() ==> #[trigger] heap_passes(
                s,
                n,
                x,
            ).0[k][i] == s[i],
    decreases n, n - x,
{
    if n >= 2 {
        let pass = heap_passes(s, (n - 1) as nat, 0);
        lemma_passes_keep(s, (n - 1) as nat, 0);
        if x + 1 < n {
            let next = swapped(pass.1, n - 1, partner(n, x));
            lemma_passes_keep(next, n, x + 1);
            assert forall|i: int| n <= i < s.len() implies heap_passes(s, n, x).1[i] == s[i] by {
                assert(next[i] == pass.1[i]);
            }
        }
    }
}

/// Exchanging two places of a bijection gives a bijection.
proof fn lemma_swapped_bijection(p: Seq<int>, i: int, j: int)
    requires
        is_bijection(p, p.len()),
        0 <= i < p.len(),
        0 <= j < p.len(),
    ensures
        is_bijection(swapped(p, i, j), p.len()),
{
    let q = swapped(p, i, j);
    assert forall|v: int| 0 <= v < p.len() implies #[trigger] q.contains(v) by {
        assert(p.contains(v));
        let a = choose|a: int| 0 <= a < p.len() && p[a] == v;
        let b = if a == i {
            j
        } else if a == j {
            i
        } else {
            a
        };
        assert(q[b] == v);
    }
}

/// A run from a bijection records bijections only, and leaves one behind.
proof fn lemma_passes_bijections(s: Seq<int>, n: nat, x: nat)
    requires
        is_bijection(s, s.len()),
        n <= s.len(),
    ensures
        is_bijection(heap_passes(s, n, x).1, s.len()),
        forall|k: int|
            0 <= k < heap_passes(s, n, x).0.len() ==> is_bijection(
                #[trigger] heap_passes(s, n, x).0[k],
                s.len(),
            ),
    decreases n, n - x,
{
    if n >= 2 {
        let pass = heap_passes(s, (n - 1) as nat, 0);
        lemma_passes_bijections(s, (n - 1) as nat, 0);
        if x + 1 < n {
            lemma_swapped_bijection(pass.1, n - 1, partner(n, x));
            let next = swapped(pass.1, n - 1, partner(n, x));
            lemma_passes_bijections(next, n, x + 1);
        }
    }
}

/// A run on `s` read through `p` is the run on `p`, read through `s`.
proof fn lemma_passes_by_place<A>(s: Seq<A>, p: Seq<int>, n: nat, x: nat)
    requires
        n <= p.len(),
    ensures
        heap_passes(arranged(s, p), n, x).0 == arranged_each(s, heap_passes(p, n, x).0),
        heap_passes(arranged(s, p), n, x).1 == arranged(s, heap_passes(p, n, x).1),
    decreases n, n - x,
{
    if n <= 1 {
        assert(seq![arranged(s, p)] =~= arranged_each(s, seq![p]));
    } else {
        let pass = heap_passes(p, (n - 1) as nat, 0);
        lemma_passes_by_place(s, p, (n - 1) as nat, 0);
        if x + 1 < n {
            let j = partner(n, x);
            lemma_passes_keep(p, (n - 1) as nat, 0);
            let next = swapped(pass.1, n - 1, j);
            assert(swapped(arranged(s, pass.1), n - 1, j) =~= arranged(s, next));
            lemma_passes_by_place(s, next, n, x + 1);
            let rest = heap_passes(next, n, x + 1);
            assert(arranged_each(s, pass.0) + arranged_each(s, rest.0) =~= arranged_each(
                s,
                pass.0 + rest.0,
            ));
        }
    }
}

/// Passes `x` to `n - 1` of a level-`n` run record `(n - x) * (n - 1)!`
/// orderings.
proof fn lemma_passes_count<A>(s: Seq<A>, n: nat, x: nat)
    requires
        1 <= n,
        x < n,
    ensures
        heap_passes(s, n, x).0.len() == (n - x) * factorial((n - 1) as nat),
    decreases n, n - x,
{
    let f = factorial((n - 1) as nat);
    if n == 1 {
        assert(factorial(0) == 1);
    } else {
        let pass = heap_passes(s, (n - 1) as nat, 0);
        lemma_passes_count(s, (n - 1) as nat, 0);
        assert(f == (n - 1) * factorial((n - 2) as nat));
        if x + 1 < n {
            let next = swapped(pass.1, n - 1, partner(n, x));
            lemma_passes_count(next, n, x + 1);
            assert((n - x) * f == f + (n - (x + 1)) * f) by (nonlinear_arith);
        } else {
            assert((n - x) * f == f) by (nonlinear_arith)
                requires
                    n - x == 1,
            ;
        }
    }
}

// ---------------------------------------------------------------------------
// The arrangement before each pass, and after the run.
// ---------------------------------------------------------------------------

/// What each place holds when a level-`n` run from the identity has ended.
spec fn target_places(n: nat, len: nat) -> Seq<int> {
    Seq::new(len, |i: int| target(n as int, i))
}

/// What each place holds when pass `x` of a level-`n` run from the identity
/// begins.
spec fn source_places(n: nat, x: nat, len: nat) -> Seq<int> {
    Seq::new(len, |i: int| source(n as int, x as int, i))
}

/// The first pass of a run begins with the arrangement as it is.
proof fn lemma_first_pass<A>(s: Seq<A>, n: nat)
    requires
        1 <= n,
    ensures
        arranged(s, source_places(n, 0, s.len())) == s,
{
    let first = source_places(n, 0, s.len());
    assert forall|i: int| 0 <= i < s.len() implies #[trigger] first[i] == i by {
        lemma_source_range(n as int, 0, i);
    }
    assert(arranged(s, first) =~= s);
}

/// Pass `x` of a level-`n` run from `s` begins with `s` read through
/// `source_places(n, x, ..)`. Then the exchange after the pass leads to what
/// pass `x + 1` begins with, and the last pass to what the run ends with.
proof fn lemma_pass_outcome<A>(s: Seq<A>, n: nat, x: nat)
    requires
        2 <= n <= s.len(),
        x < n,
    ensures
        ({
            let found = arranged(s, source_places(n, x, s.len()));
            let left = heap_run(found, (n - 1) as nat).1;
            &&& x + 1 < n ==> swapped(left, n - 1, partner(n, x)) == arranged(
                s,
                source_places(n, x + 1, s.len()),
            )
            &&& x + 1 == n ==> left == arranged(s, target_places(n, s.len()))
        }),
    decreases n, 0nat, 0nat,
{
    let len = s.len();
    let found = arranged(s, source_places(n, x, len));
    let left = heap_run(found, (n - 1) as nat).1;
    let inner = target_places((n - 1) as nat, len);
    lemma_run_end(len, (n - 1) as nat);
    lemma_passes_by_place(found, identity(len), (n - 1) as nat, 0);
    assert(arranged(found, identity(len)) =~= found);
    assert(left == arranged(found, inner));
    assert forall|i: int| 0 <= i < len implies 0 <= #[trigger] inner[i] < len && left[i]
        == s[source(n as int, x as int, inner[i])] by {
        lemma_target_range(n - 1, i);
        lemma_source_range(n as int, x as int, inner[i]);
    }
    if x + 1 < n {
        let j = partner(n, x);
        let after = swapped(left, n - 1, j);
        let next = arranged(s, source_places(n, x + 1, len));
        assert forall|i: int| 0 <= i < len implies after[i] == next[i] by {
            lemma_source_step(n as int, x as int, i);
        }
        assert(after =~= next);
    } else {
        let end = arranged(s, target_places(n, len));
        assert forall|i: int| 0 <= i < len implies left[i] == end[i] by {
            lemma_source_finish(n as int, i);
        }
        assert(left =~= end);
    }
}

/// Passes `x` to `n - 1` of a level-`n` run from the identity end with
/// `target_places(n, ..)`.
proof fn lemma_passes_end(len: nat, n: nat, x: nat)
    requires
        2 <= n <= len,
        x < n,
    ensures
        heap_passes(source_places(n, x, len), n, x).1 == target_places(n, len),
    decreases n, 1nat, n - x,
{
    let found = source_places(n, x, len);
    assert(arranged(identity(len), found) =~= found) by {
        assert forall|i: int| 0 <= i < len implies 0 <= #[trigger] found[i] < len by {
            lemma_source_range(n as int, x as int, i);
        }
    }
    lemma_pass_outcome(identity(len), n, x);
    if x + 1 < n {
        let next = source_places(n, x + 1, len);
        assert(arranged(identity(len), next) =~= next) by {
            assert forall|i: int| 0 <= i < len implies 0 <= #[trigger] next[i] < len by {
                lemma_source_range(n as int, x as int + 1, i);
            }
        }
        lemma_passes_end(len, n, x + 1);
    } else {
        let end = target_places(n, len);
        assert(arranged(identity(len), end) =~= end) by {
            assert forall|i: int| 0 <= i < len implies 0 <= #[trigger] end[i] < len by {
                lemma_target_range(n as int, i);
            }
        }
    }
}

/// A level-`n` run from the identity ends with `target_places(n, ..)`.
proof fn lemma_run_end(len: nat, n: nat)
    requires
        1 <= n <= len,
    ensures
        heap_run(identity(len), n).1 == target_places(n, len),
    decreases n, 2nat, 0nat,
{
    if n == 1 {
        assert(identity(len) =~= target_places(n, len));
    } else {
        assert(source_places(n, 0, len) =~= identity(len));
        lemma_passes_end(len, n, 0);
    }
}

// ---------------------------------------------------------------------------
// No ordering twice, and none left out.
// ---------------------------------------------------------------------------

/// Passes `x` to `n - 1` of a level-`n` run from the bijection `s`, where
/// pass `x` begins with `found`, record no ordering twice; and in none of them
/// the last of the `n` places holds what it held during an earlier pass.
proof fn lemma_passes_distinct(s: Seq<int>, found: Seq<int>, n: nat, x: nat)
    requires
        is_bijection(s, s.len()),
        is_bijection(found, s.len()),
        1 <= n <= s.len(),
        x < n,
        found == arranged(s, source_places(n, x, s.len())),
    ensures
        forall|k1: int, k2: int|
            0 <= k1 < k2 < heap_passes(found, n, x).0.len() ==> #[trigger] heap_passes(
                found,
                n,
                x,
            ).0[k1] != #[trigger] heap_passes(found, n, x).0[k2],
        forall|k: int, y: int|
            #![trigger heap_passes(found, n, x).0[k], source(n as int, y, n - 1)]
            0 <= k < heap_passes(found, n, x).0.len() && 0 <= y < x ==> heap_passes(
                found,
                n,
                x,
            ).0[k][n - 1] != s[source(n as int, y, n - 1)],
    decreases n, n - x,
{
    let len = s.len();
    let out = heap_passes(found, n, x).0;
    if n >= 2 {
        let pass = heap_passes(found, (n - 1) as nat, 0);
        let held = source(n as int, x as int, n - 1);
        lemma_first_pass(found, (n - 1) as nat);
        lemma_passes_distinct(found, found, (n - 1) as nat, 0);
        lemma_passes_keep(found, (n - 1) as nat, 0);
        lemma_source_range(n as int, x as int, n - 1);
        assert(found[n - 1] == s[held]);
        assert forall|k: int, y: int|
            #![trigger pass.0[k], source(n as int, y, n - 1)]
            0 <= k < pass.0.len() && 0 <= y < x implies pass.0[k][n - 1] != s[source(
            n as int,
            y,
            n - 1,
        )] by {
            lemma_source_range(n as int, y, n - 1);
            lemma_pass_of(n as int, x as int, 0);
            lemma_pass_of(n as int, y, 0);
        }
        if x + 1 < n {
            lemma_pass_outcome(s, n, x);
            lemma_passes_bijections(found, (n - 1) as nat, 0);
            lemma_swapped_bijection(pass.1, n - 1, partner(n, x));
            let next = swapped(pass.1, n - 1, partner(n, x));
            lemma_passes_distinct(s, next, n, x + 1);
            let rest = heap_passes(next, n, x + 1);
            assert(out == pass.0 + rest.0);
            assert forall|k1: int, k2: int| 0 <= k1 < k2 < out.len() implies #[trigger] out[k1]
                != #[trigger] out[k2] by {
                if k2 < pass.0.len() {
                    assert(pass.0[k1] != pass.0[k2]);
                } else if k1 >= pass.0.len() {
                    assert(rest.0[k1 - pass.0.len()] != rest.0[k2 - pass.0.len()]);
                } else {
                    let late = rest.0[k2 - pass.0.len()];
                    assert(pass.0[k1][n - 1] == s[held]);
                    assert(late[n - 1] != s[source(n as int, x as int, n - 1)]);
                }
            }
            assert forall|k: int, y: int|
                #![trigger out[k], source(n as int, y, n - 1)]
                0 <= k < out.len() && 0 <= y < x implies out[k][n - 1] != s[source(
                n as int,
                y,
                n - 1,
            )] by {
                if k < pass.0.len() {
                    assert(out[k] == pass.0[k]);
                } else {
                    assert(out[k] == rest.0[k - pass.0.len()]);
                }
            }
        }
    }
}

/// A level-`n` run from the bijection `s` records every injection that
/// differs from `s` in the first `n` places only.
proof fn lemma_run_complete(s: Seq<int>, n: nat, t: Seq<int>)
    requires
        is_bijection(s, s.len()),
        1 <= n <= s.len(),
        is_injection(t, s.len()),
        forall|i: int| n <= i < s.len() ==> t[i] == s[i],
    ensures
        heap_run(s, n).0.contains(t),
    decreases n, 1nat, 0nat,
{
    let len = s.len();
    assert(s.contains(t[n - 1]));
    let j = choose|j: int| 0 <= j < len && s[j] == t[n - 1];
    if j >= n {
        assert(t[j] == t[n - 1]);
    }
    if n == 1 {
        assert(t =~= s);
        assert(seq![s][0] == t);
    } else {
        lemma_pass_of(n as int, 0, j);
        lemma_first_pass(s, n);
        lemma_passes_complete(s, s, n, 0, t, pass_of(n as int, j) as nat);
    }
}

/// Passes `x` to `n - 1` of a level-`n` run from the bijection `s`, where
/// pass `x` begins with `found`, record the injection `t` if it differs from
/// `s` in the first `n` places only and has at the last of them what pass `y`
/// holds there, for a `y` from `x` on.
proof fn lemma_passes_complete(s: Seq<int>, found: Seq<int>, n: nat, x: nat, t: Seq<int>, y: nat)
    requires
        is_bijection(s, s.len()),
        is_bijection(found, s.len()),
        2 <= n <= s.len(),
        x <= y < n,
        found == arranged(s, source_places(n, x, s.len())),
        is_injection(t, s.len()),
        forall|i: int| n <= i < s.len() ==> t[i] == s[i],
        t[n - 1] == s[source(n as int, y as int, n - 1)],
    ensures
        heap_passes(found, n, x).0.contains(t),
    decreases n, 0nat, n - x,
{
    let len = s.len();
    let out = heap_passes(found, n, x).0;
    let pass = heap_passes(found, (n - 1) as nat, 0);
    if y == x {
        assert forall|i: int| n - 1 <= i < len implies t[i] == found[i] by {
            lemma_source_range(n as int, x as int, i);
        }
        lemma_run_complete(found, (n - 1) as nat, t);
        let k = choose|k: int| 0 <= k < pass.0.len() && pass.0[k] == t;
        assert(out[k] == t);
    } else {
        lemma_pass_outcome(s, n, x);
        lemma_passes_bijections(found, (n - 1) as nat, 0);
        lemma_swapped_bijection(pass.1, n - 1, partner(n, x));
        let next = swapped(pass.1, n - 1, partner(n, x));
        lemma_passes_complete(s, next, n, x + 1, t, y);
        let rest = heap_passes(next, n, x + 1);
        let k = choose|k: int| 0 <= k < rest.0.len() && rest.0[k] == t;
        assert(out[pass.0.len() + k] == t);
    }
}

proof fn lemma_identity_bijection(n: nat)
    ensures
        is_bijection(identity(n), n),
{
    assert forall|v: int| 0 <= v < n implies #[trigger] identity(n).contains(v) by {
        assert(identity(n)[v] == v);
    }
}

// ---------------------------------------------------------------------------
// The laws.
// ---------------------------------------------------------------------------

/// A sequence of `n` elements has `n!` recorded orderings.
pub proof fn lemma_orderings_count<A>(s: Seq<A>)
    ensures
        orderings(s).len() == factorial(s.len()),
{
    if s.len() >= 1 {
        lemma_passes_count(s, s.len(), 0);
    }
}

/// The recorded orderings of any sequence are the recorded orderings of its
/// places, each read through the sequence.
pub proof fn lemma_orderings_by_place<A>(s: Seq<A>)
    ensures
        orderings(s) == arranged_each(s, place_orderings(s.len())),
{
    let n = s.len();
    assert(arranged(s, identity(n)) =~= s);
    lemma_passes_by_place(s, identity(n), n, 0);
}

/// Each recorded ordering of the places `0, 1, ..., n - 1` lists every place
/// exactly once.
pub proof fn lemma_place_orderings_bijective(n: nat, k: int)
    requires
        0 <= k < place_orderings(n).len(),
    ensures
        is_bijection(place_orderings(n)[k], n),
{
    lemma_identity_bijection(n);
    lemma_passes_bijections(identity(n), n, 0);
}

/// No ordering of the places is recorded twice.
pub proof fn lemma_place_orderings_distinct(n: nat, k1: int, k2: int)
    requires
        0 <= k1 < place_orderings(n).len(),
        0 <= k2 < place_orderings(n).len(),
        k1 != k2,
    ensures
        place_orderings(n)[k1] != place_orderings(n)[k2],
{
    if n >= 1 {
        let s = identity(n);
        lemma_identity_bijection(n);
        lemma_first_pass(s, n);
        lemma_passes_distinct(s, s, n, 0);
        let out = heap_passes(s, n, 0).0;
        if k1 < k2 {
            assert(out[k1] != out[k2]);
        } else {
            assert(out[k2] != out[k1]);
        }
    }
}

/// Every ordering of the places `0, 1, ..., n - 1` is recorded.
pub proof fn lemma_place_orderings_complete(n: nat, p: Seq<int>)
    requires
        is_injection(p, n),
    ensures
        place_orderings(n).contains(p),
{
    if n == 0 {
        assert(p =~= identity(n));
        assert(place_orderings(n)[0] == p);
    } else {
        lemma_identity_bijection(n);
        lemma_run_complete(identity(n), n, p);
    }
}

/// The recorded orderings of a sequence are all its orderings, each once.
pub proof fn lemma_every_ordering_once<A>(s: Seq<A>)
    ensures
        every_ordering_once(orderings(s), s),
{
    let n = s.len();
    let places = place_orderings(n);
    lemma_orderings_count(s);
    lemma_orderings_by_place(s);
    assert(places.len() == orderings(s).len());
    assert forall|k: int| 0 <= k < places.len() implies is_bijection(#[trigger] places[k], n)
        && orderings(s)[k] == arranged(s, places[k]) by {
        lemma_place_orderings_bijective(n, k);
    }
    assert forall|k1: int, k2: int|
        0 <= k1 < places.len() && 0 <= k2 < places.len() && k1 != k2 implies #[trigger] places[k1]
        != #[trigger] places[k2] by {
        lemma_place_orderings_distinct(n, k1, k2);
    }
    assert forall|p: Seq<int>| is_bijection(p, n) implies #[trigger] places.contains(p) by {
        lemma_place_orderings_complete(n, p);
    }
}

/// Of a sequence in which no element occurs twice, no ordering is recorded
/// twice.
pub proof fn lemma_orderings_distinct<A>(s: Seq<A>, k1: int, k2: int)
    requires
        s.no_duplicates(),
        0 <= k1 < orderings(s).len(),
        0 <= k2 < orderings(s).len(),
        k1 != k2,
    ensures
        orderings(s)[k1] != orderings(s)[k2],
{
    let n = s.len();
    lemma_orderings_by_place(s);
    lemma_place_orderings_bijective(n, k1);
    lemma_place_orderings_bijective(n, k2);
    lemma_place_orderings_distinct(n, k1, k2);
    let first = place_orderings(n)[k1];
    let second = place_orderings(n)[k2];
    if arranged(s, first) == arranged(s, second) {
        assert forall|i: int| 0 <= i < n implies first[i] == second[i] by {
            assert(arranged(s, first)[i] == s[first[i]]);
            assert(arranged(s, second)[i] == s[second[i]]);
        }
        assert(first =~= second);
    }
}

} // verus!
