//! What holds of the search: every candidate is a bag that the problem
//! admits, the solution is the best of them, and more capacity never gives
//! less value.

use crate::ordering_laws::{
    arranged, factorial, is_injection, lemma_orderings_by_place,
    lemma_orderings_count, lemma_place_orderings_bijective, lemma_place_orderings_complete,
    place_orderings,
};
use crate::permute::orderings;
use crate::problem::{
    feasible, included_value, included_weight, indexed, Item, Problem, SolutionView,
};
use crate::search::{
    bag, best_solution, candidates, last_best, marks, solve_outcome, total_value, total_weight,
};
use vstd::prelude::*;

verus! {

/// No two items of `b` carry the same position.
pub open spec fn distinct_indices(b: Seq<Item>) -> bool {
    forall|k1: int, k2: int|
        0 <= k1 < k2 < b.len() ==> (#[trigger] b[k1]).index != (#[trigger] b[k2]).index
}

/// Every item of `b` is the item of `items` at the position that it carries.
pub open spec fn drawn_from(b: Seq<Item>, items: Seq<Item>) -> bool {
    forall|k: int|
        0 <= k < b.len() ==> (#[trigger] b[k]).index < items.len() && items[b[k].index as int]
            == b[k]
}

// ---------------------------------------------------------------------------
// Sums.
// ---------------------------------------------------------------------------

/// Value and weight of two bags put together are the sums of theirs.
pub proof fn lemma_total_concat(a: Seq<Item>, b: Seq<Item>)
    ensures
        total_value(a + b) == total_value(a) + total_value(b),
        total_weight(a + b) == total_weight(a) + total_weight(b),
    decreases b.len(),
{
    if b.len() == 0 {
        assert(a + b =~= a);
    } else {
        assert((a + b).drop_last() =~= a + b.drop_last());
        lemma_total_concat(a, b.drop_last());
    }
}

/// Value and weight of a bag of one item are the item's.
pub proof fn lemma_total_single(item: Item)
    ensures
        total_value(seq![item]) == item.value,
        total_weight(seq![item]) == item.weight,
{
    let none = seq![item].drop_last();
    assert(none.len() == 0);
    assert(total_value(none) == 0);
    assert(total_weight(none) == 0);
}

/// One more item in the bag sets one more mark.
pub proof fn lemma_marks_push(b: Seq<Item>, item: Item, n: nat)
    requires
        item.index < n,
    ensures
        marks(b.push(item), n) == marks(b, n).update(item.index as int, true),
{
    let more = b.push(item);
    assert forall|i: int| 0 <= i < n implies marks(more, n)[i] == marks(b, n).update(
        item.index as int,
        true,
    )[i] by {
        if i == item.index {
            assert(more[b.len() as int].index == i);
        } else if marks(b, n)[i] {
            let k = choose|k: int| 0 <= k < b.len() && (#[trigger] b[k]).index == i;
            assert(more[k].index == i);
        } else if marks(more, n)[i] {
            let k = choose|k: int| 0 <= k < more.len() && (#[trigger] more[k]).index == i;
            assert(b[k].index == i);
        }
    }
    assert(marks(more, n) =~= marks(b, n).update(item.index as int, true));
}

/// Marks that agree on the positions of `items` mark the same weight and
/// value.
proof fn lemma_included_agree(items: Seq<Item>, a: Seq<bool>, b: Seq<bool>)
    requires
        forall|i: int| 0 <= i < items.len() ==> a[i] == b[i],
    ensures
        included_weight(items, a) == included_weight(items, b),
        included_value(items, a) == included_value(items, b),
    decreases items.len(),
{
    if items.len() > 0 {
        lemma_included_agree(items.drop_last(), a, b);
    }
}

/// Where nothing is marked, nothing is weighed or counted.
proof fn lemma_included_none(items: Seq<Item>, included: Seq<bool>)
    requires
        forall|i: int| 0 <= i < items.len() ==> !included[i],
    ensures
        included_weight(items, included) == 0,
        included_value(items, included) == 0,
    decreases items.len(),
{
    if items.len() > 0 {
        lemma_included_none(items.drop_last(), included);
    }
}

/// Marking one more position adds the weight and the value of the item
/// there.
proof fn lemma_included_one_more(items: Seq<Item>, included: Seq<bool>, j: int)
    requires
        0 <= j < items.len(),
        items.len() <= included.len(),
        !included[j],
    ensures
        included_weight(items, included.update(j, true)) == included_weight(items, included)
            + items[j].weight,
        included_value(items, included.update(j, true)) == included_value(items, included)
            + items[j].value,
    decreases items.len(),
{
    let front = items.drop_last();
    let more = included.update(j, true);
    if j == items.len() - 1 {
        lemma_included_agree(front, included, more);
    } else {
        lemma_included_one_more(front, included, j);
    }
}

/// The marks of a bag of the problem's own items, no item twice, mark as much
/// weight and value as the bag has.
proof fn lemma_marks_total(items: Seq<Item>, b: Seq<Item>)
    requires
        drawn_from(b, items),
        distinct_indices(b),
    ensures
        included_weight(items, marks(b, items.len())) == total_weight(b),
        included_value(items, marks(b, items.len())) == total_value(b),
    decreases b.len(),
{
    let n = items.len();
    if b.len() == 0 {
        lemma_included_none(items, marks(b, n));
    } else {
        let front = b.drop_last();
        let item = b.last();
        assert(b =~= front.push(item));
        lemma_marks_push(front, item, n);
        if marks(front, n)[item.index as int] {
            let k = choose|k: int| 0 <= k < front.len() && (#[trigger] front[k]).index == item.index;
            assert(b[k].index == b[b.len() - 1].index);
        }
        lemma_marks_total(items, front);
        lemma_included_one_more(items, marks(front, n), item.index as int);
    }
}

// ---------------------------------------------------------------------------
// One fill.
// ---------------------------------------------------------------------------

/// A greedy fill never exceeds the room that it finds.
pub proof fn lemma_bag_fits(o: Seq<Item>, room: int)
    requires
        0 <= room,
    ensures
        total_weight(bag(o, room)) <= room,
    decreases o.len(),
{
    if o.len() > 0 {
        let item = o.last();
        if item.weight <= room {
            lemma_bag_fits(o.drop_last(), room - item.weight);
            lemma_total_concat(seq![item], bag(o.drop_last(), room - item.weight));
            lemma_total_single(item);
        } else {
            lemma_bag_fits(o.drop_last(), room);
        }
    }
}

/// A greedy fill takes items of the ordering only, and none twice.
proof fn lemma_bag_drawn(o: Seq<Item>, room: int)
    requires
        distinct_indices(o),
    ensures
        distinct_indices(bag(o, room)),
        forall|k: int| 0 <= k < bag(o, room).len() ==> o.contains(#[trigger] bag(o, room)[k]),
    decreases o.len(),
{
    if o.len() > 0 {
        let item = o.last();
        let front = o.drop_last();
        let b = bag(o, room);
        let rest = if item.weight <= room {
            bag(front, room - item.weight)
        } else {
            bag(front, room)
        };
        if item.weight <= room {
            lemma_bag_drawn(front, room - item.weight);
        } else {
            lemma_bag_drawn(front, room);
        }
        assert forall|k: int| 0 <= k < rest.len() implies o.contains(#[trigger] rest[k])
            && rest[k].index != item.index by {
            assert(front.contains(rest[k]));
            let j = choose|j: int| 0 <= j < front.len() && front[j] == rest[k];
            assert(o[j] == rest[k]);
            assert(o[j].index != o[o.len() - 1].index);
        }
        if item.weight <= room {
            assert(o[o.len() - 1] == item);
            assert forall|k: int| 0 <= k < b.len() implies o.contains(#[trigger] b[k]) by {
                if k > 0 {
                    assert(b[k] == rest[k - 1]);
                }
            }
            assert forall|k1: int, k2: int| 0 <= k1 < k2 < b.len() implies (#[trigger] b[k1]).index
                != (#[trigger] b[k2]).index by {
                assert(b[k2] == rest[k2 - 1]);
                if k1 > 0 {
                    assert(b[k1] == rest[k1 - 1]);
                }
            }
        }
    }
}

/// Each recorded ordering of a well-formed item list holds the list's own
/// items, each once.
pub proof fn lemma_ordering_drawn(items: Seq<Item>, k: int)
    requires
        indexed(items),
        0 <= k < orderings(items).len(),
    ensures
        orderings(items)[k].len() == items.len(),
        drawn_from(orderings(items)[k], items),
        distinct_indices(orderings(items)[k]),
{
    let n = items.len();
    lemma_orderings_by_place(items);
    lemma_place_orderings_bijective(n, k);
    let p = place_orderings(n)[k];
    let o = orderings(items)[k];
    assert(o == arranged(items, p));
    assert forall|i: int| 0 <= i < o.len() implies (#[trigger] o[i]).index == p[i] by {
        assert(o[i] == items[p[i]]);
    }
}

// ---------------------------------------------------------------------------
// The laws.
// ---------------------------------------------------------------------------

/// There is at least one ordering of any sequence.
pub proof fn lemma_orderings_exist<A>(s: Seq<A>)
    ensures
        orderings(s).len() >= 1,
{
    lemma_orderings_count(s);
    lemma_factorial_positive(s.len());
}

proof fn lemma_factorial_positive(n: nat)
    ensures
        factorial(n) >= 1,
    decreases n,
{
    if n > 0 {
        lemma_factorial_positive((n - 1) as nat);
        assert(n * factorial((n - 1) as nat) >= 1) by (nonlinear_arith)
            requires
                n >= 1,
                factorial((n - 1) as nat) >= 1,
        ;
    }
}

/// Every candidate of a well-formed problem is a bag that the problem
/// admits: it has one mark per item, the marked items weigh no more than the
/// capacity, and its value is the value of the marked items.
pub proof fn lemma_candidate_feasible(capacity: u32, items: Seq<Item>, k: int)
    requires
        indexed(items),
        0 <= k < candidates(capacity, items).len(),
    ensures
        feasible(capacity, items, candidates(capacity, items)[k]),
{
    let o = orderings(items)[k];
    let b = bag(o, capacity as int);
    lemma_ordering_drawn(items, k);
    lemma_bag_drawn(o, capacity as int);
    lemma_bag_fits(o, capacity as int);
    assert forall|j: int| 0 <= j < b.len() implies (#[trigger] b[j]).index < items.len()
        && items[b[j].index as int] == b[j] by {
        assert(o.contains(b[j]));
        let i = choose|i: int| 0 <= i < o.len() && o[i] == b[j];
        assert(o[i].index < items.len());
    }
    lemma_marks_total(items, b);
}

/// The candidate that is kept is at least as good as every candidate, and
/// better than every later one.
pub proof fn lemma_last_best(c: Seq<SolutionView>)
    requires
        c.len() > 0,
    ensures
        0 <= last_best(c) < c.len(),
        forall|k: int| 0 <= k < c.len() ==> (#[trigger] c[k]).value <= c[last_best(c)].value,
        forall|k: int| last_best(c) < k < c.len() ==> (#[trigger] c[k]).value < c[last_best(c)].value,
    decreases c.len(),
{
    if c.len() > 1 {
        let front = c.drop_last();
        lemma_last_best(front);
        assert forall|k: int| 0 <= k < c.len() implies (#[trigger] c[k]).value <= c[last_best(
            c,
        )].value by {
            if k < c.len() - 1 {
                assert(front[k] == c[k]);
            }
        }
        assert forall|k: int| last_best(c) < k < c.len() implies (#[trigger] c[k]).value
            < c[last_best(c)].value by {
            if k < c.len() - 1 {
                assert(front[k] == c[k]);
            }
        }
    }
}

/// The solution of a well-formed problem is a bag that the problem admits.
pub proof fn lemma_best_feasible(capacity: u32, items: Seq<Item>)
    requires
        indexed(items),
    ensures
        feasible(capacity, items, best_solution(capacity, items)),
{
    lemma_orderings_exist(items);
    lemma_last_best(candidates(capacity, items));
    lemma_candidate_feasible(capacity, items, last_best(candidates(capacity, items)));
}

// ---------------------------------------------------------------------------
// More capacity never gives less value.
//
// The bag of the best ordering still fits when the capacity grows. There is
// an ordering that ends with the places of that bag; its fill takes them all
// before anything else, and every ordering is a candidate.
// ---------------------------------------------------------------------------

/// The places of the items that a greedy fill takes from `items` read through
/// `p`, in the order in which they go in.
spec fn taken_places(items: Seq<Item>, p: Seq<int>, room: int) -> Seq<int>
    decreases p.len(),
{
    if p.len() == 0 {
        Seq::empty()
    } else if items[p.last()].weight <= room {
        seq![p.last()] + taken_places(items, p.drop_last(), room - items[p.last()].weight)
    } else {
        taken_places(items, p.drop_last(), room)
    }
}

/// The places of the items that the same fill passes over, in the order of
/// `p`.
spec fn left_places(items: Seq<Item>, p: Seq<int>, room: int) -> Seq<int>
    decreases p.len(),
{
    if p.len() == 0 {
        Seq::empty()
    } else if items[p.last()].weight <= room {
        left_places(items, p.drop_last(), room - items[p.last()].weight)
    } else {
        left_places(items, p.drop_last(), room).push(p.last())
    }
}

/// The bag of a fill holds the items at the places that the fill takes.
proof fn lemma_taken_is_bag(items: Seq<Item>, p: Seq<int>, room: int)
    ensures
        bag(arranged(items, p), room) == arranged(items, taken_places(items, p, room)),
    decreases p.len(),
{
    let o = arranged(items, p);
    if p.len() > 0 {
        let front = p.drop_last();
        assert(o.drop_last() =~= arranged(items, front));
        assert(o.last() == items[p.last()]);
        if items[p.last()].weight <= room {
            let less = room - items[p.last()].weight;
            lemma_taken_is_bag(items, front, less);
            assert(seq![o.last()] + arranged(items, taken_places(items, front, less)) =~= arranged(
                items,
                taken_places(items, p, room),
            ));
        } else {
            lemma_taken_is_bag(items, front, room);
        }
    } else {
        assert(bag(o, room) =~= arranged(items, taken_places(items, p, room)));
    }
}

/// The places taken and the places passed over are the places of `p`, each
/// once.
proof fn lemma_places_split(items: Seq<Item>, p: Seq<int>, room: int)
    requires
        forall|i: int, j: int| 0 <= i < j < p.len() ==> p[i] != p[j],
    ensures
        ({
            let t = taken_places(items, p, room);
            let l = left_places(items, p, room);
            &&& t.len() + l.len() == p.len()
            &&& forall|a: int| 0 <= a < t.len() ==> p.contains(#[trigger] t[a])
            &&& forall|a: int| 0 <= a < l.len() ==> p.contains(#[trigger] l[a])
            &&& forall|a: int, b: int| 0 <= a < b < t.len() ==> t[a] != t[b]
            &&& forall|a: int, b: int| 0 <= a < b < l.len() ==> l[a] != l[b]
            &&& forall|a: int, b: int| 0 <= a < l.len() && 0 <= b < t.len() ==> l[a] != t[b]
        }),
    decreases p.len(),
{
    if p.len() > 0 {
        let front = p.drop_last();
        let last = p.last();
        let take = items[last].weight <= room;
        let less = if take {
            room - items[last].weight
        } else {
            room
        };
        let t0 = taken_places(items, front, less);
        let l0 = left_places(items, front, less);
        let t = taken_places(items, p, room);
        let l = left_places(items, p, room);
        lemma_places_split(items, front, less);
        assert forall|a: int| 0 <= a < t0.len() implies p.contains(#[trigger] t0[a]) && t0[a]
            != last by {
            assert(front.contains(t0[a]));
            let i = choose|i: int| 0 <= i < front.len() && front[i] == t0[a];
            assert(p[i] == t0[a]);
        }
        assert forall|a: int| 0 <= a < l0.len() implies p.contains(#[trigger] l0[a]) && l0[a]
            != last by {
            assert(front.contains(l0[a]));
            let i = choose|i: int| 0 <= i < front.len() && front[i] == l0[a];
            assert(p[i] == l0[a]);
        }
        assert(p[p.len() - 1] == last);
        if take {
            assert(t == seq![last] + t0);
            assert forall|a: int| 0 <= a < t.len() implies p.contains(#[trigger] t[a]) by {
                if a > 0 {
                    assert(t[a] == t0[a - 1]);
                }
            }
            assert forall|a: int, b: int| 0 <= a < b < t.len() implies t[a] != t[b] by {
                assert(t[b] == t0[b - 1]);
                if a > 0 {
                    assert(t[a] == t0[a - 1]);
                }
            }
            assert forall|a: int, b: int| 0 <= a < l.len() && 0 <= b < t.len() implies l[a]
                != t[b] by {
                if b > 0 {
                    assert(t[b] == t0[b - 1]);
                }
            }
        } else {
            assert(l == l0.push(last));
            assert forall|a: int| 0 <= a < l.len() implies p.contains(#[trigger] l[a]) by {
                if a < l0.len() {
                    assert(l[a] == l0[a]);
                }
            }
            assert forall|a: int, b: int| 0 <= a < b < l.len() implies l[a] != l[b] by {
                assert(l[a] == l0[a]);
                if b < l0.len() {
                    assert(l[b] == l0[b]);
                }
            }
            assert forall|a: int, b: int| 0 <= a < l.len() && 0 <= b < t.len() implies l[a]
                != t[b] by {
                if a < l0.len() {
                    assert(l[a] == l0[a]);
                }
            }
        }
    }
}

/// A fill of an ordering that ends with the places `q` takes the items there
/// before any other, if they fit together; so its bag is worth at least as
/// much as they are.
proof fn lemma_fits_all(items: Seq<Item>, before: Seq<int>, q: Seq<int>, room: int)
    requires
        total_weight(arranged(items, q)) <= room,
    ensures
        total_value(bag(arranged(items, before + q), room)) >= total_value(arranged(items, q)),
    decreases q.len(),
{
    let o = arranged(items, before + q);
    let held = arranged(items, q);
    if q.len() > 0 {
        let item = items[q.last()];
        let front = q.drop_last();
        assert(held.last() == item);
        assert(held.drop_last() =~= arranged(items, front));
        assert(o.last() == item);
        assert(o.drop_last() =~= arranged(items, before + front));
        lemma_fits_all(items, before, front, room - item.weight);
        lemma_total_concat(seq![item], bag(o.drop_last(), room - item.weight));
        lemma_total_single(item);
    }
}

/// Increasing the capacity while the items stay the same never decreases the
/// value of the solution.
pub proof fn lemma_value_monotone(smaller: u32, larger: u32, items: Seq<Item>)
    requires
        smaller <= larger,
    ensures
        best_solution(smaller, items).value <= best_solution(larger, items).value,
        solve_outcome(smaller, items) matches Ok(less) ==> solve_outcome(larger, items) matches Ok(
            more,
        ) && less.value <= more.value,
{
    let n = items.len();
    let low = candidates(smaller, items);
    let high = candidates(larger, items);
    lemma_orderings_exist(items);
    lemma_orderings_by_place(items);
    lemma_last_best(low);
    lemma_last_best(high);
    let k = last_best(low);
    let p = place_orderings(n)[k];
    lemma_place_orderings_bijective(n, k);
    assert(orderings(items)[k] == arranged(items, p));
    // The bag of the best ordering, by places.
    let t = taken_places(items, p, smaller as int);
    let l = left_places(items, p, smaller as int);
    lemma_taken_is_bag(items, p, smaller as int);
    lemma_bag_fits(arranged(items, p), smaller as int);
    lemma_places_split(items, p, smaller as int);
    // An ordering that ends with those places.
    let r = l + t;
    assert forall|i: int| 0 <= i < n implies 0 <= #[trigger] r[i] < n by {
        if i < l.len() {
            assert(p.contains(l[i]));
        } else {
            assert(r[i] == t[i - l.len()]);
            assert(p.contains(t[i - l.len()]));
        }
    }
    assert forall|i: int, j: int| 0 <= i < n && 0 <= j < n && r[i] == r[j] implies i == j by {
        if i < l.len() {
            assert(r[i] == l[i]);
        } else {
            assert(r[i] == t[i - l.len()]);
        }
        if j < l.len() {
            assert(r[j] == l[j]);
        } else {
            assert(r[j] == t[j - l.len()]);
        }
    }
    assert(is_injection(r, n));
    lemma_place_orderings_complete(n, r);
    let k2 = choose|k2: int| 0 <= k2 < place_orderings(n).len() && place_orderings(n)[k2] == r;
    assert(orderings(items)[k2] == arranged(items, r));
    lemma_fits_all(items, l, t, larger as int);
    assert(high[k2].value >= low[k].value);
}

/// What solving comes to depends on the capacity and the items alone: the
/// same problem has the same solution, however often it is solved.
pub proof fn lemma_outcome_determined(a: Problem, b: Problem)
    requires
        a.capacity == b.capacity,
        a.items@ == b.items@,
    ensures
        solve_outcome(a.capacity, a.items@) == solve_outcome(b.capacity, b.items@),
{
}

} // verus!
