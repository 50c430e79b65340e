//! The search: one greedy fill per ordering, and the best of the fills.

use crate::permute::{contents, orderings, permutations};
use crate::problem::{Item, Problem, Solution, SolutionView, SolveError};
use crate::search_laws::{
    lemma_best_feasible, lemma_marks_push, lemma_ordering_drawn, lemma_orderings_exist,
};
use vstd::prelude::*;

verus! {

/// The bag that a greedy fill makes of the ordering `o` when the bag has
/// `room` left, in the order in which the items go in. The fill takes the
/// items from the end of `o` towards its front; an item that fits goes in,
/// one that does not fit is passed over for good.
pub open spec fn bag(o: Seq<Item>, room: int) -> Seq<Item>
    decreases o.len(),
{
    if o.len() == 0 {
        Seq::empty()
    } else if o.last().weight <= room {
        seq![o.last()] + bag(o.drop_last(), room - o.last().weight)
    } else {
        bag(o.drop_last(), room)
    }
}

/// The values of the items of `b`, added up.
pub open spec fn total_value(b: Seq<Item>) -> nat
    decreases b.len(),
{
    if b.len() == 0 {
        0
    } else {
        total_value(b.drop_last()) + b.last().value as nat
    }
}

/// The weights of the items of `b`, added up.
pub open spec fn total_weight(b: Seq<Item>) -> nat
    decreases b.len(),
{
    if b.len() == 0 {
        0
    } else {
        total_weight(b.drop_last()) + b.last().weight as nat
    }
}

/// One mark for each of `n` positions: whether an item of `b` carries it.
pub open spec fn marks(b: Seq<Item>, n: nat) -> Seq<bool> {
    Seq::new(n, |i: int| exists|k: int| 0 <= k < b.len() && (#[trigger] b[k]).index == i)
}

/// The candidate that the ordering `o` gives for a bag of the given capacity
/// and a problem of `n` items.
pub open spec fn fill(capacity: u32, n: nat, o: Seq<Item>) -> SolutionView {
    SolutionView {
        value: total_value(bag(o, capacity as int)),
        is_optimal: true,
        included: marks(bag(o, capacity as int), n),
    }
}

/// The place of the candidate to keep: the last of those with the greatest
/// value. (0 where there is no candidate.)
pub open spec fn last_best(candidates: Seq<SolutionView>) -> int
    decreases candidates.len(),
{
    if candidates.len() <= 1 {
        0
    } else {
        let before = last_best(candidates.drop_last());
        if candidates.last().value >= candidates[before].value {
            candidates.len() - 1
        } else {
            before
        }
    }
}

/// What a list of solutions holds, in mathematical terms.
pub open spec fn views(list: Seq<Solution>) -> Seq<SolutionView> {
    Seq::new(list.len(), |k: int| list[k]@)
}

/// The candidates of a problem, one for each ordering of its items, in the
/// order in which the orderings are recorded.
pub open spec fn candidates(capacity: u32, items: Seq<Item>) -> Seq<SolutionView> {
    Seq::new(orderings(items).len(), |k: int| fill(capacity, items.len(), orderings(items)[k]))
}

/// The solution of a problem with at least one item: the last of its
/// candidates with the greatest value.
pub open spec fn best_solution(capacity: u32, items: Seq<Item>) -> SolutionView {
    candidates(capacity, items)[last_best(candidates(capacity, items))]
}

/// What solving a problem comes to: without items there is nothing to choose
/// from; with items, the best candidate.
pub open spec fn solve_outcome(capacity: u32, items: Seq<Item>) -> Result<SolutionView, SolveError> {
    if items.len() == 0 {
        Err(SolveError::NoSolution)
    } else {
        Ok(best_solution(capacity, items))
    }
}

/// What an outcome holds, in mathematical terms.
pub open spec fn outcome_view(outcome: Result<Solution, SolveError>) -> Result<
    SolutionView,
    SolveError,
> {
    match outcome {
        Ok(solution) => Ok(solution@),
        Err(e) => Err(e),
    }
}

/// A bag is worth no more than if each of its items had the greatest value
/// that an item can have.
proof fn lemma_total_value_bound(b: Seq<Item>)
    ensures
        total_value(b) <= b.len() * 0xffff_ffff,
    decreases b.len(),
{
    if b.len() > 0 {
        lemma_total_value_bound(b.drop_last());
        assert((b.len() - 1) * 0xffff_ffff + 0xffff_ffff == b.len() * 0xffff_ffff)
            by (nonlinear_arith);
    }
}

impl Problem {
    /// The greedy fill of one ordering: the candidate that it gives.
    pub fn evaluate(&self, ordering: &Vec<Item>) -> (candidate: Solution)
        requires
            forall|k: int| 0 <= k < ordering.len() ==> (#[trigger] ordering[k]).index < self.items.len(),
        ensures
            candidate@ == fill(self.capacity, self.items@.len(), ordering@),
    {
        let ghost whole = bag(ordering@, self.capacity as int);
        let mut taken: Vec<Item> = Vec::new();
        let mut room: u32 = self.capacity;
        let mut k: usize = ordering.len();
        assert(ordering@.take(k as int) =~= ordering@);
        while k > 0
            invariant
                k <= ordering.len(),
                whole == taken@ + bag(ordering@.take(k as int), room as int),
                forall|j: int| 0 <= j < taken.len() ==> (#[trigger] taken[j]).index < self.items.len(),
                forall|j: int|
                    0 <= j < ordering.len() ==> (#[trigger] ordering[j]).index < self.items.len(),
            decreases k,
        {
            let ghost front = ordering@.take(k as int);
            k -= 1;
            let item = ordering[k];
            assert(front.last() == item);
            assert(front.drop_last() =~= ordering@.take(k as int));
            if item.weight <= room {
                let ghost rest = bag(ordering@.take(k as int), room - item.weight);
                assert(taken@.push(item) + rest =~= taken@ + (seq![item] + rest));
                taken.push(item);
                room -= item.weight;
            }
        }
        assert(whole =~= taken@);
        let mut included: Vec<bool> = Vec::new();
        while included.len() < self.items.len()
            invariant
                included.len() <= self.items.len(),
                forall|i: int| 0 <= i < included.len() ==> !included[i],
            decreases self.items.len() - included.len(),
        {
            included.push(false);
        }
        let mut value: u128 = 0;
        let mut j: usize = 0;
        assert(included@ =~= marks(taken@.take(0), self.items@.len()));
        while j < taken.len()
            invariant
                j <= taken.len(),
                included@ == marks(taken@.take(j as int), self.items@.len()),
                value == total_value(taken@.take(j as int)),
                forall|i: int| 0 <= i < taken.len() ==> (#[trigger] taken[i]).index < self.items.len(),
            decreases taken.len() - j,
        {
            let item = taken[j];
            proof {
                let done = taken@.take(j as int);
                assert(taken@.take(j + 1) =~= done.push(item));
                assert(done.push(item).drop_last() =~= done);
                lemma_marks_push(done, item, self.items@.len());
                lemma_total_value_bound(done);
                assert(j * 0xffff_ffff <= 0xffff_ffff_ffff_ffff * 0xffff_ffff) by (nonlinear_arith)
                    requires
                        j <= 0xffff_ffff_ffff_ffff,
                ;
            }
            included.set(item.index, true);
            value = value + item.value as u128;
            j += 1;
        }
        assert(taken@.take(taken.len() as int) =~= taken@);
        Solution { value, is_optimal: true, included }
    }

    /// Solves the problem: tries every ordering of the items, fills a bag
    /// greedily from the tail of each, and returns the best bag; of several
    /// that are best, the one of the ordering recorded last. A problem
    /// without items has no solution.
    pub fn solve(&self) -> (outcome: Result<Solution, SolveError>)
        requires
            self.wf(),
        ensures
            outcome_view(outcome) == solve_outcome(self.capacity, self.items@),
            outcome matches Ok(solution) ==> self.admits(solution@),
    {
        if self.items.len() == 0 {
            return Err(SolveError::NoSolution);
        }
        let mut items = self.items.clone();
        assert(items@ =~= self.items@);
        let perms = permutations(&mut items);
        let ghost wanted = candidates(self.capacity, self.items@);
        let mut solutions: Vec<Solution> = Vec::new();
        let mut k: usize = 0;
        assert(wanted.len() == contents(perms@).len());
        assert(views(solutions@) =~= wanted.take(0));
        while k < perms.len()
            invariant
                self.wf(),
                k <= perms.len(),
                contents(perms@) == orderings(self.items@),
                wanted == candidates(self.capacity, self.items@),
                wanted.len() == perms.len(),
                solutions.len() == k,
                views(solutions@) == wanted.take(k as int),
            decreases perms.len() - k,
        {
            proof {
                assert(contents(perms@)[k as int] == perms[k as int]@);
                lemma_ordering_drawn(self.items@, k as int);
            }
            let ghost before = views(solutions@);
            let candidate = self.evaluate(&perms[k]);
            assert(wanted[k as int] == candidate@);
            solutions.push(candidate);
            assert forall|j: int| 0 <= j <= k implies views(solutions@)[j] == wanted[j] by {
                if j < k {
                    assert(views(solutions@)[j] == before[j]);
                    assert(before[j] == wanted.take(k as int)[j]);
                }
            }
            assert(views(solutions@) =~= wanted.take(k + 1));
            k += 1;
        }
        proof {
            assert(wanted.take(perms.len() as int) =~= wanted);
            lemma_orderings_exist(self.items@);
            lemma_best_feasible(self.capacity, self.items@);
        }
        select_best(solutions)
    }
}

/// The candidate to keep: the last of those with the greatest value. Without
/// a candidate there is no solution.
pub fn select_best(candidates: Vec<Solution>) -> (outcome: Result<Solution, SolveError>)
    ensures
        candidates.len() == 0 ==> outcome == Err::<Solution, SolveError>(SolveError::NoSolution),
        candidates.len() > 0 ==> outcome is Ok && outcome->Ok_0@ == views(candidates@)[last_best(
            views(candidates@),
        )],
{
    let mut candidates = candidates;
    if candidates.len() == 0 {
        return Err(SolveError::NoSolution);
    }
    let ghost all = views(candidates@);
    let mut best: usize = 0;
    let mut k: usize = 1;
    assert(all.take(1).len() == 1);
    while k < candidates.len()
        invariant
            1 <= k <= candidates.len(),
            all == views(candidates@),
            best == last_best(all.take(k as int)),
            best < k,
        decreases candidates.len() - k,
    {
        proof {
            let seen = all.take(k + 1);
            assert(seen.drop_last() =~= all.take(k as int));
            assert(seen.last() == candidates[k as int]@);
            assert(seen[best as int] == candidates[best as int]@);
        }
        if candidates[k].value >= candidates[best].value {
            best = k;
        }
        k += 1;
    }
    assert(all.take(candidates.len() as int) =~= all);
    let chosen = candidates.swap_remove(best);
    Ok(chosen)
}

} // verus!
