//! A small 0/1 knapsack solver: it tries every ordering of the items, fills a
//! bag greedily from the tail of each ordering, and keeps the best bag.
//!
//! [`solve`] takes a problem as text and gives the solution as text.
//! [`Problem::solve`] is the search itself, [`permutations`] the generator of
//! orderings that it rests on. The modules `ordering_laws` and `search_laws`
//! hold what is proved of them.

use vstd::prelude::*;

pub mod format;
pub mod ordering_laws;
pub mod parse;
pub mod permute;
pub mod problem;
pub mod search;
pub mod search_laws;
pub mod text;

pub use permute::permutations;
pub use problem::{FormatError, Item, Problem, Solution, SolveError};
pub use search::select_best;

verus! {

/// What solving a problem given as text comes to: why the text describes no
/// problem, or why the problem has no solution, or the solution as text.
pub open spec fn solve_text(input: Seq<char>) -> Result<Seq<char>, SolveError> {
    match parse::parse(input) {
        Err(e) => Err(SolveError::Format(e)),
        Ok(problem) => match search::solve_outcome(problem.capacity, problem.items) {
            Err(e) => Err(e),
            Ok(solution) => Ok(format::solution_text(solution)),
        },
    }
}

/// Reads a problem from `input`, solves it, and writes the solution as text.
pub fn solve(input: &str) -> (outcome: Result<String, SolveError>)
    ensures
        match outcome {
            Ok(text) => solve_text(input@) == Ok::<Seq<char>, SolveError>(text@),
            Err(e) => solve_text(input@) == Err::<Seq<char>, SolveError>(e),
        },
{
    let problem = match Problem::from_str(input) {
        Ok(problem) => problem,
        Err(e) => {
            return Err(SolveError::Format(e));
        },
    };
    match problem.solve() {
        Ok(solution) => Ok(solution.to_string()),
        Err(e) => Err(e),
    }
}

} // verus!
