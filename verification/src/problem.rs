//! The data of the solver: items, problems, solutions and errors.

use crate::format::{decimal, write_decimal};
use vstd::prelude::*;
use vstd::string::StringExecFns;

verus! {

/// One item of a problem. `index` is the item's position in the problem's
/// item list; a reordered copy of the list still tells where each item came
/// from.
#[derive(Clone, Copy, Debug, PartialEq, Eq, Structural)]
pub struct Item {
    pub index: usize,
    pub value: u32,
    pub weight: u32,
}

/// A knapsack problem: how much weight the bag carries, and the items to
/// choose from.
#[derive(Debug, PartialEq)]
pub struct Problem {
    pub capacity: u32,
    pub items: Vec<Item>,
}

/// What a [`Problem`] holds, in mathematical terms.
pub struct ProblemView {
    pub capacity: u32,
    pub items: Seq<Item>,
}

impl View for Problem {
    type V = ProblemView;

    open spec fn view(&self) -> ProblemView {
        ProblemView { capacity: self.capacity, items: self.items@ }
    }
}

/// A choice of items. `included[i]` tells whether the item at position `i` of
/// the problem is in the bag, `value` is what the bag is worth, and
/// `is_optimal` is the solver's label for its answer.
///
/// `value` is wide enough for the values of as many items as a list can
/// hold, so adding them up never overflows.
#[derive(Debug, PartialEq, Eq)]
pub struct Solution {
    pub value: u128,
    pub is_optimal: bool,
    pub included: Vec<bool>,
}

/// What a [`Solution`] holds, in mathematical terms.
pub struct SolutionView {
    pub value: nat,
    pub is_optimal: bool,
    pub included: Seq<bool>,
}

impl View for Solution {
    type V = SolutionView;

    open spec fn view(&self) -> SolutionView {
        SolutionView {
            value: self.value as nat,
            is_optimal: self.is_optimal,
            included: self.included@,
        }
    }
}

/// Why a text is no problem.
#[derive(Clone, Copy, Debug, PartialEq, Eq, Structural)]
pub enum FormatError {
    /// The text has no first line.
    MissingHeader,
    /// The first line does not begin with an item count and a capacity.
    MalformedHeader,
    /// The item line `line` (counted from 0 after the first line) does not
    /// begin with a value and a weight.
    MalformedItem { line: usize },
    /// The first line announces `declared` items and `found` item lines
    /// follow it.
    CountMismatch { declared: usize, found: usize },
}

/// Why there is no solution.
#[derive(Clone, Copy, Debug, PartialEq, Eq, Structural)]
pub enum SolveError {
    /// The text could not be read as a problem.
    Format(FormatError),
    /// There was no candidate to choose from.
    NoSolution,
}

/// Every item of `items` carries its own position.
pub open spec fn indexed(items: Seq<Item>) -> bool {
    forall|i: int| 0 <= i < items.len() ==> (#[trigger] items[i]).index == i
}

/// The weight of the items of `items` that `included` marks.
pub open spec fn included_weight(items: Seq<Item>, included: Seq<bool>) -> nat
    decreases items.len(),
{
    if items.len() == 0 {
        0
    } else {
        let rest = included_weight(items.drop_last(), included);
        if included[items.len() - 1] {
            rest + items.last().weight as nat
        } else {
            rest
        }
    }
}

/// The value of the items of `items` that `included` marks.
pub open spec fn included_value(items: Seq<Item>, included: Seq<bool>) -> nat
    decreases items.len(),
{
    if items.len() == 0 {
        0
    } else {
        let rest = included_value(items.drop_last(), included);
        if included[items.len() - 1] {
            rest + items.last().value as nat
        } else {
            rest
        }
    }
}

/// `solution` has one mark for each item of `items`, the marked items weigh
/// no more than `capacity`, and its value is the value of the marked items.
pub open spec fn feasible(capacity: u32, items: Seq<Item>, solution: SolutionView) -> bool {
    &&& solution.included.len() == items.len()
    &&& included_weight(items, solution.included) <= capacity
    &&& solution.value == included_value(items, solution.included)
}

impl Problem {
    /// The problem is well formed: every item carries its own position.
    pub open spec fn wf(&self) -> bool {
        indexed(self.items@)
    }

    /// `solution` marks one entry per item, its bag is no heavier than the
    /// problem allows, and its value is the value of its bag.
    pub open spec fn admits(&self, solution: SolutionView) -> bool {
        feasible(self.capacity, self.items@, solution)
    }

    /// Tells whether every item carries its own position.
    pub fn is_well_formed(&self) -> (ok: bool)
        ensures
            ok == self.wf(),
    {
        let mut i: usize = 0;
        while i < self.items.len()
            invariant
                i <= self.items.len(),
                forall|j: int| 0 <= j < i ==> (#[trigger] self.items@[j]).index == j,
            decreases self.items.len() - i,
        {
            if self.items[i].index != i {
                return false;
            }
            i += 1;
        }
        true
    }
}

impl FormatError {
    /// The error in words.
    pub fn message(&self) -> (text: String)
        ensures
            text@ == self.message_text(),
    {
        match self {
            FormatError::MissingHeader => "No first line".to_string(),
            FormatError::MalformedHeader => "Can't parse first line".to_string(),
            FormatError::MalformedItem { line } => {
                let mut text = "Can't create Item from line ".to_string();
                write_decimal(&mut text, *line as u128);
                text
            },
            FormatError::CountMismatch { declared, found } => {
                let mut text = "Mismatch between item count and collected items: ".to_string();
                write_decimal(&mut text, *declared as u128);
                text.append(", ");
                write_decimal(&mut text, *found as u128);
                text
            },
        }
    }

    /// The words of [`FormatError::message`]. The numbers are written in
    /// decimal digits.
    pub open spec fn message_text(&self) -> Seq<char> {
        match self {
            FormatError::MissingHeader => "No first line"@,
            FormatError::MalformedHeader => "Can't parse first line"@,
            FormatError::MalformedItem { line } => "Can't create Item from line "@ + decimal(
                *line as nat,
            ),
            FormatError::CountMismatch { declared, found } => {
                "Mismatch between item count and collected items: "@ + decimal(*declared as nat)
                    + ", "@ + decimal(*found as nat)
            },
        }
    }
}

impl SolveError {
    /// The error in words.
    pub fn message(&self) -> (text: String)
        ensures
            text@ == self.message_text(),
    {
        match self {
            SolveError::Format(e) => e.message(),
            SolveError::NoSolution => "No solutions found".to_string(),
        }
    }

    /// The words of [`SolveError::message`].
    pub open spec fn message_text(&self) -> Seq<char> {
        match self {
            SolveError::Format(e) => e.message_text(),
            SolveError::NoSolution => "No solutions found"@,
        }
    }
}

} // verus!
