//! Reading a problem from text.
//!
//! The first line holds the number of items and the capacity, each further
//! line the value and the weight of one item. Lines end with a line feed; the
//! last one need not. Words are set apart by white space, and what follows
//! the second word of a line is not read.

use crate::problem::{FormatError, Item, Problem, ProblemView};
use crate::text::{chars_of, pair, read_pair};
use vstd::prelude::*;

verus! {

/// The first place at or after `from` that holds a line feed; the length of
/// `text` where there is none.
pub open spec fn line_end(text: Seq<char>, from: int) -> int
    decreases text.len() - from,
{
    if 0 <= from < text.len() && text[from] != '\n' {
        line_end(text, from + 1)
    } else {
        from
    }
}

/// A line ends at or after the place where it begins, and within the text.
pub proof fn lemma_line_end_range(text: Seq<char>, from: int)
    requires
        0 <= from <= text.len(),
    ensures
        from <= line_end(text, from) <= text.len(),
    decreases text.len() - from,
{
    if from < text.len() && text[from] != '\n' {
        lemma_line_end_range(text, from + 1);
    }
}

/// The lines of `text` from the place `from` on.
pub open spec fn lines_from(text: Seq<char>, from: int) -> Seq<Seq<char>>
    decreases text.len() + 1 - from,
    via lines_from_terminates
{
    if 0 <= from < text.len() {
        let end = line_end(text, from);
        seq![text.subrange(from, end)] + lines_from(text, end + 1)
    } else {
        Seq::empty()
    }
}

#[via_fn]
proof fn lines_from_terminates(text: Seq<char>, from: int) {
    if 0 <= from < text.len() {
        lemma_line_end_range(text, from);
    }
}

/// The lines of `text`: what stands between its line feeds, before the first
/// and after the last; but nothing after a line feed that ends the text.
pub open spec fn lines(text: Seq<char>) -> Seq<Seq<char>> {
    lines_from(text, 0)
}

/// The item that `line` describes, if it begins with a value and a weight;
/// `index` is the position that the item gets.
pub open spec fn item_of(line: Seq<char>, index: int) -> Option<Item> {
    match pair(line, u32::MAX as nat, u32::MAX as nat) {
        Some((value, weight)) => Some(
            Item { index: index as usize, value: value as u32, weight: weight as u32 },
        ),
        None => None,
    }
}

/// The first line at or after `from` that describes no item; the number of
/// lines where there is none.
pub open spec fn first_bad(lines: Seq<Seq<char>>, from: int) -> int
    decreases lines.len() - from,
{
    if 0 <= from < lines.len() && item_of(lines[from], 0) is Some {
        first_bad(lines, from + 1)
    } else {
        from
    }
}

/// The problem that `text` describes, or why it describes none: it has no
/// first line; the first line does not begin with a count and a capacity; a
/// later line, and which one first, does not begin with a value and a weight;
/// or there are more or fewer such lines than the count says.
pub open spec fn parse(text: Seq<char>) -> Result<ProblemView, FormatError> {
    let all = lines(text);
    if all.len() == 0 {
        Err(FormatError::MissingHeader)
    } else {
        match pair(all[0], usize::MAX as nat, u32::MAX as nat) {
            None => Err(FormatError::MalformedHeader),
            Some((count, capacity)) => {
                let bad = first_bad(all, 1);
                if bad < all.len() {
                    Err(FormatError::MalformedItem { line: (bad - 1) as usize })
                } else if all.len() - 1 != count {
                    Err(
                        FormatError::CountMismatch {
                            declared: count as usize,
                            found: (all.len() - 1) as usize,
                        },
                    )
                } else {
                    Ok(
                        ProblemView {
                            capacity: capacity as u32,
                            items: Seq::new(
                                (all.len() - 1) as nat,
                                |i: int| item_of(all[i + 1], i).unwrap(),
                            ),
                        },
                    )
                }
            },
        }
    }
}

/// What a list of lines holds, as sequences.
pub open spec fn line_contents(list: Seq<Vec<char>>) -> Seq<Seq<char>> {
    Seq::new(list.len(), |k: int| list[k]@)
}

/// The lines of `text`.
pub fn split_lines(text: &Vec<char>) -> (list: Vec<Vec<char>>)
    ensures
        line_contents(list@) == lines(text@),
{
    let mut list: Vec<Vec<char>> = Vec::new();
    let mut from: usize = 0;
    assert(line_contents(list@) =~= Seq::<Seq<char>>::empty());
    while from < text.len()
        invariant
            from <= text.len(),
            lines(text@) == line_contents(list@) + lines_from(text@, from as int),
        decreases text.len() - from,
    {
        let ghost before = line_contents(list@);
        let mut line: Vec<char> = Vec::new();
        let mut end: usize = from;
        assert(text@.subrange(from as int, end as int) =~= line@);
        while end < text.len() && text[end] != '\n'
            invariant
                from <= end <= text.len(),
                line@ == text@.subrange(from as int, end as int),
                line_end(text@, end as int) == line_end(text@, from as int),
            decreases text.len() - end,
        {
            line.push(text[end]);
            assert(text@.subrange(from as int, end + 1) =~= text@.subrange(
                from as int,
                end as int,
            ).push(text@[end as int]));
            end += 1;
        }
        list.push(line);
        proof {
            let rest = lines_from(text@, end + 1);
            assert(line_contents(list@) =~= before + seq![line@]);
            assert((before + seq![line@]) + rest =~= before + (seq![line@] + rest));
        }
        from = if end < text.len() {
            end + 1
        } else {
            end
        };
    }
    assert(line_contents(list@) + lines_from(text@, from as int) =~= line_contents(list@));
    list
}

impl Item {
    /// The item that a line of text describes: value and weight are the
    /// first two words of the line, and the position is 0.
    pub fn from_str(s: &str) -> (outcome: Result<Item, FormatError>)
        ensures
            match item_of(s@, 0) {
                Some(item) => outcome == Ok::<Item, FormatError>(item),
                None => outcome == Err::<Item, FormatError>(FormatError::MalformedItem { line: 0 }),
            },
    {
        let line = chars_of(s);
        match read_pair(&line, u32::MAX as u64, u32::MAX as u64) {
            Some((value, weight)) => Ok(Item { index: 0, value: value as u32, weight: weight as u32 }),
            None => Err(FormatError::MalformedItem { line: 0 }),
        }
    }
}

impl Problem {
    /// The problem that a text describes. The items get their positions in
    /// the order of their lines, from 0.
    pub fn from_str(s: &str) -> (outcome: Result<Problem, FormatError>)
        ensures
            match outcome {
                Ok(problem) => parse(s@) == Ok::<ProblemView, FormatError>(problem@) && problem.wf(),
                Err(e) => parse(s@) == Err::<ProblemView, FormatError>(e),
            },
    {
        let text = chars_of(s);
        let all = split_lines(&text);
        let ghost content = lines(s@);
        if all.len() == 0 {
            return Err(FormatError::MissingHeader);
        }
        assert(content[0] == all[0]@);
        let (count, capacity) = match read_pair(&all[0], usize::MAX as u64, u32::MAX as u64) {
            None => {
                return Err(FormatError::MalformedHeader);
            },
            Some(header) => header,
        };
        let mut items: Vec<Item> = Vec::new();
        let mut k: usize = 1;
        while k < all.len()
            invariant
                1 <= k <= all.len(),
                content == line_contents(all@),
                content == lines(s@),
                pair(content[0], usize::MAX as nat, u32::MAX as nat) == Some(
                    (count as nat, capacity as nat),
                ),
                items.len() == k - 1,
                first_bad(content, k as int) == first_bad(content, 1),
                forall|i: int| 0 <= i < k - 1 ==> item_of(content[i + 1], i) == Some(#[trigger] items[i]),
            decreases all.len() - k,
        {
            assert(content[k as int] == all[k as int]@);
            match read_pair(&all[k], u32::MAX as u64, u32::MAX as u64) {
                None => {
                    return Err(FormatError::MalformedItem { line: k - 1 });
                },
                Some((value, weight)) => {
                    items.push(Item { index: k - 1, value: value as u32, weight: weight as u32 });
                },
            }
            k += 1;
        }
        if items.len() != count as usize {
            return Err(FormatError::CountMismatch { declared: count as usize, found: items.len() });
        }
        let problem = Problem { capacity: capacity as u32, items };
        proof {
            let wanted = parse(s@)->Ok_0;
            assert(problem@.items =~= wanted.items);
        }
        Ok(problem)
    }
}

} // verus!
