//! Writing a solution as text.
//!
//! The first line holds the value and the label, the second one mark for each
//! item, in the order of the items; a mark is `1` or `0`, and so is the label.

use crate::problem::{Solution, SolutionView};
use vstd::prelude::*;
use vstd::string::StringExecFns;

verus! {

/// The character of the decimal digit `d`.
pub open spec fn digit_char(d: nat) -> char {
    if d == 0 {
        '0'
    } else if d == 1 {
        '1'
    } else if d == 2 {
        '2'
    } else if d == 3 {
        '3'
    } else if d == 4 {
        '4'
    } else if d == 5 {
        '5'
    } else if d == 6 {
        '6'
    } else if d == 7 {
        '7'
    } else if d == 8 {
        '8'
    } else {
        '9'
    }
}

/// `n` in decimal digits, without leading zeros.
pub open spec fn decimal(n: nat) -> Seq<char>
    decreases n,
{
    if n < 10 {
        seq![digit_char(n)]
    } else {
        decimal(n / 10).push(digit_char(n % 10))
    }
}

/// `1` for true, `0` for false.
pub open spec fn flag(b: bool) -> char {
    if b {
        '1'
    } else {
        '0'
    }
}

/// One flag for each mark, with one blank between two flags.
pub open spec fn flags(marks: Seq<bool>) -> Seq<char>
    decreases marks.len(),
{
    if marks.len() == 0 {
        Seq::empty()
    } else if marks.len() == 1 {
        seq![flag(marks[0])]
    } else {
        flags(marks.drop_last()) + seq![' ', flag(marks.last())]
    }
}

/// A solution as text: the value, a blank, the label and a line feed; then
/// the flags of the marks.
pub open spec fn solution_text(solution: SolutionView) -> Seq<char> {
    decimal(solution.value) + seq![' ', flag(solution.is_optimal), '\n'] + flags(
        solution.included,
    )
}

/// The decimal digit `d` as text.
fn digit_str(d: u8) -> (text: &'static str)
    requires
        d < 10,
    ensures
        text@ == seq![digit_char(d as nat)],
{
    proof {
        reveal_strlit("0");
        reveal_strlit("1");
        reveal_strlit("2");
        reveal_strlit("3");
        reveal_strlit("4");
        reveal_strlit("5");
        reveal_strlit("6");
        reveal_strlit("7");
        reveal_strlit("8");
        reveal_strlit("9");
    }
    let text = if d == 0 {
        "0"
    } else if d == 1 {
        "1"
    } else if d == 2 {
        "2"
    } else if d == 3 {
        "3"
    } else if d == 4 {
        "4"
    } else if d == 5 {
        "5"
    } else if d == 6 {
        "6"
    } else if d == 7 {
        "7"
    } else if d == 8 {
        "8"
    } else {
        "9"
    };
    assert(text@ =~= seq![digit_char(d as nat)]);
    text
}

/// Writes `n` in decimal digits at the end of `out`.
pub fn write_decimal(out: &mut String, n: u128)
    ensures
        final(out)@ == old(out)@ + decimal(n as nat),
    decreases n,
{
    if n >= 10 {
        write_decimal(out, n / 10);
    }
    let ghost before = out@;
    out.append(digit_str((n % 10) as u8));
    proof {
        if n >= 10 {
            assert(before + seq![digit_char((n % 10) as nat)] =~= old(out)@ + decimal(n as nat));
        } else {
            assert(before + seq![digit_char((n % 10) as nat)] =~= old(out)@ + decimal(n as nat));
        }
    }
}

/// Writes the flag of `b` at the end of `out`.
fn write_flag(out: &mut String, b: bool)
    ensures
        final(out)@ == old(out)@.push(flag(b)),
{
    proof {
        reveal_strlit("0");
        reveal_strlit("1");
    }
    let text = if b {
        "1"
    } else {
        "0"
    };
    out.append(text);
    assert(out@ =~= old(out)@.push(flag(b)));
}

impl Solution {
    /// The solution as text.
    pub fn to_string(&self) -> (text: String)
        ensures
            text@ == solution_text(self@),
    {
        let mut text = String::new();
        write_decimal(&mut text, self.value);
        proof {
            reveal_strlit(" ");
            reveal_strlit("\n");
        }
        text.append(" ");
        write_flag(&mut text, self.is_optimal);
        text.append("\n");
        let ghost head = text@;
        assert(head =~= decimal(self.value as nat) + seq![' ', flag(self.is_optimal), '\n']);
        let mut k: usize = 0;
        assert(self.included@.take(0).len() == 0);
        while k < self.included.len()
            invariant
                k <= self.included.len(),
                text@ == head + flags(self.included@.take(k as int)),
            decreases self.included.len() - k,
        {
            let ghost seen = self.included@.take(k + 1);
            assert(seen.drop_last() =~= self.included@.take(k as int));
            assert(seen.last() == self.included[k as int]);
            if k > 0 {
                proof {
                    reveal_strlit(" ");
                }
                text.append(" ");
            }
            write_flag(&mut text, self.included[k]);
            assert(text@ =~= head + flags(seen));
            k += 1;
        }
        assert(self.included@.take(k as int) =~= self.included@);
        text
    }
}

} // verus!
