//! Reading words and numbers from a line of text.
//!
//! A line is made of words with white space between them; a number is an
//! optional `+` and then decimal digits.

use vstd::prelude::*;

verus! {

/// White space, as Unicode defines it.
pub open spec fn is_space(c: char) -> bool {
    let u = c as u32;
    ||| 0x09 <= u <= 0x0d
    ||| u == 0x20
    ||| u == 0x85
    ||| u == 0xa0
    ||| u == 0x1680
    ||| 0x2000 <= u <= 0x200a
    ||| u == 0x2028
    ||| u == 0x2029
    ||| u == 0x202f
    ||| u == 0x205f
    ||| u == 0x3000
}

/// A decimal digit.
pub open spec fn is_digit(c: char) -> bool {
    '0' <= c <= '9'
}

/// The first place at or after `from` that holds no white space; the length
/// of `line` where there is none.
pub open spec fn skip_spaces(line: Seq<char>, from: int) -> int
    decreases line.len() - from,
{
    if 0 <= from < line.len() && is_space(line[from]) {
        skip_spaces(line, from + 1)
    } else {
        from
    }
}

/// The first place at or after `from` that holds white space; the length of
/// `line` where there is none.
pub open spec fn skip_word(line: Seq<char>, from: int) -> int
    decreases line.len() - from,
{
    if 0 <= from < line.len() && !is_space(line[from]) {
        skip_word(line, from + 1)
    } else {
        from
    }
}

/// The first two words of `line`, where it has two.
pub open spec fn two_words(line: Seq<char>) -> Option<(Seq<char>, Seq<char>)> {
    let a = skip_spaces(line, 0);
    let b = skip_word(line, a);
    let c = skip_spaces(line, b);
    let d = skip_word(line, c);
    if a < b && c < d {
        Some((line.subrange(a, b), line.subrange(c, d)))
    } else {
        None
    }
}

/// The number that the digits `digits` write.
pub open spec fn digits_value(digits: Seq<char>) -> nat
    decreases digits.len(),
{
    if digits.len() == 0 {
        0
    } else {
        digits_value(digits.drop_last()) * 10 + (digits.last() as u32 - '0' as u32) as nat
    }
}

/// The digits of a word: the word without a leading `+`.
pub open spec fn digits_of(word: Seq<char>) -> Seq<char> {
    if word.len() > 0 && word[0] == '+' {
        word.drop_first()
    } else {
        word
    }
}

/// The number that `word` writes, if it writes one that is at most `max`:
/// an optional `+`, then one decimal digit or more.
pub open spec fn number(word: Seq<char>, max: nat) -> Option<nat> {
    let digits = digits_of(word);
    if digits.len() > 0 && (forall|i: int| 0 <= i < digits.len() ==> is_digit(#[trigger] digits[i]))
        && digits_value(digits) <= max {
        Some(digits_value(digits))
    } else {
        None
    }
}

/// The two numbers that `line` begins with, if its first two words are
/// numbers, the first at most `first_max` and the second at most
/// `second_max`.
pub open spec fn pair(line: Seq<char>, first_max: nat, second_max: nat) -> Option<(nat, nat)> {
    match two_words(line) {
        Some((first, second)) => match (number(first, first_max), number(second, second_max)) {
            (Some(a), Some(b)) => Some((a, b)),
            _ => None,
        },
        None => None,
    }
}

/// Tells whether `c` is white space.
pub fn white_space(c: char) -> (yes: bool)
    ensures
        yes == is_space(c),
{
    let u = c as u32;
    (0x09 <= u && u <= 0x0d) || u == 0x20 || u == 0x85 || u == 0xa0 || u == 0x1680 || (0x2000 <= u
        && u <= 0x200a) || u == 0x2028 || u == 0x2029 || u == 0x202f || u == 0x205f || u == 0x3000
}

/// The characters of `s`.
pub fn chars_of(s: &str) -> (chars: Vec<char>)
    ensures
        chars@ == s@,
{
    let mut chars: Vec<char> = Vec::new();
    for c in it: s.chars()
        invariant
            it.seq() == s@,
            chars@ == it.seq().take(it.index() as int),
    {
        chars.push(c);
    }
    assert(s@.take(s@.len() as int) =~= s@);
    chars
}

/// The first place at or after `from` that holds no white space.
fn scan_spaces(line: &Vec<char>, from: usize) -> (to: usize)
    requires
        from <= line.len(),
    ensures
        to == skip_spaces(line@, from as int),
        from <= to <= line.len(),
{
    let mut i = from;
    while i < line.len() && white_space(line[i])
        invariant
            from <= i <= line.len(),
            skip_spaces(line@, i as int) == skip_spaces(line@, from as int),
        decreases line.len() - i,
    {
        i += 1;
    }
    i
}

/// The first place at or after `from` that holds white space.
fn scan_word(line: &Vec<char>, from: usize) -> (to: usize)
    requires
        from <= line.len(),
    ensures
        to == skip_word(line@, from as int),
        from <= to <= line.len(),
{
    let mut i = from;
    while i < line.len() && !white_space(line[i])
        invariant
            from <= i <= line.len(),
            skip_word(line@, i as int) == skip_word(line@, from as int),
        decreases line.len() - i,
    {
        i += 1;
    }
    i
}

/// The digits of a longer number write at least as much as those they begin
/// with.
proof fn lemma_digits_value_grows(digits: Seq<char>, k: int)
    requires
        0 <= k <= digits.len(),
    ensures
        digits_value(digits.take(k)) <= digits_value(digits),
    decreases digits.len(),
{
    if k < digits.len() {
        let front = digits.drop_last();
        assert(front.take(k) =~= digits.take(k));
        lemma_digits_value_grows(front, k);
    } else {
        assert(digits.take(k) =~= digits);
    }
}

/// The number that the word from `from` to `to` of `line` writes, if it
/// writes one that is at most `max`.
pub fn read_number(line: &Vec<char>, from: usize, to: usize, max: u64) -> (value: Option<u64>)
    requires
        from <= to <= line.len(),
    ensures
        match number(line@.subrange(from as int, to as int), max as nat) {
            Some(n) => value == Some(n as u64),
            None => value is None,
        },
{
    let ghost word = line@.subrange(from as int, to as int);
    let mut start = from;
    if start < to && line[start] == '+' {
        start += 1;
    }
    let ghost digits = line@.subrange(start as int, to as int);
    assert(digits =~= digits_of(word));
    if start == to {
        return None;
    }
    let mut acc: u128 = 0;
    let mut i = start;
    assert(digits.take(0).len() == 0);
    while i < to
        invariant
            from <= start <= i <= to <= line.len(),
            digits == line@.subrange(start as int, to as int),
            digits == digits_of(line@.subrange(from as int, to as int)),
            forall|j: int| 0 <= j < i - start ==> is_digit(#[trigger] digits[j]),
            acc == digits_value(digits.take(i - start)),
            acc <= max,
        decreases to - i,
    {
        let c = line[i];
        assert(c == digits[i - start]);
        if !(c >= '0' && c <= '9') {
            return None;
        }
        let ghost seen = digits.take(i - start + 1);
        assert(seen.drop_last() =~= digits.take(i - start));
        assert(seen.last() == c);
        acc = acc * 10 + (c as u32 - '0' as u32) as u128;
        if acc > max as u128 {
            proof {
                lemma_digits_value_grows(digits, i - start + 1);
            }
            return None;
        }
        i += 1;
    }
    assert(digits.take(i - start) =~= digits);
    Some(acc as u64)
}

/// The two numbers that `line` begins with, if its first two words are
/// numbers, the first at most `first_max` and the second at most
/// `second_max`.
pub fn read_pair(line: &Vec<char>, first_max: u64, second_max: u64) -> (numbers: Option<(u64, u64)>)
    ensures
        match pair(line@, first_max as nat, second_max as nat) {
            Some((a, b)) => numbers == Some((a as u64, b as u64)),
            None => numbers is None,
        },
{
    let a = scan_spaces(line, 0);
    let b = scan_word(line, a);
    let c = scan_spaces(line, b);
    let d = scan_word(line, c);
    if a == b || c == d {
        return None;
    }
    match read_number(line, a, b, first_max) {
        None => None,
        Some(first) => match read_number(line, c, d, second_max) {
            None => None,
            Some(second) => Some((first, second)),
        },
    }
}

} // verus!
