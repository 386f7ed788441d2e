//! The decisions of the command line: what an argument asks for, and what an
//! answer to a yes-or-no question says.

use crate::config::{chars_of, spells};
use vstd::prelude::*;

verus! {

/// What the program is asked to do.
#[derive(PartialEq, Eq, Structural, Clone, Copy, Debug)]
pub enum Operation {
    /// Create the table file by user input.
    Conf,
    /// Pick items and print them.
    Pick,
    /// Calculate and print probabilities of being picked up.
    Calc,
    /// Generate results and print the frequency table.
    Test,
}

/// One command-line argument.
#[derive(PartialEq, Eq, Structural, Clone, Copy, Debug)]
pub enum Arg {
    /// `conf`, `calc` or `test`.
    Operation(Operation),
    /// `-n`: no warning for a nonuniform distribution.
    KnowNonuniform,
    /// `-f`: the fast generator instead of the OS random source.
    UseFastRng,
    /// A number: the amount of items to pick.
    Amount(usize),
    /// Anything else, which may name the table file.
    Other,
}

pub open spec fn is_digit(c: char) -> bool {
    '0' <= c <= '9'
}

/// The value of a string of decimal digits.
pub open spec fn digits_value(s: Seq<char>) -> nat
    decreases s.len(),
{
    if s.len() == 0 {
        0
    } else {
        digits_value(s.drop_last()) * 10 + (s.last() as nat - '0' as nat) as nat
    }
}

/// One or more digits, of a value that fits in `usize`.
pub open spec fn digits_of(d: Seq<char>) -> Option<usize> {
    if d.len() > 0 && (forall|i: int| 0 <= i < d.len() ==> is_digit(#[trigger] d[i]))
        && digits_value(d) <= usize::MAX {
        Some(digits_value(d) as usize)
    } else {
        None
    }
}

/// `s` without a leading `+`.
pub open spec fn unsigned_part(s: Seq<char>) -> Seq<char> {
    if s.len() > 0 && s[0] == '+' {
        s.drop_first()
    } else {
        s
    }
}

/// An unsigned decimal number as `usize::from_str` reads it: an optional `+`,
/// then one or more digits, of a value that fits.
pub open spec fn usize_of(s: Seq<char>) -> Option<usize> {
    digits_of(unsigned_part(s))
}

/// What the argument `a` asks for.
pub open spec fn arg_of(a: Seq<char>) -> Arg {
    if a == "conf"@ {
        Arg::Operation(Operation::Conf)
    } else if a == "calc"@ {
        Arg::Operation(Operation::Calc)
    } else if a == "test"@ {
        Arg::Operation(Operation::Test)
    } else if a == "-n"@ {
        Arg::KnowNonuniform
    } else if a == "-f"@ {
        Arg::UseFastRng
    } else {
        match usize_of(a) {
            Some(n) => Arg::Amount(n),
            None => Arg::Other,
        }
    }
}

proof fn lemma_digits_value_grows(s: Seq<char>, i: int)
    requires
        0 <= i <= s.len(),
        forall|k: int| 0 <= k < s.len() ==> is_digit(#[trigger] s[k]),
    ensures
        digits_value(s.take(i)) <= digits_value(s),
    decreases s.len() - i,
{
    if i < s.len() {
        lemma_digits_value_grows(s, i + 1);
        assert(s.take(i + 1).drop_last() == s.take(i));
    } else {
        assert(s.take(i) == s);
    }
}

/// Reads the digits `cs[from..]` as `usize_of` does, after its sign.
fn read_digits(cs: &Vec<char>, from: usize) -> (r: Option<usize>)
    requires
        from <= cs@.len(),
    ensures
        r == digits_of(cs@.subrange(from as int, cs@.len() as int)),
{
    let ghost d = cs@.subrange(from as int, cs@.len() as int);
    if from == cs.len() {
        return None;
    }
    let mut v: usize = 0;
    let mut i: usize = from;
    while i < cs.len()
        invariant
            from <= i <= cs@.len(),
            d == cs@.subrange(from as int, cs@.len() as int),
            forall|k: int| 0 <= k < i - from ==> is_digit(#[trigger] d[k]),
            v as nat == digits_value(d.take(i - from)),
        decreases cs@.len() - i,
    {
        let c = cs[i];
        let ghost k = i - from;
        proof {
            assert(d.take(k + 1).drop_last() == d.take(k));
            assert(d.take(k + 1).last() == c);
        }
        if c < '0' || c > '9' {
            assert(!is_digit(d[k]));
            return None;
        }
        let digit = (c as u32 - '0' as u32) as usize;
        match v.checked_mul(10) {
            Some(t) => match t.checked_add(digit) {
                Some(u) => {
                    v = u;
                },
                None => {
                    proof {
                        assert(forall|j: int| 0 <= j < k + 1 ==> is_digit(#[trigger] d.take(k + 1)[j]));
                    }
                    return read_digits_overflow(cs, from, i);
                },
            },
            None => {
                return read_digits_overflow(cs, from, i);
            },
        }
        i = i + 1;
    }
    assert(d.take(i - from) == d);
    Some(v)
}

/// The digits `cs[from..=i]` already make a value over `usize::MAX`: the
/// whole reads as `None`.
fn read_digits_overflow(cs: &Vec<char>, from: usize, i: usize) -> (r: Option<usize>)
    requires
        from <= i < cs@.len(),
        forall|k: int| 0 <= k <= i - from ==> is_digit(#[trigger] cs@.subrange(from as int, cs@.len() as int)[k]),
        digits_value(cs@.subrange(from as int, cs@.len() as int).take(i - from)) * 10 + (
        cs@[i as int] as nat - '0' as nat) > usize::MAX,
    ensures
        r == digits_of(cs@.subrange(from as int, cs@.len() as int)),
{
    let ghost d = cs@.subrange(from as int, cs@.len() as int);
    proof {
        let k = i - from;
        if forall|j: int| 0 <= j < d.len() ==> is_digit(#[trigger] d[j]) {
            assert(d.take(k + 1).drop_last() == d.take(k));
            lemma_digits_value_grows(d, k + 1);
        }
    }
    None
}

/// What the command-line argument `arg` asks for.
pub fn classify_arg(arg: &str) -> (r: Arg)
    ensures
        r == arg_of(arg@),
{
    let cs = chars_of(arg);
    let n = cs.len();
    assert(cs@.subrange(0, n as int) =~= arg@);
    if spells(&cs, 0, n, "conf") {
        return Arg::Operation(Operation::Conf);
    }
    if spells(&cs, 0, n, "calc") {
        return Arg::Operation(Operation::Calc);
    }
    if spells(&cs, 0, n, "test") {
        return Arg::Operation(Operation::Test);
    }
    if spells(&cs, 0, n, "-n") {
        return Arg::KnowNonuniform;
    }
    if spells(&cs, 0, n, "-f") {
        return Arg::UseFastRng;
    }
    let from: usize = if n > 0 && cs[0] == '+' {
        1
    } else {
        0
    };
    assert(cs@.subrange(from as int, n as int) =~= unsigned_part(arg@));
    match read_digits(&cs, from) {
        Some(v) => Arg::Amount(v),
        None => Arg::Other,
    }
}

/// White space as Unicode defines it, which `str::trim` removes.
pub open spec fn is_white_space(c: char) -> bool {
    ||| '\u{9}' <= c <= '\u{d}'
    ||| c == ' ' || c == '\u{85}' || c == '\u{a0}' || c == '\u{1680}'
    ||| '\u{2000}' <= c <= '\u{200a}'
    ||| c == '\u{2028}' || c == '\u{2029}' || c == '\u{202f}' || c == '\u{205f}'
    ||| c == '\u{3000}'
}

/// The first character of `s` that is not white space.
pub open spec fn first_visible(s: Seq<char>) -> Option<char>
    decreases s.len(),
{
    if s.len() == 0 {
        None
    } else if is_white_space(s[0]) {
        first_visible(s.drop_first())
    } else {
        Some(s[0])
    }
}

/// What an answer to a yes-or-no question says: yes where its first visible
/// character is `Y` or `y`, no where it is `N` or `n`.
pub open spec fn answer_of(s: Seq<char>) -> Option<bool> {
    match first_visible(s) {
        Some(c) => if c == 'Y' || c == 'y' {
            Some(true)
        } else if c == 'N' || c == 'n' {
            Some(false)
        } else {
            None
        },
        None => None,
    }
}

fn white_space(c: char) -> (r: bool)
    ensures
        r == is_white_space(c),
{
    ('\u{9}' <= c && c <= '\u{d}') || c == ' ' || c == '\u{85}' || c == '\u{a0}' || c
        == '\u{1680}' || ('\u{2000}' <= c && c <= '\u{200a}') || c == '\u{2028}' || c
        == '\u{2029}' || c == '\u{202f}' || c == '\u{205f}' || c == '\u{3000}'
}

/// Reads an answer to a yes-or-no question.
pub fn read_answer(s: &str) -> (r: Option<bool>)
    ensures
        r == answer_of(s@),
{
    let cs = chars_of(s);
    assert(cs@.subrange(0, cs@.len() as int) =~= s@);
    let mut i: usize = 0;
    while i < cs.len()
        invariant
            i <= cs@.len(),
            cs@ == s@,
            first_visible(cs@.subrange(i as int, cs@.len() as int)) == first_visible(s@),
        decreases cs@.len() - i,
    {
        let c = cs[i];
        proof {
            let rest = cs@.subrange(i as int, cs@.len() as int);
            assert(rest[0] == c);
            assert(rest.drop_first() == cs@.subrange(i + 1, cs@.len() as int));
        }
        if !white_space(c) {
            if c == 'Y' || c == 'y' {
                return Some(true);
            } else if c == 'N' || c == 'n' {
                return Some(false);
            } else {
                return None;
            }
        }
        i = i + 1;
    }
    proof {
        assert(cs@.subrange(i as int, cs@.len() as int).len() == 0);
    }
    None
}

} // verus!
