//! Editing the length filters digit by digit, and the decimal text of counts.

use vstd::prelude::*;

use crate::strings::push_char;

verus! {

pub open spec fn digit_value(c: char) -> int {
    c as int - '0' as int
}

pub open spec fn is_ascii_digit(c: char) -> bool {
    '0' <= c && c <= '9'
}

/// The length bound after typing `digit` behind it: the number with that
/// digit appended, or `None` when the key is no ASCII digit or the number no
/// longer fits.
pub open spec fn spec_push_digit(current: Option<usize>, digit: char) -> Option<usize> {
    let base: int = match current {
        Some(value) => value as int,
        None => 0,
    };
    if is_ascii_digit(digit) && base * 10 + digit_value(digit) <= usize::MAX {
        Some((base * 10 + digit_value(digit)) as usize)
    } else {
        None
    }
}

/// The length bound after deleting its last digit; `None` once no digit is left.
pub open spec fn spec_pop_digit(current: Option<usize>) -> Option<usize> {
    match current {
        Some(value) => if value < 10 {
            None
        } else {
            Some(value / 10)
        },
        None => None,
    }
}

/// Appends a typed digit to a length bound, as its decimal text with the digit
/// appended reads back.
pub fn push_digit(current: Option<usize>, digit: char) -> (r: Option<usize>)
    ensures
        r == spec_push_digit(current, digit),
{
    if !('0' <= digit && digit <= '9') {
        return None;
    }
    let value = (digit as u32 - '0' as u32) as usize;
    let base = match current {
        Some(v) => v,
        None => 0,
    };
    match base.checked_mul(10) {
        Some(shifted) => shifted.checked_add(value),
        None => None,
    }
}

/// Deletes the last digit of a length bound; deleting the only digit clears it.
pub fn pop_digit(current: Option<usize>) -> (r: Option<usize>)
    ensures
        r == spec_pop_digit(current),
{
    match current {
        Some(value) => if value < 10 {
            None
        } else {
            Some(value / 10)
        },
        None => None,
    }
}

/// Deleting the digit just typed gives the bound back, except that a bound
/// of 0 with a digit typed behind it reads as that digit alone.
pub proof fn lemma_pop_undoes_push(current: Option<usize>, digit: char)
    requires
        spec_push_digit(current, digit) is Some,
        current != Some(0usize),
    ensures
        spec_pop_digit(spec_push_digit(current, digit)) == current,
{
    if let Some(value) = current {
        let d = digit_value(digit);
        assert((value * 10 + d) / 10 == value) by (nonlinear_arith)
            requires
                0 <= d <= 9,
                value >= 1,
        ;
    }
}

pub open spec fn digit_char(d: int) -> char {
    seq!['0', '1', '2', '3', '4', '5', '6', '7', '8', '9'][d]
}

/// The decimal digits of `n`, most significant first.
pub open spec fn decimal_chars(n: nat) -> Seq<char>
    decreases n,
{
    if n < 10 {
        seq![digit_char(n as int)]
    } else {
        decimal_chars(n / 10).push(digit_char((n % 10) as int))
    }
}

fn digit_to_char(d: usize) -> (c: char)
    requires
        d < 10,
    ensures
        c == digit_char(d as int),
{
    match d {
        0 => '0',
        1 => '1',
        2 => '2',
        3 => '3',
        4 => '4',
        5 => '5',
        6 => '6',
        7 => '7',
        8 => '8',
        _ => '9',
    }
}

/// The decimal text of `n`.
pub fn decimal(n: usize) -> (r: String)
    ensures
        r@ == decimal_chars(n as nat),
{
    let mut reversed: Vec<char> = Vec::new();
    let mut rest = n;
    loop
        invariant_except_break
            decimal_chars(n as nat) == decimal_chars(rest as nat) + reversed@.reverse(),
        ensures
            decimal_chars(n as nat) == reversed@.reverse(),
        decreases rest,
    {
        let ghost before = reversed@;
        reversed.push(digit_to_char(rest % 10));
        assert(reversed@.reverse() =~= seq![digit_char((rest % 10) as int)] + before.reverse());
        if rest < 10 {
            break;
        }
        rest = rest / 10;
    }
    let mut out = String::new();
    let mut i = reversed.len();
    while i > 0
        invariant
            i <= reversed@.len(),
            out@ == reversed@.subrange(i as int, reversed@.len() as int).reverse(),
        decreases i,
    {
        i = i - 1;
        assert(reversed@.subrange(i as int, reversed@.len() as int).reverse() =~= reversed@.subrange(
            i + 1,
            reversed@.len() as int,
        ).reverse().push(reversed@[i as int]));
        push_char(&mut out, reversed[i]);
    }
    assert(reversed@.subrange(0, reversed@.len() as int) =~= reversed@);
    out
}

pub open spec fn entries_word(deleted: usize) -> Seq<char> {
    if deleted == 1 {
        "entry"@
    } else {
        "entries"@
    }
}

/// The closing advice of the deletion notice.
pub open spec fn reload_advice() -> Seq<char> {
    ". Shells that were already open still hold them in memory, which is where Ctrl+R searches: run `fc -p $HISTFILE` in zsh (or `history -c && history -r` in bash), or open a new shell, to drop them."@
}

/// Tells the user how to make already-open shells forget the deleted entries.
///
/// Deleting rewrites the history file, but a shell keeps its own in-memory list
/// and searches that for Ctrl+R, so the entries stay findable until the shell
/// reloads. zsh only imports new lines into a running list, and `fc -R` adds to
/// it rather than replacing it, so the list has to be pushed and re-read from
/// the file: that is what `fc -p $HISTFILE` does.
pub fn deletion_notice(deleted: usize, path: &str) -> (r: String)
    ensures
        r@ == "unlog: removed "@ + decimal_chars(deleted as nat) + " "@ + entries_word(deleted)
            + " from "@ + path@ + reload_advice(),
{
    let mut out = String::from_str("unlog: removed ");
    let count = decimal(deleted);
    out.append(count.as_str());
    out.append(" ");
    out.append(if deleted == 1 {
        "entry"
    } else {
        "entries"
    });
    out.append(" from ");
    out.append(path);
    out.append(
        ". Shells that were already open still hold them in memory, which is where Ctrl+R searches: run `fc -p $HISTFILE` in zsh (or `history -c && history -r` in bash), or open a new shell, to drop them.",
    );
    out
}

} // verus!
