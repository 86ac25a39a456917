//! Line identifiers: the implicit names of the two poles of every statement.

use vstd::prelude::*;
use vstd::string::*;
use crate::types::Line;

verus! {

/// The decimal digit for a number below ten.
pub open spec fn digit_char(d: nat) -> char {
    if d == 0 {
        '0'
    } else if d == 1 {
        '1'
    } else if d == 2 {
        '2'
    } else if d == 3 {
        '3'
    } else if d == 4 {
        '4'
    } else if d == 5 {
        '5'
    } else if d == 6 {
        '6'
    } else if d == 7 {
        '7'
    } else if d == 8 {
        '8'
    } else {
        '9'
    }
}

/// The decimal numeral of `n`, without leading zeros.
pub open spec fn decimal(n: nat) -> Seq<char>
    decreases n,
{
    if n < 10 {
        seq![digit_char(n)]
    } else {
        decimal(n / 10).push(digit_char(n % 10))
    }
}

/// The identifier of the output pole of statement `idx`: `L` and the index.
pub open spec fn output_label(idx: nat) -> Seq<char> {
    seq!['L'] + decimal(idx)
}

/// The identifier of the input pole of statement `idx`: `U` and the index.
pub open spec fn input_label(idx: nat) -> Seq<char> {
    seq!['U'] + decimal(idx)
}

/// The identifier of pole `pole` of statement `idx`: pole 1 is the input
/// pole, any other the output pole.
pub open spec fn pole_label(pole: usize, idx: nat) -> Seq<char> {
    if pole == 1 {
        input_label(idx)
    } else {
        output_label(idx)
    }
}

fn digit_text(d: usize) -> (r: &'static str)
    requires
        d < 10,
    ensures
        r@ == seq![digit_char(d as nat)],
{
    proof {
        reveal_strlit("0");
        reveal_strlit("1");
        reveal_strlit("2");
        reveal_strlit("3");
        reveal_strlit("4");
        reveal_strlit("5");
        reveal_strlit("6");
        reveal_strlit("7");
        reveal_strlit("8");
        reveal_strlit("9");
    }
    let r = if d == 0 {
        "0"
    } else if d == 1 {
        "1"
    } else if d == 2 {
        "2"
    } else if d == 3 {
        "3"
    } else if d == 4 {
        "4"
    } else if d == 5 {
        "5"
    } else if d == 6 {
        "6"
    } else if d == 7 {
        "7"
    } else if d == 8 {
        "8"
    } else {
        "9"
    };
    assert(r@ =~= seq![digit_char(d as nat)]);
    r
}

fn append_decimal(text: &mut String, n: usize)
    ensures
        final(text)@ == old(text)@ + decimal(n as nat),
    decreases n,
{
    if n >= 10 {
        append_decimal(text, n / 10);
    }
    text.append(digit_text(n % 10));
    assert(text@ =~= old(text)@ + decimal(n as nat));
}

/// The identifier of the output pole of statement `idx`.
pub fn output_line(idx: usize) -> (line: Line)
    ensures
        line@ == output_label(idx as nat),
{
    proof {
        reveal_strlit("L");
    }
    let mut line = String::from_str("L");
    assert(line@ =~= seq!['L']);
    append_decimal(&mut line, idx);
    line
}

/// The identifier of the input pole of statement `idx`.
pub fn input_line(idx: usize) -> (line: Line)
    ensures
        line@ == input_label(idx as nat),
{
    proof {
        reveal_strlit("U");
    }
    let mut line = String::from_str("U");
    assert(line@ =~= seq!['U']);
    append_decimal(&mut line, idx);
    line
}

} // verus!
