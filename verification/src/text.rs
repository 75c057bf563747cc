//! Numbers and tours as text.

use vstd::prelude::*;
use vstd::string::StringExecFns;

verus! {

/// The character of one decimal digit.
pub open spec fn digit_char(d: nat) -> char {
    if d == 0 {
        '0'
    } else if d == 1 {
        '1'
    } else if d == 2 {
        '2'
    } else if d == 3 {
        '3'
    } else if d == 4 {
        '4'
    } else if d == 5 {
        '5'
    } else if d == 6 {
        '6'
    } else if d == 7 {
        '7'
    } else if d == 8 {
        '8'
    } else {
        '9'
    }
}

/// A number in decimal digits, without leading zeros.
pub open spec fn decimal(v: nat) -> Seq<char>
    decreases v,
{
    if v < 10 {
        seq![digit_char(v)]
    } else {
        decimal(v / 10).push(digit_char(v % 10))
    }
}

/// The nodes of a path in decimal, with an arrow between neighbours.
pub open spec fn arrows(p: Seq<usize>) -> Seq<char>
    decreases p.len(),
{
    if p.len() == 0 {
        Seq::empty()
    } else if p.len() == 1 {
        decimal(p[0] as nat)
    } else {
        arrows(p.drop_last()) + " -> "@ + decimal(p.last() as nat)
    }
}

/// One decimal digit as text.
fn digit_text(d: usize) -> (s: &'static str)
    requires
        d < 10,
    ensures
        s@ =~= seq![digit_char(d as nat)],
{
    proof {
        reveal_strlit("0");
        reveal_strlit("1");
        reveal_strlit("2");
        reveal_strlit("3");
        reveal_strlit("4");
        reveal_strlit("5");
        reveal_strlit("6");
        reveal_strlit("7");
        reveal_strlit("8");
        reveal_strlit("9");
    }
    if d == 0 {
        "0"
    } else if d == 1 {
        "1"
    } else if d == 2 {
        "2"
    } else if d == 3 {
        "3"
    } else if d == 4 {
        "4"
    } else if d == 5 {
        "5"
    } else if d == 6 {
        "6"
    } else if d == 7 {
        "7"
    } else if d == 8 {
        "8"
    } else {
        "9"
    }
}

/// A number as decimal text.
pub fn decimal_text(v: usize) -> (s: String)
    ensures
        s@ == decimal(v as nat),
    decreases v,
{
    if v < 10 {
        String::from_str(digit_text(v))
    } else {
        let mut s = decimal_text(v / 10);
        s.append(digit_text(v % 10));
        s
    }
}

/// A path as text: its nodes in decimal, with an arrow between neighbours.
pub fn tour_text(path: &Vec<usize>) -> (s: String)
    ensures
        s@ == arrows(path@),
{
    let mut s = String::from_str("");
    proof {
        reveal_strlit("");
    }
    for i in 0..path.len()
        invariant
            s@ == arrows(path@.take(i as int)),
    {
        let ghost before = path@.take(i as int);
        let ghost now = path@.take(i + 1);
        assert(now.drop_last() =~= before);
        if i > 0 {
            s.append(" -> ");
        }
        s.append(decimal_text(path[i]).as_str());
    }
    assert(path@.take(path@.len() as int) =~= path@);
    s
}

} // verus!
