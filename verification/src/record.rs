//! The text of an output record.
//!
//! A record is one line: a string, a horizontal tab, the count of the string
//! in decimal digits, and a line feed.

use vstd::prelude::*;
use vstd::string::StringExecFns;

verus! {

/// The character for a decimal digit.
pub open spec fn digit(d: nat) -> char {
    if d == 0 {
        '0'
    } else if d == 1 {
        '1'
    } else if d == 2 {
        '2'
    } else if d == 3 {
        '3'
    } else if d == 4 {
        '4'
    } else if d == 5 {
        '5'
    } else if d == 6 {
        '6'
    } else if d == 7 {
        '7'
    } else if d == 8 {
        '8'
    } else {
        '9'
    }
}

/// The decimal digits of `n`, the most significant first, without leading
/// zeros.
pub open spec fn decimal(n: nat) -> Seq<char>
    decreases n,
{
    if n < 10 {
        seq![digit(n)]
    } else {
        decimal(n / 10).push(digit(n % 10))
    }
}

/// The record of a string and its count.
pub open spec fn record(text: Seq<char>, count: nat) -> Seq<char> {
    text + seq!['\t'] + decimal(count) + seq!['\n']
}

/// Digits that were collected from the least significant on, read from the
/// most significant on.
spec fn most_significant_first(digits: Seq<usize>) -> Seq<char> {
    Seq::new(digits.len(), |j: int| digit(digits[digits.len() - 1 - j] as nat))
}

/// The text of one decimal digit.
fn digit_text(d: usize) -> (text: &'static str)
    requires
        d < 10,
    ensures
        text@ == seq![digit(d as nat)],
{
    proof {
        reveal_strlit("0");
        reveal_strlit("1");
        reveal_strlit("2");
        reveal_strlit("3");
        reveal_strlit("4");
        reveal_strlit("5");
        reveal_strlit("6");
        reveal_strlit("7");
        reveal_strlit("8");
        reveal_strlit("9");
    }
    let text = if d == 0 {
        "0"
    } else if d == 1 {
        "1"
    } else if d == 2 {
        "2"
    } else if d == 3 {
        "3"
    } else if d == 4 {
        "4"
    } else if d == 5 {
        "5"
    } else if d == 6 {
        "6"
    } else if d == 7 {
        "7"
    } else if d == 8 {
        "8"
    } else {
        "9"
    };
    assert(text@ =~= seq![digit(d as nat)]);
    text
}

/// The number `n` in decimal digits.
pub fn decimal_text(n: usize) -> (text: String)
    ensures
        text@ == decimal(n as nat),
{
    let mut digits: Vec<usize> = Vec::new();
    let mut rest = n;
    proof {
        assert(decimal(n as nat) == decimal(rest as nat) + most_significant_first(digits@));
    }
    while rest >= 10
        invariant
            decimal(n as nat) == decimal(rest as nat) + most_significant_first(digits@),
            forall|j: int| 0 <= j < digits.len() ==> digits[j] < 10,
        decreases rest,
    {
        let ghost before = digits@;
        digits.push(rest % 10);
        proof {
            assert(seq![digit((rest % 10) as nat)] + most_significant_first(before)
                == most_significant_first(digits@));
        }
        rest = rest / 10;
    }
    let ghost before = digits@;
    digits.push(rest);
    proof {
        assert(seq![digit(rest as nat)] + most_significant_first(before) == most_significant_first(
            digits@,
        ));
    }
    let mut text = String::new();
    let mut i = digits.len();
    proof {
        assert(text@ == most_significant_first(digits@).take(0));
    }
    while i > 0
        invariant
            i <= digits.len(),
            forall|j: int| 0 <= j < digits.len() ==> digits[j] < 10,
            text@ == most_significant_first(digits@).take(digits.len() - i),
        decreases i,
    {
        i -= 1;
        text.append(digit_text(digits[i]));
        proof {
            let all = most_significant_first(digits@);
            assert(all.take(digits.len() - i) == all.take(digits.len() - i - 1) + seq![
                digit(digits[i as int] as nat),
            ]);
        }
    }
    proof {
        let all = most_significant_first(digits@);
        assert(all.take(digits.len() as int) == all);
    }
    text
}

/// One output record: the string, a tab, the count in decimal digits, a line
/// feed.
pub fn record_line(text: &str, count: usize) -> (line: String)
    ensures
        line@ == record(text@, count as nat),
{
    let mut line = String::from_str(text);
    line.append("\t");
    line.append(decimal_text(count).as_str());
    line.append("\n");
    proof {
        reveal_strlit("\t");
        reveal_strlit("\n");
        assert("\t"@ == seq!['\t']);
        assert("\n"@ == seq!['\n']);
    }
    line
}

} // verus!
