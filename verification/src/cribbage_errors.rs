//! The failure values that the engine hands back to its callers.

use vstd::prelude::*;
use vstd::string::*;

verus! {

/// Why an operation of the engine failed.
#[derive(Debug, Clone, Copy, PartialEq, Eq, Structural)]
pub enum CribbageErrorKind {
    /// A deck index does not name one of the 52 cards.
    BadCard,
    /// A card or hand string is malformed.
    ParseError,
    /// An operation of fixed arity got the wrong number of cards.
    BadHand,
    /// A play would push the running count above 31, or a count is otherwise
    /// out of range.
    BadCount,
}

/// A failure, with a message that tells the caller what was wrong.
#[derive(Debug)]
pub struct CribbageError {
    pub error_kind: CribbageErrorKind,
    pub message: String,
}

impl CribbageError {
    /// A failure of the given kind with the given message.
    pub fn new(kind: CribbageErrorKind, msg: String) -> (e: CribbageError)
        ensures
            e.error_kind == kind,
            e.message == msg,
    {
        CribbageError { error_kind: kind, message: msg }
    }
}

/// The decimal digit for `d`.
pub open spec fn spec_digit(d: nat) -> char
    recommends
        d < 10,
{
    if d == 0 {
        '0'
    } else if d == 1 {
        '1'
    } else if d == 2 {
        '2'
    } else if d == 3 {
        '3'
    } else if d == 4 {
        '4'
    } else if d == 5 {
        '5'
    } else if d == 6 {
        '6'
    } else if d == 7 {
        '7'
    } else if d == 8 {
        '8'
    } else {
        '9'
    }
}

/// The number `n` written in decimal digits, without leading zeros.
pub open spec fn spec_decimal(n: nat) -> Seq<char>
    decreases n,
{
    if n < 10 {
        seq![spec_digit(n)]
    } else {
        spec_decimal(n / 10).push(spec_digit(n % 10))
    }
}

fn digit(d: usize) -> (text: &'static str)
    requires
        d < 10,
    ensures
        text@ == seq![spec_digit(d as nat)],
{
    proof {
        reveal_strlit("0");
        reveal_strlit("1");
        reveal_strlit("2");
        reveal_strlit("3");
        reveal_strlit("4");
        reveal_strlit("5");
        reveal_strlit("6");
        reveal_strlit("7");
        reveal_strlit("8");
        reveal_strlit("9");
    }
    let text = if d == 0 {
        "0"
    } else if d == 1 {
        "1"
    } else if d == 2 {
        "2"
    } else if d == 3 {
        "3"
    } else if d == 4 {
        "4"
    } else if d == 5 {
        "5"
    } else if d == 6 {
        "6"
    } else if d == 7 {
        "7"
    } else if d == 8 {
        "8"
    } else {
        "9"
    };
    assert(text@ =~= seq![spec_digit(d as nat)]);
    text
}

/// Writes `n` in decimal digits.
pub fn decimal(n: usize) -> (text: String)
    ensures
        text@ == spec_decimal(n as nat),
    decreases n,
{
    if n < 10 {
        String::from_str(digit(n))
    } else {
        let text = decimal(n / 10).concat(digit(n % 10));
        assert(text@ =~= spec_decimal(n as nat / 10).push(spec_digit(n as nat % 10)));
        text
    }
}

} // verus!
