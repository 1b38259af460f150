//! Betting actions and the per-street action abstraction.
//!
//! Bet and raise sizes are fixed-point numbers in thousandths: a bet of
//! `500` is half the pot, a raise of `3000` is three times the highest
//! wager.
use vstd::prelude::*;
use vstd::string::StringExecFns;
use crate::text::push_char;

verus! {

/// One betting action.
#[derive(Debug, Clone, Copy, PartialEq, Eq, Structural)]
pub enum Action {
    /// Bet a fraction of the pot, in thousandths.
    Bet(u32),
    /// Raise to a multiple of the highest wager, in thousandths.
    Raise(u32),
    Check,
    Call,
    Fold,
}

/// The decimal digit `d` (below ten) as a character.
pub open spec fn digit_char(d: nat) -> char {
    (('0' as u32) + d) as char
}

/// Decimal digits of `n`, most significant first.
pub open spec fn decimal(n: nat) -> Seq<char>
    decreases n,
{
    if n < 10 {
        seq![digit_char(n)]
    } else {
        decimal(n / 10).push(digit_char(n % 10))
    }
}

/// Decimal text of `v` thousandths: the whole part, then, when there is
/// a fraction, a point and its digits without trailing zeros.
pub open spec fn thousandths_text(v: u32) -> Seq<char> {
    let f = (v % 1000) as nat;
    let d1 = f / 100;
    let d2 = (f / 10) % 10;
    let d3 = f % 10;
    decimal((v / 1000) as nat) + if f == 0 {
        Seq::empty()
    } else if d3 != 0 {
        seq!['.', digit_char(d1), digit_char(d2), digit_char(d3)]
    } else if d2 != 0 {
        seq!['.', digit_char(d1), digit_char(d2)]
    } else {
        seq!['.', digit_char(d1)]
    }
}

/// Appends the digit `d` to `s`.
fn push_digit(s: &mut String, d: u32)
    requires
        d < 10,
    ensures
        final(s)@ == old(s)@.push(digit_char(d as nat)),
{
    let c = (48 + d) as u8 as char;
    push_char(s, c);
}

/// Appends the decimal digits of `n` to `s`.
fn push_decimal(s: &mut String, n: u32)
    ensures
        final(s)@ == old(s)@ + decimal(n as nat),
    decreases n,
{
    if n >= 10 {
        push_decimal(s, n / 10);
        let ghost mid = s@;
        push_digit(s, n % 10);
        assert(s@ =~= old(s)@ + decimal(n as nat));
    } else {
        push_digit(s, n);
        assert(s@ =~= old(s)@ + decimal(n as nat));
    }
}

/// Appends the decimal text of `v` thousandths to `s`.
fn push_thousandths(s: &mut String, v: u32)
    ensures
        final(s)@ == old(s)@ + thousandths_text(v),
{
    push_decimal(s, v / 1000);
    let f = v % 1000;
    let ghost whole = s@;
    if f != 0 {
        push_char(s, '.');
        push_digit(s, f / 100);
        if f % 10 != 0 {
            push_digit(s, (f / 10) % 10);
            push_digit(s, f % 10);
        } else if (f / 10) % 10 != 0 {
            push_digit(s, (f / 10) % 10);
        }
    }
    assert(s@ =~= old(s)@ + thousandths_text(v));
}

impl Action {
    /// The action's name, with its size as a decimal for a bet or raise
    /// (`Bet 0.5`, `Raise 3`).
    pub fn to_string(&self) -> (s: String)
        ensures
            s@ == match *self {
                Action::Check => "Check"@,
                Action::Bet(v) => "Bet "@ + thousandths_text(v),
                Action::Raise(v) => "Raise "@ + thousandths_text(v),
                Action::Fold => "Fold"@,
                Action::Call => "Call"@,
            },
    {
        match self {
            Action::Check => String::from_str("Check"),
            Action::Bet(v) => {
                let mut s = String::from_str("Bet ");
                push_thousandths(&mut s, *v);
                s
            },
            Action::Raise(v) => {
                let mut s = String::from_str("Raise ");
                push_thousandths(&mut s, *v);
                s
            },
            Action::Fold => String::from_str("Fold"),
            Action::Call => String::from_str("Call"),
        }
    }
}

/// Bet and raise sizes per street (outer index: 0 = first street of the
/// tree), in thousandths.
#[derive(Debug)]
pub struct ActionAbstraction {
    pub bet_sizes: Vec<Vec<u32>>,
    pub raise_sizes: Vec<Vec<u32>>,
}

} // verus!
