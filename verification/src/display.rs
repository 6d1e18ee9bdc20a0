//! The diagnostic text of a parse error, with a verified decimal
//! rendering of the offset.

use vstd::prelude::*;
use vstd::string::StringExecFns;

use crate::ast::ParserError;

verus! {

/// Relies on `alloc::string::String::push`: appends the character to
/// the end of the string.
pub assume_specification[ String::push ](s: &mut String, c: char)
    ensures
        final(s).view() == old(s).view().push(c),
;

/// One decimal digit as a character.
pub open spec fn dec_digit(d: nat) -> char {
    if d == 0 {
        '0'
    } else if d == 1 {
        '1'
    } else if d == 2 {
        '2'
    } else if d == 3 {
        '3'
    } else if d == 4 {
        '4'
    } else if d == 5 {
        '5'
    } else if d == 6 {
        '6'
    } else if d == 7 {
        '7'
    } else if d == 8 {
        '8'
    } else {
        '9'
    }
}

/// The decimal digits of `n`, most significant first, no leading zero
/// except for `n == 0` itself.
pub open spec fn dec_rep(n: nat) -> Seq<char>
    decreases n,
{
    if n < 10 {
        seq![dec_digit(n)]
    } else {
        dec_rep(n / 10).push(dec_digit(n % 10))
    }
}

fn dec_digit_char(d: usize) -> (c: char)
    requires
        d < 10,
    ensures
        c == dec_digit(d as nat),
{
    match d {
        0 => '0',
        1 => '1',
        2 => '2',
        3 => '3',
        4 => '4',
        5 => '5',
        6 => '6',
        7 => '7',
        8 => '8',
        _ => '9',
    }
}

/// The decimal rendering of a number.
fn dec_string(n: usize) -> (r: String)
    ensures
        r.view() == dec_rep(n as nat),
    decreases n,
{
    if n < 10 {
        let mut s = String::new();
        s.push(dec_digit_char(n));
        proof {
            assert(Seq::<char>::empty().push(dec_digit(n as nat)) =~= seq![dec_digit(n as nat)]);
        }
        s
    } else {
        let mut s = dec_string(n / 10);
        s.push(dec_digit_char(n % 10));
        s
    }
}

/// The diagnostic text of an error, character for character.
pub open spec fn spec_message(e: ParserError) -> Seq<char> {
    match e {
        ParserError::InvalidEscape(pos, c) => "ParseError: invalid escape: pos = ".view()
            + dec_rep(pos as nat) + ", char = '".view() + seq![c] + seq!['\''],
        ParserError::InvalidRightParen(pos) => "ParseError: invalid right parenthesis: pos = ".view()
            + dec_rep(pos as nat),
        ParserError::NoPrev(pos) => "ParseError: no previous expression: pos = ".view() + dec_rep(
            pos as nat,
        ),
        ParserError::NoRightParen => "ParseError: no right parenthesis".view(),
        ParserError::Empty => "ParseError: empty expression".view(),
    }
}

impl ParserError {
    /// The diagnostic text a caller shows for this error.
    pub fn message(&self) -> (r: String)
        ensures
            r.view() == spec_message(*self),
    {
        match self {
            ParserError::InvalidEscape(pos, c) => {
                let mut s = String::from_str("ParseError: invalid escape: pos = ");
                let d = dec_string(*pos);
                s.append(d.as_str());
                s.append(", char = '");
                s.push(*c);
                s.push('\'');
                proof {
                    assert(s.view() =~= spec_message(*self));
                }
                s
            },
            ParserError::InvalidRightParen(pos) => {
                let mut s = String::from_str("ParseError: invalid right parenthesis: pos = ");
                let d = dec_string(*pos);
                s.append(d.as_str());
                s
            },
            ParserError::NoPrev(pos) => {
                let mut s = String::from_str("ParseError: no previous expression: pos = ");
                let d = dec_string(*pos);
                s.append(d.as_str());
                s
            },
            ParserError::NoRightParen => String::from_str("ParseError: no right parenthesis"),
            ParserError::Empty => String::from_str("ParseError: empty expression"),
        }
    }
}

} // verus!
