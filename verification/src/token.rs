//! The token language: operators, variable names and signed integer literals,
//! together with its mathematical model and the canonical surface form of each
//! token.

use vstd::prelude::*;

verus! {

/// Mathematical model of a token: a name is a sequence of characters, a
/// number is a signed 64-bit integer.
pub enum TokenView {
    Add,
    Subtract,
    Assign,
    Print,
    Name(Seq<char>),
    Number(i64),
}

/// The smallest lexical unit: an operator marker, or an operand carrying a
/// variable name or an integer literal.
#[derive(Debug, PartialEq, Eq)]
pub enum Token {
    Add,
    Subtract,
    Assign,
    Print,
    Name(String),
    Number(i64),
}

impl View for Token {
    type V = TokenView;

    open spec fn view(&self) -> TokenView {
        match self {
            Token::Add => TokenView::Add,
            Token::Subtract => TokenView::Subtract,
            Token::Assign => TokenView::Assign,
            Token::Print => TokenView::Print,
            Token::Name(s) => TokenView::Name(s@),
            Token::Number(n) => TokenView::Number(*n),
        }
    }
}

/// The views of a pushed token sequence: mapping to views commutes with
/// `push`.
pub proof fn lemma_token_views_push(s: Seq<Token>, t: Token)
    ensures
        s.push(t).map_values(|x: Token| x@) == s.map_values(|x: Token| x@).push(t@),
{
    assert(s.push(t).map_values(|x: Token| x@) =~= s.map_values(|x: Token| x@).push(t@));
}

/// A lowercase letter, the leading character of a variable name.
pub open spec fn is_lower(c: char) -> bool {
    97 <= c as u32 <= 122
}

/// A decimal digit.
pub open spec fn is_digit(c: char) -> bool {
    48 <= c as u32 <= 57
}

/// The numeric value of a decimal digit character.
pub open spec fn digit_val(c: char) -> int {
    c as u32 - 48
}

/// The character for a single decimal digit value.
pub open spec fn digit_char(d: int) -> char
    recommends
        0 <= d < 10,
{
    if d == 0 {
        '0'
    } else if d == 1 {
        '1'
    } else if d == 2 {
        '2'
    } else if d == 3 {
        '3'
    } else if d == 4 {
        '4'
    } else if d == 5 {
        '5'
    } else if d == 6 {
        '6'
    } else if d == 7 {
        '7'
    } else if d == 8 {
        '8'
    } else {
        '9'
    }
}

/// The canonical decimal rendering of a nonnegative integer: no sign, no
/// leading zeros.
pub open spec fn dec_digits(n: int) -> Seq<char>
    recommends
        n >= 0,
    decreases n,
{
    if n < 10 {
        seq![digit_char(n)]
    } else {
        dec_digits(n / 10).push(digit_char(n % 10))
    }
}

/// The canonical surface form of a token: the single operator character, the
/// name verbatim, or the decimal digits of the number.
pub open spec fn render_token(t: TokenView) -> Seq<char> {
    match t {
        TokenView::Add => seq!['+'],
        TokenView::Subtract => seq!['-'],
        TokenView::Assign => seq!['='],
        TokenView::Print => seq!['@'],
        TokenView::Name(s) => s,
        TokenView::Number(n) => dec_digits(n as int),
    }
}

/// A token whose canonical surface form lexes back to itself: a name made of
/// lowercase letters only, a nonnegative number, or any operator.
pub open spec fn canonical_token(t: TokenView) -> bool {
    match t {
        TokenView::Name(s) => s.len() > 0 && (forall|i: int| 0 <= i < s.len() ==> is_lower(s[i])),
        TokenView::Number(n) => n >= 0,
        _ => true,
    }
}

} // verus!
