//! Numerals, tokens and the ways an evaluation can fail.

use crate::operator::Operator;
use vstd::prelude::*;

verus! {

/// The ten digits.
pub open spec fn is_digit(c: char) -> bool {
    '0' <= c <= '9'
}

/// A character that extends the numeral being read: a digit or the decimal
/// point.
pub open spec fn is_numeral_char(c: char) -> bool {
    is_digit(c) || c == '.'
}

/// White space: the characters that separate tokens and mean nothing else.
pub open spec fn is_blank(c: char) -> bool {
    ||| '\u{9}' <= c <= '\u{d}'
    ||| c == ' '
    ||| c == '\u{85}'
    ||| c == '\u{a0}'
    ||| c == '\u{1680}'
    ||| '\u{2000}' <= c <= '\u{200a}'
    ||| c == '\u{2028}'
    ||| c == '\u{2029}'
    ||| c == '\u{202f}'
    ||| c == '\u{205f}'
    ||| c == '\u{3000}'
}

/// At least one digit occurs in `text`.
pub open spec fn has_digit(text: Seq<char>) -> bool {
    exists|i: int| 0 <= i < text.len() && is_digit(#[trigger] text[i])
}

/// `text` is written with digits and decimal points alone.
pub open spec fn only_numeral_chars(text: Seq<char>) -> bool {
    forall|i: int| 0 <= i < text.len() ==> is_numeral_char(#[trigger] text[i])
}

/// No second decimal point occurs in `text`.
pub open spec fn single_point(text: Seq<char>) -> bool {
    forall|i: int, j: int|
        0 <= i < text.len() && 0 <= j < text.len() && #[trigger] text[i] == '.'
            && #[trigger] text[j] == '.' ==> i == j
}

/// `text` denotes a number: digits with at most one decimal point among
/// them, before them or after them.
pub open spec fn is_numeral(text: Seq<char>) -> bool {
    &&& only_numeral_chars(text)
    &&& single_point(text)
    &&& has_digit(text)
}

/// Tells whether `c` is one of the ten digits.
pub fn digit(c: char) -> (yes: bool)
    ensures
        yes == is_digit(c),
{
    '0' <= c && c <= '9'
}

/// Tells whether `c` is white space.
pub fn blank(c: char) -> (yes: bool)
    ensures
        yes == is_blank(c),
{
    ('\u{9}' <= c && c <= '\u{d}') || c == ' ' || c == '\u{85}' || c == '\u{a0}' || c
        == '\u{1680}' || ('\u{2000}' <= c && c <= '\u{200a}') || c == '\u{2028}' || c == '\u{2029}'
        || c == '\u{202f}' || c == '\u{205f}' || c == '\u{3000}'
}

/// A numeric literal, kept as it was written.
#[derive(Debug, PartialEq, Eq)]
pub struct Numeral {
    pub text: Vec<char>,
}

impl View for Numeral {
    type V = Seq<char>;

    open spec fn view(&self) -> Seq<char> {
        self.text@
    }
}

impl Numeral {
    /// The literal denotes a number.
    pub open spec fn wf(self) -> bool {
        is_numeral(self@)
    }
}

impl Clone for Numeral {
    fn clone(&self) -> (copy: Numeral)
        ensures
            copy@ == self@,
    {
        Numeral { text: self.text.clone() }
    }
}

/// A token of a conversion.
#[derive(Debug, PartialEq, Eq)]
pub enum Token {
    NumericLiteral(Numeral),
    Operator(Operator),
    OpenParen,
}

impl Clone for Token {
    fn clone(&self) -> (copy: Token)
        ensures
            copy@ == self@,
    {
        match self {
            Token::NumericLiteral(numeral) => Token::NumericLiteral(numeral.clone()),
            Token::Operator(op) => Token::Operator(*op),
            Token::OpenParen => Token::OpenParen,
        }
    }
}

/// What a [`Token`] stands for.
pub enum TokenView {
    NumericLiteral(Seq<char>),
    Operator(Operator),
    OpenParen,
}

impl View for Token {
    type V = TokenView;

    open spec fn view(&self) -> TokenView {
        match self {
            Token::NumericLiteral(numeral) => TokenView::NumericLiteral(numeral@),
            Token::Operator(op) => TokenView::Operator(*op),
            Token::OpenParen => TokenView::OpenParen,
        }
    }
}

impl TokenView {
    /// A literal denotes a number, and an operator is one of the table.
    pub open spec fn wf(self) -> bool {
        match self {
            TokenView::NumericLiteral(text) => is_numeral(text),
            TokenView::Operator(op) => op.wf(),
            TokenView::OpenParen => true,
        }
    }
}

/// What a sequence of tokens stands for.
pub open spec fn views(tokens: Seq<Token>) -> Seq<TokenView> {
    Seq::new(tokens.len(), |i: int| tokens[i]@)
}

/// Every token of the sequence is well formed.
pub open spec fn all_wf(tokens: Seq<TokenView>) -> bool {
    forall|i: int| 0 <= i < tokens.len() ==> (#[trigger] tokens[i]).wf()
}

/// Why an expression has no value.
#[derive(Debug, PartialEq, Eq)]
pub enum EvalError {
    /// A character that is no digit, decimal point, parenthesis, white space
    /// or operator symbol.
    InvalidCharacter,
    /// A token that cannot be evaluated reached the evaluation: an opening
    /// parenthesis that was never closed.
    UnexpectedToken(Token),
    /// A second decimal point in one numeral.
    DuplicateDecimal,
    /// A numeral without a digit.
    NumberParseError,
    /// A closing parenthesis with no opening one to match.
    MismatchedParenthesis,
    /// An operator with fewer operands than it takes.
    NotEnoughArguments,
    /// Nothing was left to be the result.
    NoResult,
}

/// `got` is the outcome `expected`: the same error, or a value with the
/// expected view.
pub open spec fn agrees<T: View>(
    got: Result<T, EvalError>,
    expected: Result<T::V, EvalError>,
) -> bool {
    match expected {
        Ok(view) => got matches Ok(value) && value@ == view,
        Err(error) => got == Err::<T, EvalError>(error),
    }
}

} // verus!
