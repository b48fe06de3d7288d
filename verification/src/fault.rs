//! What can go wrong while an expression is read, and the message for each.
use vstd::prelude::*;
use vstd::string::*;

verus! {

/// The text that the debug form of a character writes: the character in
/// single quotes, escaped where it is not printable.
pub uninterp spec fn debug_text(symbol: char) -> Seq<char>;

/// The character that writes the digit `d`.
pub open spec fn digit_char(d: nat) -> char {
    (('0' as u32 + d) as u8) as char
}

/// The decimal digits that write `n`.
pub open spec fn decimal_text(n: nat) -> Seq<char>
    decreases n,
{
    if n < 10 {
        seq![digit_char(n)]
    } else {
        decimal_text(n / 10).push(digit_char(n % 10))
    }
}

/// A lexical or structural error in an expression.
#[derive(Debug, PartialEq, Eq, Clone, Copy, Structural)]
pub enum Fault {
    /// A character that starts no token.
    UnknownSymbol { index: usize, symbol: char },
    /// The input holds no token at all.
    ReachedEnd,
    /// A string literal without its closing quote.
    UnterminatedString,
    /// An operator run that spells no operator.
    UnsupportedOperator,
    /// A second `.` in a number.
    MultipleDots { index: usize },
    /// A number with more digits than the representation holds.
    NumberOutOfRange { index: usize },
    /// A `)` without a `(` before it.
    NoOpeningParen,
    /// A `(` without a `)` after it.
    NoClosingParen,
}

impl Fault {
    /// The message that reports this fault.
    pub open spec fn text(self) -> Seq<char> {
        match self {
            Fault::UnknownSymbol { index, symbol } => "unknown symbol at index "@ + decimal_text(
                index as nat,
            ) + ", "@ + debug_text(symbol),
            Fault::ReachedEnd => "Reached end - unprocessed statements found"@,
            Fault::UnterminatedString => "A string has no closing \""@,
            Fault::UnsupportedOperator => "unsupported operator"@,
            Fault::MultipleDots { index } => "number: multiple '.' at "@ + decimal_text(
                index as nat,
            ),
            Fault::NumberOutOfRange { index } => "number: out of range at "@ + decimal_text(
                index as nat,
            ),
            Fault::NoOpeningParen => "no matching opening paren"@,
            Fault::NoClosingParen => "no matching closing paren"@,
        }
    }

    /// The message that reports this fault.
    pub fn message(&self) -> (s: String)
        ensures
            s@ == self.text(),
    {
        match self {
            Fault::UnknownSymbol { index, symbol } => {
                let mut s = String::from_str("unknown symbol at index ");
                s.append(decimal(*index).as_str());
                s.append(", ");
                s.append(debug_form(*symbol).as_str());
                s
            },
            Fault::ReachedEnd => String::from_str("Reached end - unprocessed statements found"),
            Fault::UnterminatedString => String::from_str("A string has no closing \""),
            Fault::UnsupportedOperator => String::from_str("unsupported operator"),
            Fault::MultipleDots { index } => {
                let mut s = String::from_str("number: multiple '.' at ");
                s.append(decimal(*index).as_str());
                s
            },
            Fault::NumberOutOfRange { index } => {
                let mut s = String::from_str("number: out of range at ");
                s.append(decimal(*index).as_str());
                s
            },
            Fault::NoOpeningParen => String::from_str("no matching opening paren"),
            Fault::NoClosingParen => String::from_str("no matching closing paren"),
        }
    }
}

/// The decimal digits that write `n`.
pub fn decimal(n: usize) -> (s: String)
    ensures
        s@ == decimal_text(n as nat),
    decreases n,
{
    if n < 10 {
        let mut s = String::new();
        s.push(digit_of(n));
        s
    } else {
        let mut s = decimal(n / 10);
        s.push(digit_of(n % 10));
        s
    }
}

/// The character that writes the digit `d`.
fn digit_of(d: usize) -> (c: char)
    requires
        d < 10,
    ensures
        c == digit_char(d as nat),
{
    (48 + d as u8) as char
}

/// `format!` with the debug form of `symbol`: what `Debug` for `char`
/// writes. The contract claims only that the text depends on the character
/// alone.
#[verifier::external_body]
fn debug_form(symbol: char) -> (s: String)
    ensures
        s@ == debug_text(symbol),
{
    format!("{:?}", symbol)
}

} // verus!
