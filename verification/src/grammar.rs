//! The lexical grammar of expressions: which characters make which token.
use vstd::prelude::*;
use crate::fault::Fault;
use crate::number::{is_digit, Number};
use crate::operand::{Operator, Term};

verus! {

/// Blank characters, skipped between tokens.
pub open spec fn is_space(c: char) -> bool {
    c == ' ' || c == '\t' || c == '\n'
}

/// The characters of identifiers: the ASCII letters.
pub open spec fn is_letter(c: char) -> bool {
    ('a' <= c <= 'z') || ('A' <= c <= 'Z')
}

/// The characters that operators are spelled with.
pub open spec fn is_operator_char(c: char) -> bool {
    c == '+' || c == '-' || c == '/' || c == '*' || c == '<' || c == '=' || c == '>' || c == '!'
}

/// The classes of characters that make up runs.
pub enum Class {
    Space,
    Letter,
    OperatorChar,
    Digit,
    /// Anything but the double quote: the body of a string literal.
    Quoted,
}

impl Class {
    /// Whether `c` belongs to this class.
    pub open spec fn holds(self, c: char) -> bool {
        match self {
            Class::Space => is_space(c),
            Class::Letter => is_letter(c),
            Class::OperatorChar => is_operator_char(c),
            Class::Digit => is_digit(c),
            Class::Quoted => c != '"',
        }
    }
}

/// The end of the longest run of characters of `class` that starts at `i`.
pub open spec fn run_end(s: Seq<char>, i: int, class: Class) -> int
    decreases s.len() - i,
{
    if 0 <= i < s.len() && class.holds(s[i]) {
        run_end(s, i + 1, class)
    } else {
        i
    }
}

/// A run ends within the input, holds only characters of its class, and
/// stops at the first character outside it.
pub proof fn lemma_run_end(s: Seq<char>, i: int, class: Class)
    requires
        0 <= i <= s.len(),
    ensures
        i <= run_end(s, i, class) <= s.len(),
        forall|k: int| i <= k < run_end(s, i, class) ==> class.holds(#[trigger] s[k]),
        run_end(s, i, class) < s.len() ==> !class.holds(s[run_end(s, i, class)]),
    decreases s.len() - i,
{
    if i < s.len() && class.holds(s[i]) {
        lemma_run_end(s, i + 1, class);
    }
}

/// A run is known by its end: where every character up to `end` is of the
/// class and the one at `end`, if there is one, is not, the run ends there.
pub proof fn lemma_run_ends_at(s: Seq<char>, i: int, end: int, class: Class)
    requires
        0 <= i <= end <= s.len(),
        forall|k: int| i <= k < end ==> class.holds(#[trigger] s[k]),
        end < s.len() ==> !class.holds(s[end]),
    ensures
        run_end(s, i, class) == end,
    decreases end - i,
{
    if i < end {
        lemma_run_ends_at(s, i + 1, end, class);
    }
}

/// The operator that the single character `c` spells, if any.
pub open spec fn plain_operator(c: char) -> Option<Operator> {
    if c == '+' {
        Some(Operator::Plus)
    } else if c == '-' {
        Some(Operator::Substract)
    } else if c == '*' {
        Some(Operator::Multiply)
    } else if c == '/' {
        Some(Operator::Division)
    } else if c == '=' {
        Some(Operator::E)
    } else if c == '<' {
        Some(Operator::L)
    } else if c == '>' {
        Some(Operator::G)
    } else {
        None
    }
}

/// The operator that the character `c` spells with `=` after it, if any.
pub open spec fn operator_with_equals(c: char) -> Option<Operator> {
    if c == '!' {
        Some(Operator::NE)
    } else if c == '<' {
        Some(Operator::LE)
    } else if c == '>' {
        Some(Operator::GE)
    } else {
        None
    }
}

/// The operator that a run of operator characters spells, if any: one of
/// `+ - * / = < >` alone, or one of `! < >` with `=` after it.
pub open spec fn operator_of(spelling: Seq<char>) -> Option<Operator> {
    if spelling.len() == 1 {
        plain_operator(spelling[0])
    } else if spelling.len() == 2 && spelling[1] == '=' {
        operator_with_equals(spelling[0])
    } else {
        None
    }
}

/// A token and the position after it.
pub struct Lexeme {
    pub term: Term,
    pub end: int,
}

/// The string literal whose opening quote is at `i`: everything up to the
/// next quote.
pub open spec fn string_at(s: Seq<char>, i: int) -> Result<Lexeme, Fault> {
    let close = run_end(s, i + 1, Class::Quoted);
    if close < s.len() {
        Ok(Lexeme { term: Term::Text(s.subrange(i + 1, close)), end: close + 1 })
    } else {
        Err(Fault::UnterminatedString)
    }
}

/// The identifier that starts at `i`: a run of letters.
pub open spec fn variable_at(s: Seq<char>, i: int) -> Lexeme {
    let end = run_end(s, i, Class::Letter);
    Lexeme { term: Term::Variable(s.subrange(i, end)), end }
}

/// The operator that starts at `i`: a run of operator characters, which has
/// to spell an operator.
pub open spec fn operator_at(s: Seq<char>, i: int) -> Result<Lexeme, Fault> {
    let end = run_end(s, i, Class::OperatorChar);
    match operator_of(s.subrange(i, end)) {
        Some(op) => Ok(Lexeme { term: Term::Operator(op), end }),
        None => Err(Fault::UnsupportedOperator),
    }
}

/// The number written by the digits `whole` and, after the dot, `frac`, which
/// starts at `start` and ends before `end`.
pub open spec fn number_of(whole: Seq<char>, frac: Seq<char>, start: int, end: int) -> Result<
    Lexeme,
    Fault,
> {
    match Number::decimal(whole, frac) {
        Some(n) => Ok(Lexeme { term: Term::Number(n), end }),
        None => Err(Fault::NumberOutOfRange { index: start as usize }),
    }
}

/// The number that starts at `i`: digits, then at most one `.` with more
/// digits; a second `.` right after those is a fault.
pub open spec fn number_at(s: Seq<char>, i: int) -> Result<Lexeme, Fault> {
    let dot = run_end(s, i, Class::Digit);
    if dot < s.len() && s[dot] == '.' {
        let end = run_end(s, dot + 1, Class::Digit);
        if end < s.len() && s[end] == '.' {
            Err(Fault::MultipleDots { index: end as usize })
        } else {
            number_of(s.subrange(i, dot), s.subrange(dot + 1, end), i, end)
        }
    } else {
        number_of(s.subrange(i, dot), Seq::empty(), i, dot)
    }
}

/// The token that starts at `i`, where `s[i]` is no blank.
pub open spec fn lexeme_at(s: Seq<char>, i: int) -> Result<Lexeme, Fault> {
    let c = s[i];
    if c == '(' {
        Ok(Lexeme { term: Term::OpenParen, end: i + 1 })
    } else if c == ')' {
        Ok(Lexeme { term: Term::CloseParen, end: i + 1 })
    } else if c == '"' {
        string_at(s, i)
    } else if is_letter(c) {
        Ok(variable_at(s, i))
    } else if is_operator_char(c) {
        operator_at(s, i)
    } else if is_digit(c) {
        number_at(s, i)
    } else {
        Err(Fault::UnknownSymbol { index: i as usize, symbol: c })
    }
}

/// A token ends after the position where it starts, and within the input.
pub proof fn lemma_lexeme_advances(s: Seq<char>, i: int)
    requires
        0 <= i < s.len(),
    ensures
        lexeme_at(s, i) matches Ok(lexeme) ==> i < lexeme.end <= s.len(),
{
    lemma_run_end(s, i + 1, Class::Quoted);
    lemma_run_end(s, i, Class::Letter);
    lemma_run_end(s, i + 1, Class::Letter);
    lemma_run_end(s, i, Class::OperatorChar);
    lemma_run_end(s, i + 1, Class::OperatorChar);
    lemma_run_end(s, i, Class::Digit);
    lemma_run_end(s, i + 1, Class::Digit);
    let dot = run_end(s, i, Class::Digit);
    if dot < s.len() {
        lemma_run_end(s, dot + 1, Class::Digit);
    }
}

/// A string literal whose quote is never closed is a fault.
pub proof fn lemma_unterminated_string(s: Seq<char>, i: int)
    requires
        0 <= i < s.len(),
        s[i] == '"',
        forall|k: int| i < k < s.len() ==> #[trigger] s[k] != '"',
    ensures
        lexeme_at(s, i) == Err::<Lexeme, Fault>(Fault::UnterminatedString),
{
    lemma_run_ends_at(s, i + 1, s.len() as int, Class::Quoted);
}

/// A string literal reaches to the next quote, and is the text in between.
pub proof fn lemma_terminated_string(s: Seq<char>, i: int, close: int)
    requires
        0 <= i < close < s.len(),
        s[i] == '"',
        s[close] == '"',
        forall|k: int| i < k < close ==> #[trigger] s[k] != '"',
    ensures
        lexeme_at(s, i) == Ok::<Lexeme, Fault>(
            Lexeme { term: Term::Text(s.subrange(i + 1, close)), end: close + 1 },
        ),
{
    lemma_run_ends_at(s, i + 1, close, Class::Quoted);
}

/// A number with a second `.` right after its fraction digits is a fault,
/// reported at that second `.`.
pub proof fn lemma_second_dot(s: Seq<char>, i: int, dot: int, second: int)
    requires
        0 <= i < dot < second < s.len(),
        forall|k: int| i <= k < dot ==> is_digit(#[trigger] s[k]),
        s[dot] == '.',
        forall|k: int| dot < k < second ==> is_digit(#[trigger] s[k]),
        s[second] == '.',
    ensures
        lexeme_at(s, i) == Err::<Lexeme, Fault>(Fault::MultipleDots { index: second as usize }),
{
    lemma_run_ends_at(s, i, dot, Class::Digit);
    lemma_run_ends_at(s, dot + 1, second, Class::Digit);
}

/// A character that starts no token is a fault, reported with its index.
pub proof fn lemma_unknown_symbol(s: Seq<char>, i: int)
    requires
        0 <= i < s.len(),
        s[i] != '(' && s[i] != ')' && s[i] != '"',
        !is_letter(s[i]) && !is_operator_char(s[i]) && !is_digit(s[i]),
    ensures
        lexeme_at(s, i) == Err::<Lexeme, Fault>(
            Fault::UnknownSymbol { index: i as usize, symbol: s[i] },
        ),
{
}

/// What reading an input yields: the tokens read, the position where reading
/// stopped, and the fault that stopped it, if one did.
pub struct Scan {
    pub tokens: Seq<Term>,
    pub end: int,
    pub fault: Option<Fault>,
}

/// Reads `s` from position `i` on: blanks are skipped, tokens are collected
/// in order, and the first fault stops the reading at the token that has it.
pub open spec fn scan(s: Seq<char>, i: int) -> Scan
    decreases s.len() - i,
    when 0 <= i <= s.len()
    via scan_decreases
{
    let start = run_end(s, i, Class::Space);
    if start >= s.len() {
        Scan { tokens: Seq::empty(), end: start, fault: None }
    } else {
        match lexeme_at(s, start) {
            Ok(lexeme) => {
                let rest = scan(s, lexeme.end);
                Scan { tokens: seq![lexeme.term] + rest.tokens, end: rest.end, fault: rest.fault }
            },
            Err(fault) => Scan { tokens: Seq::empty(), end: start, fault: Some(fault) },
        }
    }
}

#[via_fn]
proof fn scan_decreases(s: Seq<char>, i: int) {
    lemma_run_end(s, i, Class::Space);
    let start = run_end(s, i, Class::Space);
    if start < s.len() {
        lemma_lexeme_advances(s, start);
    }
}

/// Reading stops at the first fault: where tokens `read` end at `start`
/// and the token at `start` has a fault, that fault is what reading `s`
/// comes to, whatever follows.
pub proof fn lemma_fault_stops_reading(s: Seq<char>, i: int)
    requires
        0 <= i <= s.len(),
    ensures
        ({
            let start = run_end(s, i, Class::Space);
            start < s.len() ==> match lexeme_at(s, start) {
                Ok(lexeme) => scan(s, i).fault == scan(s, lexeme.end).fault,
                Err(fault) => scan(s, i).fault == Some(fault),
            }
        }),
{
    lemma_run_end(s, i, Class::Space);
    let start = run_end(s, i, Class::Space);
    if start < s.len() {
        lemma_lexeme_advances(s, start);
    }
}

/// The tokens of the expression `s`, which holds at least one, or the first
/// fault in it.
pub open spec fn tokens_of(s: Seq<char>) -> Result<Seq<Term>, Fault> {
    let all = scan(s, 0);
    match all.fault {
        Some(fault) => Err(fault),
        None => if all.tokens.len() == 0 {
            Err(Fault::ReachedEnd)
        } else {
            Ok(all.tokens)
        },
    }
}

} // verus!
