//! Reading an expression into tokens.
use vstd::prelude::*;
use crate::fault::Fault;
use crate::grammar::{
    is_letter, is_operator_char, lemma_lexeme_advances, lemma_run_end, lexeme_at, number_at,
    operator_at, operator_of, run_end, scan, string_at, tokens_of, variable_at, Class,
};
use crate::number::{is_digit, Number};
use crate::operand::{lemma_terms_push, terms, Operand, Operator, Term};
use crate::postfix::{no_parens, postfix_of, to_postfix};
use crate::text::{chars_of, slice_of, string_of};

verus! {

/// Whether `c` may stand in an identifier.
pub fn check_if_operand(c: &char) -> (b: bool)
    ensures
        b == is_letter(*c),
{
    (*c >= 'a' && *c <= 'z') || (*c >= 'A' && *c <= 'Z')
}

/// Whether `c` may stand in an operator.
pub fn check_if_operator(c: &char) -> (b: bool)
    ensures
        b == is_operator_char(*c),
{
    *c == '+' || *c == '-' || *c == '/' || *c == '*' || *c == '<' || *c == '=' || *c == '>' || *c
        == '!'
}

/// Whether `c` is a decimal digit.
pub fn check_if_digit(c: &char) -> (b: bool)
    ensures
        b == is_digit(*c),
{
    *c >= '0' && *c <= '9'
}

/// Reads one expression: holds its characters, the position reached, and the
/// tokens read so far.
pub struct Tokenizer {
    chars: Vec<char>,
    pos: usize,
    operands: Vec<Operand>,
}

impl Tokenizer {
    /// The position lies within the input. Every tokenizer made by
    /// [`Tokenizer::new`] is well formed, and every method keeps it so.
    pub closed spec fn wf(self) -> bool {
        self.pos <= self.chars.len()
    }

    /// The characters of the expression.
    pub closed spec fn input(self) -> Seq<char> {
        self.chars@
    }

    /// The position of the next character to read.
    pub closed spec fn position(self) -> int {
        self.pos as int
    }

    /// The tokens read so far.
    pub closed spec fn tokens(self) -> Seq<Term> {
        terms(self.operands@)
    }

    /// What reading on from this state comes to: every token, those already
    /// read first, or the first fault ahead. An expression without any token
    /// is a fault too.
    pub open spec fn reading(self) -> Result<Seq<Term>, Fault> {
        let ahead = scan(self.input(), self.position());
        match ahead.fault {
            Some(fault) => Err(fault),
            None => if self.tokens().len() + ahead.tokens.len() == 0 {
                Err(Fault::ReachedEnd)
            } else {
                Ok(self.tokens() + ahead.tokens)
            },
        }
    }

    /// A tokenizer at the start of `expression`.
    pub fn new(expression: &str) -> (t: Tokenizer)
        ensures
            t.wf(),
            t.input() == expression@,
            t.position() == 0,
            t.tokens() == Seq::<Term>::empty(),
            t.reading() == tokens_of(expression@),
    {
        let t = Tokenizer { chars: chars_of(expression), pos: 0, operands: Vec::new() };
        assert(t.tokens() =~= Seq::<Term>::empty());
        assert(Seq::<Term>::empty() + scan(expression@, 0).tokens =~= scan(expression@, 0).tokens);
        t
    }

    /// The tokens read so far.
    pub fn operands(&self) -> (v: &Vec<Operand>)
        ensures
            terms(v@) == self.tokens(),
    {
        &self.operands
    }

    /// Reads the rest of the expression. The tokens read are appended to
    /// those already held, up to the first fault, which is reported by its
    /// message; so is an expression that holds no token.
    pub fn parse(&mut self) -> (r: Result<(), String>)
        requires
            old(self).wf(),
        ensures
            final(self).wf(),
            final(self).input() == old(self).input(),
            final(self).tokens() == old(self).tokens() + scan(
                old(self).input(),
                old(self).position(),
            ).tokens,
            final(self).position() == scan(old(self).input(), old(self).position()).end,
            match old(self).reading() {
                Ok(all) => r is Ok && final(self).tokens() == all,
                Err(fault) => r is Err && r->Err_0@ == fault.text(),
            },
    {
        let ghost s = self.chars@;
        let ghost goal = scan(s, self.pos as int);
        proof {
            lemma_append_empty(self.tokens());
        }
        loop
            invariant
                self.chars@ == s,
                old(self).chars@ == s,
                self.pos <= s.len(),
                goal == scan(s, old(self).pos as int),
                scan(s, self.pos as int).end == goal.end,
                scan(s, self.pos as int).fault == goal.fault,
                self.tokens() + scan(s, self.pos as int).tokens == old(self).tokens() + goal.tokens,
            decreases s.len() - self.pos,
        {
            let ghost here = self.pos as int;
            let ghost held = self.tokens();
            proof {
                lemma_scan_unfolds(s, here);
            }
            self.consume_spaces();
            if self.pos >= self.chars.len() {
                proof {
                    lemma_append_empty(held);
                }
                if self.operands.len() == 0 {
                    return Err(Fault::ReachedEnd.message());
                }
                return Ok(());
            }
            match self.next_operand() {
                Ok(operand) => {
                    proof {
                        lemma_terms_push(self.operands@, operand);
                        lemma_append_first(held, operand@, scan(s, self.pos as int).tokens);
                    }
                    self.operands.push(operand);
                },
                Err(fault) => {
                    proof {
                        lemma_append_empty(held);
                    }
                    return Err(fault.message());
                },
            }
        }
    }

    /// Whether the first token is an operator, so that what was read is an
    /// expression that lacks its left operand.
    pub fn starts_with_operator(&self) -> (b: bool)
        ensures
            b == (self.tokens().len() > 0 && self.tokens()[0] is Operator),
    {
        if self.operands.len() == 0 {
            return false;
        }
        assert(self.tokens()[0] == self.operands@[0]@);
        match &self.operands[0] {
            Operand::OperatorToken(_) => true,
            _ => false,
        }
    }

    /// Puts `operand` before the tokens read so far.
    pub fn insert_start(&mut self, operand: Operand)
        requires
            old(self).wf(),
        ensures
            final(self).wf(),
            final(self).input() == old(self).input(),
            final(self).position() == old(self).position(),
            final(self).tokens() == seq![operand@] + old(self).tokens(),
    {
        self.operands.insert(0, operand);
        assert(self.tokens() =~= seq![operand@] + old(self).tokens());
    }

    /// The tokens read so far, in postfix order. The two faults are a closing
    /// paren without an opening one and an opening paren without a closing
    /// one; each is reported by its message.
    pub fn to_postfix(&self) -> (r: Result<Vec<Operand>, String>)
        ensures
            match postfix_of(self.tokens()) {
                Ok(postfix) => r matches Ok(v) && terms(v@) == postfix && no_parens(terms(v@)),
                Err(fault) => r matches Err(message) && message@ == fault.text(),
            },
    {
        to_postfix(&self.operands)
    }

    /// Skips the blanks at the current position.
    fn consume_spaces(&mut self)
        requires
            old(self).pos <= old(self).chars.len(),
        ensures
            final(self).chars == old(self).chars,
            final(self).operands == old(self).operands,
            final(self).pos == run_end(old(self).chars@, old(self).pos as int, Class::Space),
    {
        let ghost start = self.pos as int;
        while self.pos < self.chars.len() && (self.chars[self.pos] == ' ' || self.chars[self.pos]
            == '\t' || self.chars[self.pos] == '\n')
            invariant
                self.chars == old(self).chars,
                self.operands == old(self).operands,
                start <= self.pos <= self.chars.len(),
                run_end(self.chars@, self.pos as int, Class::Space) == run_end(
                    self.chars@,
                    start,
                    Class::Space,
                ),
            decreases self.chars.len() - self.pos,
        {
            self.pos += 1;
        }
    }

    /// Reads the token at the current position, which is within the input
    /// and holds no blank. A fault leaves the position where it was.
    fn next_operand(&mut self) -> (r: Result<Operand, Fault>)
        requires
            old(self).pos < old(self).chars.len(),
        ensures
            final(self).chars == old(self).chars,
            final(self).operands == old(self).operands,
            match lexeme_at(old(self).chars@, old(self).pos as int) {
                Ok(lexeme) => r matches Ok(operand) && operand@ == lexeme.term && final(self).pos
                    == lexeme.end,
                Err(fault) => r == Err::<Operand, Fault>(fault) && final(self).pos == old(self).pos,
            },
    {
        let c = self.chars[self.pos];
        if c == '(' {
            self.pos += 1;
            Ok(Operand::OpenParen)
        } else if c == ')' {
            self.pos += 1;
            Ok(Operand::CloseParen)
        } else if c == '"' {
            self.consume_string()
        } else if check_if_operand(&c) {
            Ok(self.consume_variable())
        } else if check_if_operator(&c) {
            self.consume_operator()
        } else if check_if_digit(&c) {
            self.consume_number()
        } else {
            Err(Fault::UnknownSymbol { index: self.pos, symbol: c })
        }
    }

    /// Reads the string literal whose opening quote is at the current
    /// position.
    fn consume_string(&mut self) -> (r: Result<Operand, Fault>)
        requires
            old(self).pos < old(self).chars.len(),
        ensures
            final(self).chars == old(self).chars,
            final(self).operands == old(self).operands,
            match string_at(old(self).chars@, old(self).pos as int) {
                Ok(lexeme) => r matches Ok(operand) && operand@ == lexeme.term && final(self).pos
                    == lexeme.end,
                Err(fault) => r == Err::<Operand, Fault>(fault) && final(self).pos == old(self).pos,
            },
    {
        let start = self.pos;
        let close = self.run_from(start + 1, Class::Quoted);
        if close < self.chars.len() {
            let content = string_of(&self.chars, start + 1, close);
            self.pos = close + 1;
            Ok(Operand::String(content))
        } else {
            Err(Fault::UnterminatedString)
        }
    }

    /// Reads the identifier at the current position.
    fn consume_variable(&mut self) -> (r: Operand)
        requires
            old(self).pos < old(self).chars.len(),
        ensures
            final(self).chars == old(self).chars,
            final(self).operands == old(self).operands,
            r@ == variable_at(old(self).chars@, old(self).pos as int).term,
            final(self).pos == variable_at(old(self).chars@, old(self).pos as int).end,
    {
        let start = self.pos;
        let end = self.run_from(start, Class::Letter);
        let name = string_of(&self.chars, start, end);
        self.pos = end;
        Operand::Variable(name)
    }

    /// Reads the operator at the current position.
    fn consume_operator(&mut self) -> (r: Result<Operand, Fault>)
        requires
            old(self).pos < old(self).chars.len(),
            is_operator_char(old(self).chars@[old(self).pos as int]),
        ensures
            final(self).chars == old(self).chars,
            final(self).operands == old(self).operands,
            match operator_at(old(self).chars@, old(self).pos as int) {
                Ok(lexeme) => r matches Ok(operand) && operand@ == lexeme.term && final(self).pos
                    == lexeme.end,
                Err(fault) => r == Err::<Operand, Fault>(fault) && final(self).pos == old(self).pos,
            },
    {
        let start = self.pos;
        let end = self.run_from(start, Class::OperatorChar);
        let spelling = slice_of(&self.chars, start, end);
        match operator_spelled(&spelling) {
            Some(op) => {
                self.pos = end;
                Ok(Operand::OperatorToken(op))
            },
            None => Err(Fault::UnsupportedOperator),
        }
    }

    /// Reads the number at the current position.
    fn consume_number(&mut self) -> (r: Result<Operand, Fault>)
        requires
            old(self).pos < old(self).chars.len(),
        ensures
            final(self).chars == old(self).chars,
            final(self).operands == old(self).operands,
            match number_at(old(self).chars@, old(self).pos as int) {
                Ok(lexeme) => r matches Ok(operand) && operand@ == lexeme.term && final(self).pos
                    == lexeme.end,
                Err(fault) => r == Err::<Operand, Fault>(fault) && final(self).pos == old(self).pos,
            },
    {
        let start = self.pos;
        let dot = self.run_from(start, Class::Digit);
        let whole = slice_of(&self.chars, start, dot);
        let mut frac: Vec<char> = Vec::new();
        let mut end = dot;
        if dot < self.chars.len() && self.chars[dot] == '.' {
            end = self.run_from(dot + 1, Class::Digit);
            if end < self.chars.len() && self.chars[end] == '.' {
                return Err(Fault::MultipleDots { index: end });
            }
            frac = slice_of(&self.chars, dot + 1, end);
        }
        match Number::from_decimal(&whole, &frac) {
            Some(n) => {
                self.pos = end;
                Ok(Operand::Number(n))
            },
            None => Err(Fault::NumberOutOfRange { index: start }),
        }
    }

    /// The end of the run of characters of `class` that starts at `from`.
    fn run_from(&self, from: usize, class: Class) -> (end: usize)
        requires
            from <= self.chars.len(),
        ensures
            end == run_end(self.chars@, from as int, class),
            from <= end <= self.chars.len(),
    {
        let mut i: usize = from;
        while i < self.chars.len() && in_class(&class, self.chars[i])
            invariant
                from <= i <= self.chars.len(),
                run_end(self.chars@, i as int, class) == run_end(self.chars@, from as int, class),
            decreases self.chars.len() - i,
        {
            i += 1;
        }
        i
    }
}

/// One step of reading: after the blanks comes the end of the input, a
/// fault, or a token and the reading of what follows it.
proof fn lemma_scan_unfolds(s: Seq<char>, i: int)
    requires
        0 <= i <= s.len(),
    ensures
        i <= run_end(s, i, Class::Space) <= s.len(),
        ({
            let start = run_end(s, i, Class::Space);
            let all = scan(s, i);
            if start >= s.len() {
                all.tokens == Seq::<Term>::empty() && all.end == start && all.fault is None
            } else {
                match lexeme_at(s, start) {
                    Ok(lexeme) => {
                        let rest = scan(s, lexeme.end);
                        &&& start < lexeme.end <= s.len()
                        &&& all.tokens == seq![lexeme.term] + rest.tokens
                        &&& all.end == rest.end
                        &&& all.fault == rest.fault
                    },
                    Err(fault) => all.tokens == Seq::<Term>::empty() && all.end == start
                        && all.fault == Some(fault),
                }
            }
        }),
{
    lemma_run_end(s, i, Class::Space);
    let start = run_end(s, i, Class::Space);
    if start < s.len() {
        lemma_lexeme_advances(s, start);
    }
}

/// Appending nothing changes nothing.
proof fn lemma_append_empty(s: Seq<Term>)
    ensures
        s + Seq::<Term>::empty() == s,
{
    assert(s + Seq::<Term>::empty() =~= s);
}

/// Pushing a term and appending is appending with the term in front.
proof fn lemma_append_first(s: Seq<Term>, t: Term, rest: Seq<Term>)
    ensures
        s.push(t) + rest == s + (seq![t] + rest),
{
    assert(s.push(t) + rest =~= s + (seq![t] + rest));
}

/// Whether `c` belongs to `class`.
fn in_class(class: &Class, c: char) -> (b: bool)
    ensures
        b == class.holds(c),
{
    match class {
        Class::Space => c == ' ' || c == '\t' || c == '\n',
        Class::Letter => check_if_operand(&c),
        Class::OperatorChar => check_if_operator(&c),
        Class::Digit => check_if_digit(&c),
        Class::Quoted => c != '"',
    }
}

/// The operator that `spelling` spells, if any.
fn operator_spelled(spelling: &Vec<char>) -> (r: Option<Operator>)
    ensures
        r == operator_of(spelling@),
{
    if spelling.len() == 1 {
        let c = spelling[0];
        if c == '+' {
            Some(Operator::Plus)
        } else if c == '-' {
            Some(Operator::Substract)
        } else if c == '*' {
            Some(Operator::Multiply)
        } else if c == '/' {
            Some(Operator::Division)
        } else if c == '=' {
            Some(Operator::E)
        } else if c == '<' {
            Some(Operator::L)
        } else if c == '>' {
            Some(Operator::G)
        } else {
            None
        }
    } else if spelling.len() == 2 && spelling[1] == '=' {
        let c = spelling[0];
        if c == '!' {
            Some(Operator::NE)
        } else if c == '<' {
            Some(Operator::LE)
        } else if c == '>' {
            Some(Operator::GE)
        } else {
            None
        }
    } else {
        None
    }
}

} // verus!
