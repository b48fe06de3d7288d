//! From infix to postfix order, by the shunting-yard method.
use vstd::prelude::*;
use crate::fault::Fault;
use crate::operand::{lemma_terms_push, terms, Operand, Operator, Term};

verus! {

/// Binding strength of an operator; the higher binds tighter.
pub open spec fn binding(op: Operator) -> int {
    match op {
        Operator::Plus | Operator::Substract => 1,
        Operator::Multiply | Operator::Division => 2,
        _ => -1,
    }
}

/// Binding strength of an operator; the higher binds tighter.
pub fn precedence(c: &Operator) -> (p: i32)
    ensures
        p == binding(*c),
{
    match c {
        Operator::Plus | Operator::Substract => 1,
        Operator::Division | Operator::Multiply => 2,
        _ => -1,
    }
}

/// The state of a conversion: the operators and opening parens that wait,
/// the last to arrive on top, and the postfix sequence written so far.
pub struct Yard {
    pub stack: Seq<Term>,
    pub output: Seq<Term>,
}

impl Yard {
    /// The state before the first token.
    pub open spec fn start() -> Yard {
        Yard { stack: Seq::empty(), output: Seq::empty() }
    }

    /// The state with the top of the stack moved to the output.
    pub open spec fn moved(self) -> Yard {
        Yard { stack: self.stack.drop_last(), output: self.output.push(self.stack.last()) }
    }

    /// Moves the top of the stack to the output for as long as that top is
    /// an operator that binds at least as tightly as `op`.
    pub open spec fn yielded(self, op: Operator) -> Yard
        decreases self.stack.len(),
    {
        if self.stack.len() > 0 && (self.stack.last() matches Term::Operator(top) && binding(top)
            >= binding(op)) {
            self.moved().yielded(op)
        } else {
            self
        }
    }

    /// Moves the top of the stack to the output until an opening paren is on
    /// top or nothing is left.
    pub open spec fn drained(self) -> Yard
        decreases self.stack.len(),
    {
        if self.stack.len() > 0 && !(self.stack.last() is OpenParen) {
            self.moved().drained()
        } else {
            self
        }
    }

    /// The state after the token `t`. A value or a variable goes to the
    /// output, an opening paren onto the stack. An operator first lets the
    /// operators go that bind at least as tightly. A closing paren lets
    /// everything go down to the opening paren that matches it, which is
    /// dropped; without one it is a fault.
    pub open spec fn step(self, t: Term) -> Result<Yard, Fault> {
        match t {
            Term::OpenParen => Ok(Yard { stack: self.stack.push(t), output: self.output }),
            Term::CloseParen => {
                let drained = self.drained();
                if drained.stack.len() == 0 {
                    Err(Fault::NoOpeningParen)
                } else {
                    Ok(Yard { stack: drained.stack.drop_last(), output: drained.output })
                }
            },
            Term::Operator(op) => {
                let yielded = self.yielded(op);
                Ok(Yard { stack: yielded.stack.push(t), output: yielded.output })
            },
            _ => Ok(Yard { stack: self.stack, output: self.output.push(t) }),
        }
    }

    /// The state after the tokens `tokens[from..]`, or the first fault.
    pub open spec fn run(self, tokens: Seq<Term>, from: int) -> Result<Yard, Fault>
        decreases tokens.len() - from,
    {
        if 0 <= from < tokens.len() {
            match self.step(tokens[from]) {
                Ok(next) => next.run(tokens, from + 1),
                Err(fault) => Err(fault),
            }
        } else {
            Ok(self)
        }
    }

    /// The postfix sequence once the input has ended: everything that waits
    /// goes to the output; an opening paren that still waits is a fault.
    pub open spec fn finished(self) -> Result<Seq<Term>, Fault>
        decreases self.stack.len(),
    {
        if self.stack.len() == 0 {
            Ok(self.output)
        } else if self.stack.last() is OpenParen {
            Err(Fault::NoClosingParen)
        } else {
            self.moved().finished()
        }
    }

    /// Only operators and opening parens wait on the stack.
    pub open spec fn tidy(self) -> bool {
        forall|i: int|
            0 <= i < self.stack.len() ==> (#[trigger] self.stack[i]) is Operator
                || self.stack[i] is OpenParen
    }
}

/// The postfix form of the infix token sequence `tokens`, or the fault that
/// stops the conversion.
pub open spec fn postfix_of(tokens: Seq<Term>) -> Result<Seq<Term>, Fault> {
    match Yard::start().run(tokens, 0) {
        Ok(yard) => yard.finished(),
        Err(fault) => Err(fault),
    }
}

/// No grouping marker occurs in `s`.
pub open spec fn no_parens(s: Seq<Term>) -> bool {
    forall|i: int| 0 <= i < s.len() ==> !((#[trigger] s[i]) is OpenParen) && !(s[i] is CloseParen)
}

proof fn lemma_yielded_keeps(yard: Yard, op: Operator)
    requires
        yard.tidy(),
        no_parens(yard.output),
    ensures
        yard.yielded(op).tidy(),
        no_parens(yard.yielded(op).output),
    decreases yard.stack.len(),
{
    if yard.stack.len() > 0 && (yard.stack.last() matches Term::Operator(top) && binding(top)
        >= binding(op)) {
        lemma_yielded_keeps(yard.moved(), op);
    }
}

proof fn lemma_drained_keeps(yard: Yard)
    requires
        yard.tidy(),
        no_parens(yard.output),
    ensures
        yard.drained().tidy(),
        no_parens(yard.drained().output),
    decreases yard.stack.len(),
{
    if yard.stack.len() > 0 && !(yard.stack.last() is OpenParen) {
        lemma_drained_keeps(yard.moved());
    }
}

proof fn lemma_step_keeps(yard: Yard, t: Term)
    requires
        yard.tidy(),
        no_parens(yard.output),
    ensures
        yard.step(t) matches Ok(next) ==> next.tidy() && no_parens(next.output),
{
    match t {
        Term::CloseParen => {
            lemma_drained_keeps(yard);
        },
        Term::Operator(op) => {
            lemma_yielded_keeps(yard, op);
        },
        _ => {},
    }
}

proof fn lemma_run_keeps(yard: Yard, tokens: Seq<Term>, from: int)
    requires
        yard.tidy(),
        no_parens(yard.output),
    ensures
        yard.run(tokens, from) matches Ok(last) ==> last.tidy() && no_parens(last.output),
    decreases tokens.len() - from,
{
    if 0 <= from < tokens.len() {
        lemma_step_keeps(yard, tokens[from]);
        match yard.step(tokens[from]) {
            Ok(next) => lemma_run_keeps(next, tokens, from + 1),
            Err(_) => {},
        }
    }
}

proof fn lemma_finished_keeps(yard: Yard)
    requires
        yard.tidy(),
        no_parens(yard.output),
    ensures
        yard.finished() matches Ok(postfix) ==> no_parens(postfix),
    decreases yard.stack.len(),
{
    if yard.stack.len() > 0 && !(yard.stack.last() is OpenParen) {
        lemma_finished_keeps(yard.moved());
    }
}

/// A postfix sequence holds no grouping markers, whatever the tokens it was
/// made from.
pub proof fn lemma_postfix_has_no_parens(tokens: Seq<Term>)
    ensures
        postfix_of(tokens) matches Ok(postfix) ==> no_parens(postfix),
{
    lemma_run_keeps(Yard::start(), tokens, 0);
    match Yard::start().run(tokens, 0) {
        Ok(yard) => lemma_finished_keeps(yard),
        Err(_) => {},
    }
}

/// Moves the top of `stack` to `output`.
fn move_top(stack: &mut Vec<Operand>, output: &mut Vec<Operand>)
    requires
        old(stack).len() > 0,
    ensures
        (Yard { stack: terms(final(stack)@), output: terms(final(output)@) }) == (Yard {
            stack: terms(old(stack)@),
            output: terms(old(output)@),
        }).moved(),
        final(stack).len() == old(stack).len() - 1,
{
    let ghost before = stack@;
    let top = stack.pop().unwrap();
    proof {
        lemma_terms_push(output@, top);
        assert(terms(stack@) =~= terms(before).drop_last());
    }
    output.push(top);
}

/// Converts the infix token sequence `tokens` to postfix order. The two
/// faults are a closing paren without an opening one and an opening paren
/// without a closing one; each is reported by its message.
pub fn to_postfix(tokens: &Vec<Operand>) -> (r: Result<Vec<Operand>, String>)
    ensures
        match postfix_of(terms(tokens@)) {
            Ok(postfix) => r matches Ok(v) && terms(v@) == postfix && no_parens(terms(v@)),
            Err(fault) => r matches Err(message) && message@ == fault.text(),
        },
{
    let ghost input = terms(tokens@);
    let mut stack: Vec<Operand> = Vec::new();
    let mut output: Vec<Operand> = Vec::new();
    proof {
        assert(terms(stack@) =~= Seq::<Term>::empty());
        assert(terms(output@) =~= Seq::<Term>::empty());
        lemma_postfix_has_no_parens(input);
    }
    let mut i: usize = 0;
    while i < tokens.len()
        invariant
            i <= tokens.len(),
            input == terms(tokens@),
            (Yard { stack: terms(stack@), output: terms(output@) }).run(input, i as int)
                == Yard::start().run(input, 0),
        decreases tokens.len() - i,
    {
        let ghost yard = Yard { stack: terms(stack@), output: terms(output@) };
        assert(input[i as int] == tokens@[i as int]@);
        match &tokens[i] {
            Operand::OpenParen => {
                proof {
                    lemma_terms_push(stack@, Operand::OpenParen);
                }
                stack.push(Operand::OpenParen);
            },
            Operand::CloseParen => {
                while stack.len() > 0 && !is_open_paren(&stack[stack.len() - 1])
                    invariant
                        (Yard { stack: terms(stack@), output: terms(output@) }).drained()
                            == yard.drained(),
                    decreases stack.len(),
                {
                    move_top(&mut stack, &mut output);
                }
                if stack.len() == 0 {
                    return Err(Fault::NoOpeningParen.message());
                }
                let ghost before = stack@;
                stack.pop();
                proof {
                    assert(terms(stack@) =~= terms(before).drop_last());
                }
            },
            Operand::OperatorToken(op) => {
                while stack.len() > 0 && binds_no_weaker(&stack[stack.len() - 1], op)
                    invariant
                        (Yard { stack: terms(stack@), output: terms(output@) }).yielded(*op)
                            == yard.yielded(*op),
                    decreases stack.len(),
                {
                    move_top(&mut stack, &mut output);
                }
                proof {
                    lemma_terms_push(stack@, Operand::OperatorToken(*op));
                }
                stack.push(Operand::OperatorToken(*op));
            },
            other => {
                let value = other.duplicate();
                proof {
                    lemma_terms_push(output@, value);
                }
                output.push(value);
            },
        }
        i += 1;
    }
    while stack.len() > 0
        invariant
            input == terms(tokens@),
            (Yard { stack: terms(stack@), output: terms(output@) }).finished() == postfix_of(input),
        decreases stack.len(),
    {
        if is_open_paren(&stack[stack.len() - 1]) {
            return Err(Fault::NoClosingParen.message());
        }
        move_top(&mut stack, &mut output);
    }
    Ok(output)
}

/// Whether `o` is the opening paren.
fn is_open_paren(o: &Operand) -> (b: bool)
    ensures
        b == (o@ is OpenParen),
{
    match o {
        Operand::OpenParen => true,
        _ => false,
    }
}

/// Whether `top` is an operator that binds at least as tightly as `op`.
fn binds_no_weaker(top: &Operand, op: &Operator) -> (b: bool)
    ensures
        b == (top@ matches Term::Operator(t) && binding(t) >= binding(*op)),
{
    match top {
        Operand::OperatorToken(t) => precedence(t) >= precedence(op),
        _ => false,
    }
}

} // verus!
