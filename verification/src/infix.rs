//! Well-shaped infix expressions, and what the pipeline owes them: such an
//! expression always converts to postfix order and always evaluates to
//! exactly one value.
use vstd::prelude::*;
use crate::context::Json;
use crate::executor::{depth_from, depth_step, evaluation, lemma_well_formed_evaluates, well_formed};
use crate::operand::Term;
use crate::postfix::{postfix_of, Yard};

verus! {

/// Whether `tokens[from..]` completes an infix expression, where `awaited`
/// says that an operand is due next and `open` counts the parens that are
/// open. Operands and operators alternate; an opening paren stands where an
/// operand is due, a closing paren after an operand.
pub open spec fn infix_from(tokens: Seq<Term>, from: int, awaited: bool, open: nat) -> bool
    decreases tokens.len() - from,
{
    if 0 <= from < tokens.len() {
        match tokens[from] {
            Term::OpenParen => awaited && infix_from(tokens, from + 1, true, open + 1),
            Term::CloseParen => !awaited && open > 0 && infix_from(
                tokens,
                from + 1,
                false,
                (open - 1) as nat,
            ),
            Term::Operator(_) => !awaited && infix_from(tokens, from + 1, true, open),
            _ => awaited && infix_from(tokens, from + 1, false, open),
        }
    } else {
        !awaited && open == 0
    }
}

/// Whether `tokens` is an infix expression: operands joined by operators,
/// with balanced parens around sub-expressions.
pub open spec fn valid_infix(tokens: Seq<Term>) -> bool {
    infix_from(tokens, 0, true, 0)
}

/// The number of operators in `stack`.
pub open spec fn operators_in(stack: Seq<Term>) -> nat
    decreases stack.len(),
{
    if stack.len() == 0 {
        0
    } else if stack.last() is Operator {
        operators_in(stack.drop_last()) + 1
    } else {
        operators_in(stack.drop_last())
    }
}

/// The number of opening parens in `stack`.
pub open spec fn parens_in(stack: Seq<Term>) -> nat
    decreases stack.len(),
{
    if stack.len() == 0 {
        0
    } else if stack.last() is OpenParen {
        parens_in(stack.drop_last()) + 1
    } else {
        parens_in(stack.drop_last())
    }
}

/// The state of a conversion under way on a well-shaped expression: only
/// operators and parens wait, as many parens as are open, and the output
/// leaves one value for each operator that waits, and one more once an
/// operand has been read.
pub open spec fn on_course(yard: Yard, awaited: bool, open: nat) -> bool {
    &&& yard.tidy()
    &&& parens_in(yard.stack) == open
    &&& depth_from(0, yard.output, 0) == Some(
        if awaited {
            operators_in(yard.stack)
        } else {
            operators_in(yard.stack) + 1
        },
    )
}

/// The depth after a sequence with one more token is one step further.
proof fn lemma_depth_push(depth: nat, s: Seq<Term>, t: Term, from: int)
    requires
        0 <= from <= s.len(),
    ensures
        depth_from(depth, s.push(t), from) == match depth_from(depth, s, from) {
            Some(reached) => depth_step(reached, t),
            None => None,
        },
    decreases s.len() - from,
{
    if from < s.len() {
        assert(s.push(t)[from] == s[from]);
        match depth_step(depth, s[from]) {
            Some(next) => lemma_depth_push(next, s, t, from + 1),
            None => {},
        }
    } else {
        assert(s.push(t)[from] == t);
        assert(depth_from(depth_step(depth, t)->Some_0, s.push(t), from + 1) == Some(
            depth_step(depth, t)->Some_0,
        ));
    }
}

/// Moving an operator from the stack to the output keeps a conversion on
/// course, once an operand has been read.
proof fn lemma_moved_on_course(yard: Yard, open: nat)
    requires
        on_course(yard, false, open),
        yard.stack.len() > 0,
        yard.stack.last() is Operator,
    ensures
        on_course(yard.moved(), false, open),
{
    lemma_depth_push(0, yard.output, yard.stack.last(), 0);
    let below = yard.stack.drop_last();
    assert forall|i: int| 0 <= i < below.len() implies (#[trigger] below[i]) is Operator
        || below[i] is OpenParen by {
        assert(below[i] == yard.stack[i]);
    }
}

proof fn lemma_yielded_on_course(yard: Yard, op: crate::operand::Operator, open: nat)
    requires
        on_course(yard, false, open),
    ensures
        on_course(yard.yielded(op), false, open),
    decreases yard.stack.len(),
{
    if yard.stack.len() > 0 && (yard.stack.last() matches Term::Operator(top)
        && crate::postfix::binding(top) >= crate::postfix::binding(op)) {
        lemma_moved_on_course(yard, open);
        lemma_yielded_on_course(yard.moved(), op, open);
    }
}

proof fn lemma_drained_on_course(yard: Yard, open: nat)
    requires
        on_course(yard, false, open),
    ensures
        on_course(yard.drained(), false, open),
        yard.drained().stack.len() > 0 ==> yard.drained().stack.last() is OpenParen,
        open > 0 ==> yard.drained().stack.len() > 0,
    decreases yard.stack.len(),
{
    if yard.stack.len() > 0 && !(yard.stack.last() is OpenParen) {
        assert(yard.stack.last() == yard.stack[yard.stack.len() - 1]);
        lemma_moved_on_course(yard, open);
        lemma_drained_on_course(yard.moved(), open);
    }
}

/// One token of a well-shaped expression keeps the conversion on course.
proof fn lemma_step_on_course(yard: Yard, t: Term, awaited: bool, open: nat)
    requires
        on_course(yard, awaited, open),
        match t {
            Term::OpenParen => awaited,
            Term::CloseParen => !awaited && open > 0,
            Term::Operator(_) => !awaited,
            _ => awaited,
        },
    ensures
        yard.step(t) matches Ok(next) && on_course(
            next,
            match t {
                Term::OpenParen => true,
                Term::CloseParen => false,
                Term::Operator(_) => true,
                _ => false,
            },
            match t {
                Term::OpenParen => open + 1,
                Term::CloseParen => (open - 1) as nat,
                _ => open,
            },
        ),
{
    match t {
        Term::OpenParen => {
            let next = yard.step(t)->Ok_0;
            assert(next.stack.drop_last() == yard.stack);
            assert forall|i: int| 0 <= i < next.stack.len() implies (#[trigger] next.stack[i])
                is Operator || next.stack[i] is OpenParen by {
                if i < yard.stack.len() {
                    assert(next.stack[i] == yard.stack[i]);
                }
            }
        },
        Term::CloseParen => {
            lemma_drained_on_course(yard, open);
            let drained = yard.drained();
            let next = yard.step(t)->Ok_0;
            assert forall|i: int| 0 <= i < next.stack.len() implies (#[trigger] next.stack[i])
                is Operator || next.stack[i] is OpenParen by {
                assert(next.stack[i] == drained.stack[i]);
            }
        },
        Term::Operator(op) => {
            lemma_yielded_on_course(yard, op, open);
            let yielded = yard.yielded(op);
            let next = yard.step(t)->Ok_0;
            assert(next.stack.drop_last() == yielded.stack);
            assert forall|i: int| 0 <= i < next.stack.len() implies (#[trigger] next.stack[i])
                is Operator || next.stack[i] is OpenParen by {
                if i < yielded.stack.len() {
                    assert(next.stack[i] == yielded.stack[i]);
                }
            }
        },
        _ => {
            lemma_depth_push(0, yard.output, t, 0);
        },
    }
}

/// The rest of a well-shaped expression takes the conversion to its end
/// without a fault, and leaves it on course with no paren open.
proof fn lemma_run_on_course(yard: Yard, tokens: Seq<Term>, from: int, awaited: bool, open: nat)
    requires
        0 <= from <= tokens.len(),
        on_course(yard, awaited, open),
        infix_from(tokens, from, awaited, open),
    ensures
        yard.run(tokens, from) matches Ok(last) && on_course(last, false, 0),
    decreases tokens.len() - from,
{
    if from < tokens.len() {
        let t = tokens[from];
        lemma_step_on_course(yard, t, awaited, open);
        let next = yard.step(t)->Ok_0;
        match t {
            Term::OpenParen => lemma_run_on_course(next, tokens, from + 1, true, open + 1),
            Term::CloseParen => lemma_run_on_course(
                next,
                tokens,
                from + 1,
                false,
                (open - 1) as nat,
            ),
            Term::Operator(_) => lemma_run_on_course(next, tokens, from + 1, true, open),
            _ => lemma_run_on_course(next, tokens, from + 1, false, open),
        }
    }
}

/// A conversion on course with no paren open ends in a postfix sequence
/// that leaves exactly one value.
proof fn lemma_finished_on_course(yard: Yard)
    requires
        on_course(yard, false, 0),
    ensures
        yard.finished() matches Ok(postfix) && depth_from(0, postfix, 0) == Some(1nat),
    decreases yard.stack.len(),
{
    if yard.stack.len() > 0 {
        assert(yard.stack.last() == yard.stack[yard.stack.len() - 1]);
        lemma_moved_on_course(yard, 0);
        lemma_finished_on_course(yard.moved());
    }
}

/// Every infix expression converts to postfix order, and what it converts
/// to evaluates, in every context, to a stack of exactly one value.
pub proof fn lemma_valid_infix_evaluates(tokens: Seq<Term>, doc: Json)
    requires
        valid_infix(tokens),
    ensures
        postfix_of(tokens) is Ok,
        well_formed(postfix_of(tokens)->Ok_0),
        evaluation(postfix_of(tokens)->Ok_0, doc) matches Some(stack) && stack.len() == 1,
{
    lemma_run_on_course(Yard::start(), tokens, 0, true, 0);
    let last = Yard::start().run(tokens, 0)->Ok_0;
    lemma_finished_on_course(last);
    lemma_well_formed_evaluates(postfix_of(tokens)->Ok_0, doc);
}

} // verus!
