//! When a conversion to postfix order fails: exactly when the parens of the
//! expression do not match.
use vstd::prelude::*;
use crate::fault::Fault;
use crate::infix::parens_in;
use crate::operand::{Operator, Term};
use crate::postfix::{binding, postfix_of, Yard};

verus! {

/// How many more parens are opened than closed among `tokens[..upto]`.
pub open spec fn surplus(tokens: Seq<Term>, upto: int) -> int
    decreases upto,
{
    if upto <= 0 {
        0
    } else if tokens[upto - 1] is OpenParen {
        surplus(tokens, upto - 1) + 1
    } else if tokens[upto - 1] is CloseParen {
        surplus(tokens, upto - 1) - 1
    } else {
        surplus(tokens, upto - 1)
    }
}

/// Whether some paren of `tokens` closes what was never opened.
pub open spec fn closes_unopened(tokens: Seq<Term>) -> bool {
    exists|k: int| 0 <= k <= tokens.len() && surplus(tokens, k) < 0
}

proof fn lemma_moved_parens(yard: Yard)
    requires
        yard.tidy(),
        yard.stack.len() > 0,
        !(yard.stack.last() is OpenParen),
    ensures
        yard.moved().tidy(),
        parens_in(yard.moved().stack) == parens_in(yard.stack),
{
    let below = yard.stack.drop_last();
    assert forall|i: int| 0 <= i < below.len() implies (#[trigger] below[i]) is Operator
        || below[i] is OpenParen by {
        assert(below[i] == yard.stack[i]);
    }
}

proof fn lemma_yielded_parens(yard: Yard, op: Operator)
    requires
        yard.tidy(),
    ensures
        yard.yielded(op).tidy(),
        parens_in(yard.yielded(op).stack) == parens_in(yard.stack),
    decreases yard.stack.len(),
{
    if yard.stack.len() > 0 && (yard.stack.last() matches Term::Operator(top) && binding(top)
        >= binding(op)) {
        lemma_moved_parens(yard);
        lemma_yielded_parens(yard.moved(), op);
    }
}

proof fn lemma_drained_parens(yard: Yard)
    requires
        yard.tidy(),
    ensures
        yard.drained().tidy(),
        parens_in(yard.drained().stack) == parens_in(yard.stack),
        yard.drained().stack.len() > 0 <==> parens_in(yard.stack) > 0,
        yard.drained().stack.len() > 0 ==> yard.drained().stack.last() is OpenParen,
    decreases yard.stack.len(),
{
    if yard.stack.len() > 0 && !(yard.stack.last() is OpenParen) {
        lemma_moved_parens(yard);
        lemma_drained_parens(yard.moved());
    }
}

/// One token keeps the parens that wait equal to the parens that are open,
/// and fails exactly on a paren that closes what was never opened.
proof fn lemma_step_parens(yard: Yard, tokens: Seq<Term>, from: int)
    requires
        0 <= from < tokens.len(),
        yard.tidy(),
        parens_in(yard.stack) == surplus(tokens, from),
    ensures
        match yard.step(tokens[from]) {
            Ok(next) => next.tidy() && parens_in(next.stack) == surplus(tokens, from + 1),
            Err(fault) => fault == Fault::NoOpeningParen && surplus(tokens, from + 1) < 0,
        },
{
    let t = tokens[from];
    match t {
        Term::OpenParen => {
            let next = yard.step(t)->Ok_0;
            assert(next.stack.drop_last() == yard.stack);
            assert forall|i: int| 0 <= i < next.stack.len() implies (#[trigger] next.stack[i])
                is Operator || next.stack[i] is OpenParen by {
                if i < yard.stack.len() {
                    assert(next.stack[i] == yard.stack[i]);
                }
            }
        },
        Term::CloseParen => {
            lemma_drained_parens(yard);
            let drained = yard.drained();
            if drained.stack.len() > 0 {
                let next = yard.step(t)->Ok_0;
                assert forall|i: int| 0 <= i < next.stack.len() implies (#[trigger] next.stack[i])
                    is Operator || next.stack[i] is OpenParen by {
                    assert(next.stack[i] == drained.stack[i]);
                }
            }
        },
        Term::Operator(op) => {
            lemma_yielded_parens(yard, op);
            let yielded = yard.yielded(op);
            let next = yard.step(t)->Ok_0;
            assert(next.stack.drop_last() == yielded.stack);
            assert forall|i: int| 0 <= i < next.stack.len() implies (#[trigger] next.stack[i])
                is Operator || next.stack[i] is OpenParen by {
                if i < yielded.stack.len() {
                    assert(next.stack[i] == yielded.stack[i]);
                }
            }
        },
        _ => {},
    }
}

proof fn lemma_run_parens(yard: Yard, tokens: Seq<Term>, from: int)
    requires
        0 <= from <= tokens.len(),
        yard.tidy(),
        parens_in(yard.stack) == surplus(tokens, from),
        forall|k: int| 0 <= k <= from ==> surplus(tokens, k) >= 0,
    ensures
        match yard.run(tokens, from) {
            Ok(last) => {
                &&& last.tidy()
                &&& parens_in(last.stack) == surplus(tokens, tokens.len() as int)
                &&& !closes_unopened(tokens)
            },
            Err(fault) => fault == Fault::NoOpeningParen && closes_unopened(tokens),
        },
    decreases tokens.len() - from,
{
    if from < tokens.len() {
        lemma_step_parens(yard, tokens, from);
        match yard.step(tokens[from]) {
            Ok(next) => {
                assert forall|k: int| 0 <= k <= from + 1 implies surplus(tokens, k) >= 0 by {
                    if k == from + 1 {
                        assert(parens_in(next.stack) >= 0);
                    }
                }
                lemma_run_parens(next, tokens, from + 1);
            },
            Err(_) => {
                assert(surplus(tokens, from + 1) < 0);
            },
        }
    }
}

proof fn lemma_finished_parens(yard: Yard)
    requires
        yard.tidy(),
    ensures
        match yard.finished() {
            Ok(_) => parens_in(yard.stack) == 0,
            Err(fault) => fault == Fault::NoClosingParen && parens_in(yard.stack) > 0,
        },
    decreases yard.stack.len(),
{
    if yard.stack.len() > 0 && !(yard.stack.last() is OpenParen) {
        lemma_moved_parens(yard);
        lemma_finished_parens(yard.moved());
    }
}

/// A conversion fails on unmatched parens and on nothing else. It reports
/// a missing opening paren exactly when some paren closes what was never
/// opened; otherwise it reports a missing closing paren exactly when parens
/// stay open at the end; otherwise it succeeds.
pub proof fn lemma_faults_are_unmatched_parens(tokens: Seq<Term>)
    ensures
        postfix_of(tokens) == Err::<Seq<Term>, Fault>(Fault::NoOpeningParen) <==> closes_unopened(
            tokens,
        ),
        postfix_of(tokens) == Err::<Seq<Term>, Fault>(Fault::NoClosingParen) <==> !closes_unopened(
            tokens,
        ) && surplus(tokens, tokens.len() as int) > 0,
        postfix_of(tokens) is Ok <==> !closes_unopened(tokens) && surplus(
            tokens,
            tokens.len() as int,
        ) == 0,
{
    lemma_run_parens(Yard::start(), tokens, 0);
    match Yard::start().run(tokens, 0) {
        Ok(last) => {
            lemma_finished_parens(last);
        },
        Err(_) => {},
    }
}

} // verus!
