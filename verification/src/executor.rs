//! Evaluating a postfix sequence against a context.
use vstd::prelude::*;
use crate::context::{document, resolve, var_to_operand, Json};
use crate::fault::Fault;
use crate::number::{representable, Number};
use crate::operand::{lemma_apply_is_value, lemma_terms_push, terms, Operand, Operator, Term};
use crate::postfix::{postfix_of, Yard};

verus! {

/// The number of values on the stack after the postfix token `t`, where
/// `depth` were on it before: an operator takes two and leaves one, any
/// other token leaves one more. An operator that finds fewer than two
/// values, or a grouping marker, makes the sequence ill-formed.
pub open spec fn depth_step(depth: nat, t: Term) -> Option<nat> {
    match t {
        Term::Operator(_) => if depth >= 2 {
            Some((depth - 1) as nat)
        } else {
            None
        },
        Term::OpenParen | Term::CloseParen => None,
        _ => Some(depth + 1),
    }
}

/// The number of values on the stack after `postfix[from..]`, where `depth`
/// were on it before.
pub open spec fn depth_from(depth: nat, postfix: Seq<Term>, from: int) -> Option<nat>
    decreases postfix.len() - from,
{
    if 0 <= from < postfix.len() {
        match depth_step(depth, postfix[from]) {
            Some(next) => depth_from(next, postfix, from + 1),
            None => None,
        }
    } else {
        Some(depth)
    }
}

/// Whether every operator of `postfix` finds its two operands, and no
/// grouping marker occurs in it.
pub open spec fn well_formed(postfix: Seq<Term>) -> bool {
    depth_from(0, postfix, 0) is Some
}

/// The stack after the postfix token `t`. A value is pushed; a variable is
/// looked up in `doc` and what it stands for is pushed; an operator takes
/// the right operand from the top, the left one from below it, and pushes
/// what it makes of them.
pub open spec fn eval_step(stack: Seq<Term>, t: Term, doc: Json) -> Option<Seq<Term>> {
    match t {
        Term::Operator(op) => if stack.len() >= 2 {
            Some(
                stack.take(stack.len() - 2).push(
                    Term::apply(op, stack[stack.len() - 2], stack[stack.len() - 1]),
                ),
            )
        } else {
            None
        },
        Term::Variable(name) => Some(stack.push(resolve(doc, name).operand())),
        Term::OpenParen | Term::CloseParen => None,
        _ => Some(stack.push(t)),
    }
}

/// The stack after `postfix[from..]`, started from `stack`.
pub open spec fn eval_from(stack: Seq<Term>, postfix: Seq<Term>, from: int, doc: Json) -> Option<
    Seq<Term>,
>
    decreases postfix.len() - from,
{
    if 0 <= from < postfix.len() {
        match eval_step(stack, postfix[from], doc) {
            Some(next) => eval_from(next, postfix, from + 1, doc),
            None => None,
        }
    } else {
        Some(stack)
    }
}

/// The stack that evaluating `postfix` against `doc` leaves; `None` where
/// `postfix` is ill-formed.
pub open spec fn evaluation(postfix: Seq<Term>, doc: Json) -> Option<Seq<Term>> {
    eval_from(Seq::empty(), postfix, 0, doc)
}

/// Whether a sequence is evaluated to its end depends on its shape alone,
/// and so does the number of values that it leaves.
pub proof fn lemma_eval_depth(stack: Seq<Term>, postfix: Seq<Term>, from: int, doc: Json)
    ensures
        eval_from(stack, postfix, from, doc) is Some <==> depth_from(stack.len(), postfix, from)
            is Some,
        eval_from(stack, postfix, from, doc) matches Some(last) ==> depth_from(
            stack.len(),
            postfix,
            from,
        ) == Some(last.len()),
    decreases postfix.len() - from,
{
    if 0 <= from < postfix.len() {
        match eval_step(stack, postfix[from], doc) {
            Some(next) => {
                lemma_eval_depth(next, postfix, from + 1, doc);
            },
            None => {},
        }
    }
}

/// A well-formed sequence is evaluated to its end in every context.
pub proof fn lemma_well_formed_evaluates(postfix: Seq<Term>, doc: Json)
    ensures
        well_formed(postfix) <==> evaluation(postfix, doc) is Some,
        evaluation(postfix, doc) matches Some(last) ==> depth_from(0, postfix, 0) == Some(
            last.len(),
        ),
{
    lemma_eval_depth(Seq::empty(), postfix, 0, doc);
}

/// Whether every entry of `stack` is a value.
pub open spec fn all_values(stack: Seq<Term>) -> bool {
    forall|i: int| 0 <= i < stack.len() ==> (#[trigger] stack[i]).is_value()
}

proof fn lemma_eval_keeps_values(stack: Seq<Term>, postfix: Seq<Term>, from: int, doc: Json)
    requires
        all_values(stack),
    ensures
        eval_from(stack, postfix, from, doc) matches Some(last) ==> all_values(last),
    decreases postfix.len() - from,
{
    if 0 <= from < postfix.len() {
        match eval_step(stack, postfix[from], doc) {
            Some(next) => {
                assert forall|i: int| 0 <= i < next.len() implies (#[trigger] next[i]).is_value() by {
                    if i < next.len() - 1 {
                        assert(next[i] == stack[i]);
                    } else if let Term::Operator(op) = postfix[from] {
                        lemma_apply_is_value(
                            op,
                            stack[stack.len() - 2],
                            stack[stack.len() - 1],
                        );
                    }
                }
                lemma_eval_keeps_values(next, postfix, from + 1, doc);
            },
            None => {},
        }
    }
}

/// An evaluation leaves values only: no variable, no operator and no
/// grouping marker is left on the stack.
pub proof fn lemma_evaluation_yields_values(postfix: Seq<Term>, doc: Json)
    ensures
        evaluation(postfix, doc) matches Some(last) ==> all_values(last),
{
    lemma_eval_keeps_values(Seq::empty(), postfix, 0, doc);
}

/// The numerator and the denominator of the exact result of the arithmetic
/// operator `op` on the fractions `a` and `b`.
pub open spec fn exact(op: Operator, a: Number, b: Number) -> (int, int) {
    match op {
        Operator::Plus => (a.num() * b.den() + b.num() * a.den(), a.den() * b.den()),
        Operator::Substract => (a.num() * b.den() - b.num() * a.den(), a.den() * b.den()),
        Operator::Multiply => (a.num() * b.num(), a.den() * b.den()),
        _ => (a.num() * b.den(), a.den() * b.num()),
    }
}

/// Arithmetic on two numbers is exact. The expression `a op b` converts to
/// `a b op` and evaluates to one value: the number that is the exact result
/// in lowest terms, or the missing value where there is no such number,
/// which is so for every division by zero.
pub proof fn lemma_arithmetic_is_exact(op: Operator, a: Number, b: Number, doc: Json)
    requires
        a.valid(),
        b.valid(),
        op is Plus || op is Substract || op is Multiply || op is Division,
    ensures
        postfix_of(seq![Term::Number(a), Term::Operator(op), Term::Number(b)]) == Ok::<
            Seq<Term>,
            Fault,
        >(seq![Term::Number(a), Term::Number(b), Term::Operator(op)]),
        evaluation(seq![Term::Number(a), Term::Number(b), Term::Operator(op)], doc) == Some(
            seq![Term::apply(op, Term::Number(a), Term::Number(b))],
        ),
        Term::apply(op, Term::Number(a), Term::Number(b)) == Term::number_or_missing(
            Number::fraction(exact(op, a, b).0, exact(op, a, b).1),
        ),
        op is Division && b.is_zero() ==> Term::apply(op, Term::Number(a), Term::Number(b))
            is Missing,
        match Term::apply(op, Term::Number(a), Term::Number(b)) {
            Term::Number(q) => q.valid() && q.num() * exact(op, a, b).1 == exact(op, a, b).0
                * q.den(),
            other => other is Missing && !representable(exact(op, a, b).0, exact(op, a, b).1),
        },
{
    let (n, d) = exact(op, a, b);
    Number::lemma_fraction(n, d);
    if op is Division && b.is_zero() {
        assert(d == 0) by (nonlinear_arith)
            requires
                d == a.den() * b.num(),
                b.num() == 0,
        ;
    }
    let infix = seq![Term::Number(a), Term::Operator(op), Term::Number(b)];
    let postfix = seq![Term::Number(a), Term::Number(b), Term::Operator(op)];
    let y0 = Yard::start();
    let y1 = Yard { stack: Seq::empty(), output: seq![Term::Number(a)] };
    let y2 = Yard { stack: seq![Term::Operator(op)], output: seq![Term::Number(a)] };
    let y3 = Yard { stack: seq![Term::Operator(op)], output: seq![Term::Number(a), Term::Number(b)] };
    let y4 = Yard { stack: Seq::empty(), output: postfix };
    assert(y0.step(infix[0]) == Ok::<Yard, Fault>(y1)) by {
        assert(y0.output.push(infix[0]) =~= y1.output);
    }
    assert(y1.step(infix[1]) == Ok::<Yard, Fault>(y2)) by {
        assert(y1.yielded(op) == y1);
        assert(y1.stack.push(infix[1]) =~= y2.stack);
    }
    assert(y2.step(infix[2]) == Ok::<Yard, Fault>(y3)) by {
        assert(y2.output.push(infix[2]) =~= y3.output);
    }
    assert(y3.run(infix, 3) == Ok::<Yard, Fault>(y3));
    assert(y2.run(infix, 2) == Ok::<Yard, Fault>(y3));
    assert(y1.run(infix, 1) == Ok::<Yard, Fault>(y3));
    assert(y0.run(infix, 0) == Ok::<Yard, Fault>(y3));
    assert(y3.moved() == y4) by {
        assert(y3.stack.drop_last() =~= y4.stack);
        assert(y3.output.push(y3.stack.last()) =~= y4.output);
    }
    assert(y4.finished() == Ok::<Seq<Term>, Fault>(postfix));
    assert(y3.finished() == Ok::<Seq<Term>, Fault>(postfix));
    let s0 = Seq::<Term>::empty();
    let s1 = seq![Term::Number(a)];
    let s2 = seq![Term::Number(a), Term::Number(b)];
    let s3 = seq![Term::apply(op, Term::Number(a), Term::Number(b))];
    assert(eval_step(s0, postfix[0], doc) == Some(s1)) by {
        assert(s0.push(postfix[0]) =~= s1);
    }
    assert(eval_step(s1, postfix[1], doc) == Some(s2)) by {
        assert(s1.push(postfix[1]) =~= s2);
    }
    assert(eval_step(s2, postfix[2], doc) == Some(s3)) by {
        assert(s2.take(0).push(Term::apply(op, s2[0], s2[1])) =~= s3);
    }
    assert(eval_from(s3, postfix, 3, doc) == Some(s3));
    assert(eval_from(s2, postfix, 2, doc) == Some(s3));
    assert(eval_from(s1, postfix, 1, doc) == Some(s3));
    assert(eval_from(s0, postfix, 0, doc) == Some(s3));
}

/// A variable that names nothing in the context stands for the missing
/// value.
pub proof fn lemma_unknown_variable(stack: Seq<Term>, name: Seq<char>, doc: Json)
    requires
        resolve(doc, name) is Null,
    ensures
        eval_step(stack, Term::Variable(name), doc) == Some(stack.push(Term::Missing)),
{
}

/// Evaluates `postfix` against `context`. Yields the stack that is left, or
/// `None` where an operator lacks an operand or a grouping marker occurs.
pub fn try_interpret(postfix: &Vec<Operand>, context: &serde_json::Value) -> (r: Option<
    Vec<Operand>,
>)
    ensures
        match evaluation(terms(postfix@), document(*context)) {
            Some(last) => r matches Some(stack) && terms(stack@) == last && all_values(last),
            None => r is None,
        },
{
    proof {
        lemma_evaluation_yields_values(terms(postfix@), document(*context));
    }
    let ghost input = terms(postfix@);
    let ghost doc = document(*context);
    let mut stack: Vec<Operand> = Vec::new();
    proof {
        assert(terms(stack@) =~= Seq::<Term>::empty());
    }
    let mut i: usize = 0;
    while i < postfix.len()
        invariant
            i <= postfix.len(),
            input == terms(postfix@),
            doc == document(*context),
            eval_from(terms(stack@), input, i as int, doc) == evaluation(input, doc),
        decreases postfix.len() - i,
    {
        assert(input[i as int] == postfix@[i as int]@);
        match &postfix[i] {
            Operand::OperatorToken(op) => {
                if stack.len() < 2 {
                    return None;
                }
                let ghost before = stack@;
                let right = stack.pop().unwrap();
                let left = stack.pop().unwrap();
                let result = Operand::apply(op, &left, &right);
                proof {
                    assert(terms(stack@) =~= terms(before).take(before.len() - 2));
                    assert(terms(before)[before.len() - 2] == left@);
                    assert(terms(before)[before.len() - 1] == right@);
                    lemma_terms_push(stack@, result);
                }
                stack.push(result);
            },
            Operand::Variable(name) => {
                let value = var_to_operand(name, context);
                proof {
                    lemma_terms_push(stack@, value);
                }
                stack.push(value);
            },
            Operand::OpenParen => {
                return None;
            },
            Operand::CloseParen => {
                return None;
            },
            other => {
                let value = other.duplicate();
                proof {
                    lemma_terms_push(stack@, value);
                }
                stack.push(value);
            },
        }
        i += 1;
    }
    Some(stack)
}

/// Evaluates the well-formed sequence `postfix` against `context`, and
/// yields the stack that is left.
pub fn interpret(postfix: &Vec<Operand>, context: &serde_json::Value) -> (stack: Vec<Operand>)
    requires
        well_formed(terms(postfix@)),
    ensures
        evaluation(terms(postfix@), document(*context)) == Some(terms(stack@)),
        all_values(terms(stack@)),
{
    proof {
        lemma_well_formed_evaluates(terms(postfix@), document(*context));
    }
    try_interpret(postfix, context).unwrap()
}

} // verus!
