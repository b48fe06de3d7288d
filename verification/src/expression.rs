//! What an expression means. An expression is a tree; written in infix
//! order it is what the tokenizer reads, and converting and evaluating those
//! tokens yields the value of the tree.
use vstd::prelude::*;
use crate::context::{resolve, Json};
use crate::executor::{eval_from, eval_step, evaluation};
use crate::fault::Fault;
use crate::infix::{infix_from, valid_infix};
use crate::operand::{lemma_missing_operand, Operator, Term};
use crate::postfix::{binding, postfix_of, Yard};

verus! {

/// An expression: a value or a variable, an expression in parens, or two
/// expressions joined by an operator.
pub enum Expr {
    Leaf(Term),
    Group(Box<Expr>),
    Binary(Box<Expr>, Operator, Box<Expr>),
}

/// A binding strength above that of every operator.
pub open spec fn tightest() -> int {
    3
}

impl Expr {
    /// The tokens of the expression in infix order.
    pub open spec fn infix(self) -> Seq<Term>
        decreases self,
    {
        match self {
            Expr::Leaf(t) => seq![t],
            Expr::Group(inner) => seq![Term::OpenParen] + inner.infix() + seq![Term::CloseParen],
            Expr::Binary(left, op, right) => left.infix() + seq![Term::Operator(op)]
                + right.infix(),
        }
    }

    /// The tokens of the expression in postfix order: the operands of each
    /// operator before it, and no parens.
    pub open spec fn postfix(self) -> Seq<Term>
        decreases self,
    {
        match self {
            Expr::Leaf(t) => seq![t],
            Expr::Group(inner) => inner.postfix(),
            Expr::Binary(left, op, right) => left.postfix() + right.postfix() + seq![
                Term::Operator(op),
            ],
        }
    }

    /// The value of the expression in the context `doc`.
    pub open spec fn value(self, doc: Json) -> Term
        decreases self,
    {
        match self {
            Expr::Leaf(Term::Variable(name)) => resolve(doc, name).operand(),
            Expr::Leaf(t) => t,
            Expr::Group(inner) => inner.value(doc),
            Expr::Binary(left, op, right) => Term::apply(op, left.value(doc), right.value(doc)),
        }
    }

    /// The binding strength of the operator that joins the expression at its
    /// top; that of a leaf or a group is above every operator's.
    pub open spec fn strength(self) -> int {
        match self {
            Expr::Binary(_, op, _) => binding(op),
            _ => tightest(),
        }
    }

    /// Whether the tree is the one that the binding strengths give to its
    /// infix form: what stands left of an operator binds at least as tightly
    /// as it, what stands right binds more tightly, so that operators of one
    /// strength group from the left. A leaf is a value or a variable.
    pub open spec fn by_binding(self) -> bool
        decreases self,
    {
        match self {
            Expr::Leaf(t) => !(t is Operator) && !(t is OpenParen) && !(t is CloseParen),
            Expr::Group(inner) => inner.by_binding(),
            Expr::Binary(left, op, right) => {
                &&& left.by_binding()
                &&& right.by_binding()
                &&& left.strength() >= binding(op)
                &&& right.strength() > binding(op)
            },
        }
    }

    /// The operators that still wait on the stack once the expression has
    /// been read, the one to leave last first.
    pub open spec fn pending(self) -> Seq<Term>
        decreases self,
    {
        match self {
            Expr::Binary(_, op, right) => seq![Term::Operator(op)] + right.pending(),
            _ => Seq::empty(),
        }
    }

    /// What has reached the output once the expression has been read.
    pub open spec fn settled(self) -> Seq<Term>
        decreases self,
    {
        match self {
            Expr::Leaf(t) => seq![t],
            Expr::Group(inner) => inner.postfix(),
            Expr::Binary(left, _, right) => left.postfix() + right.settled(),
        }
    }
}

/// The order in which what waits on a stack leaves it: the top first.
pub open spec fn unloaded(stack: Seq<Term>) -> Seq<Term>
    decreases stack.len(),
{
    if stack.len() == 0 {
        Seq::empty()
    } else {
        seq![stack.last()] + unloaded(stack.drop_last())
    }
}

/// Whether every entry of `stack` is an operator that binds at least as
/// tightly as `strength`.
pub open spec fn all_bind(stack: Seq<Term>, strength: int) -> bool {
    forall|i: int|
        0 <= i < stack.len() ==> (#[trigger] stack[i] matches Term::Operator(op) && binding(op)
            >= strength)
}

/// Whether the top of `stack` stays where it is when an operator of
/// `strength` arrives.
pub open spec fn holds_against(stack: Seq<Term>, strength: int) -> bool {
    stack.len() == 0 || !(stack.last() matches Term::Operator(top) && binding(top) >= strength)
}

proof fn lemma_unloaded_front(first: Term, rest: Seq<Term>)
    ensures
        unloaded(seq![first] + rest) == unloaded(rest) + seq![first],
    decreases rest.len(),
{
    let all = seq![first] + rest;
    if rest.len() == 0 {
        assert(all.drop_last() =~= Seq::<Term>::empty());
        assert(unloaded(all.drop_last()) =~= Seq::<Term>::empty());
        assert(unloaded(all) =~= seq![first]);
        assert(unloaded(rest) + seq![first] =~= seq![first]);
    } else {
        assert(all.last() == rest.last());
        assert(all.drop_last() =~= seq![first] + rest.drop_last());
        lemma_unloaded_front(first, rest.drop_last());
        assert(seq![rest.last()] + (unloaded(rest.drop_last()) + seq![first]) =~= (seq![
            rest.last(),
        ] + unloaded(rest.drop_last())) + seq![first]);
    }
}

/// What has settled, and then what waits, is the expression in postfix
/// order.
proof fn lemma_settled_then_pending(e: Expr)
    ensures
        e.settled() + unloaded(e.pending()) == e.postfix(),
    decreases e,
{
    match e {
        Expr::Binary(left, op, right) => {
            lemma_settled_then_pending(*right);
            lemma_unloaded_front(Term::Operator(op), right.pending());
            assert((left.postfix() + right.settled()) + (unloaded(right.pending()) + seq![
                Term::Operator(op),
            ]) =~= left.postfix() + (right.settled() + unloaded(right.pending())) + seq![
                Term::Operator(op),
            ]);
        },
        _ => {
            assert(unloaded(Seq::<Term>::empty()) =~= Seq::<Term>::empty());
            assert(e.settled() + Seq::<Term>::empty() =~= e.settled());
        },
    }
}

/// Every operator that waits binds at least as tightly as the expression.
proof fn lemma_pending_binds(e: Expr)
    requires
        e.by_binding(),
    ensures
        all_bind(e.pending(), e.strength()),
    decreases e,
{
    match e {
        Expr::Binary(_, op, right) => {
            lemma_pending_binds(*right);
            let p = e.pending();
            assert forall|i: int| 0 <= i < p.len() implies (#[trigger] p[i] matches Term::Operator(
                o,
            ) && binding(o) >= binding(op)) by {
                if i > 0 {
                    assert(p[i] == right.pending()[i - 1]);
                }
            }
        },
        _ => {},
    }
}

/// An arriving operator sends off every operator above `below` that binds
/// at least as tightly as it.
proof fn lemma_yield_all(below: Seq<Term>, above: Seq<Term>, output: Seq<Term>, op: Operator)
    requires
        all_bind(above, binding(op)),
        holds_against(below, binding(op)),
    ensures
        (Yard { stack: below + above, output }).yielded(op) == (Yard {
            stack: below,
            output: output + unloaded(above),
        }),
    decreases above.len(),
{
    let yard = Yard { stack: below + above, output };
    if above.len() == 0 {
        assert(below + above =~= below);
        assert(output + unloaded(above) =~= output);
    } else {
        assert(yard.stack.last() == above.last());
        assert(above.last() == above[above.len() - 1]);
        assert(yard.stack.drop_last() =~= below + above.drop_last());
        assert forall|i: int| 0 <= i < above.drop_last().len() implies (
        #[trigger] above.drop_last()[i] matches Term::Operator(o) && binding(o) >= binding(op)) by {
            assert(above.drop_last()[i] == above[i]);
        }
        lemma_yield_all(below, above.drop_last(), output.push(above.last()), op);
        assert(output.push(above.last()) + unloaded(above.drop_last()) =~= output + unloaded(
            above,
        ));
    }
}

/// A closing paren sends off every operator above the opening paren.
proof fn lemma_drain_all(below: Seq<Term>, above: Seq<Term>, output: Seq<Term>, strength: int)
    requires
        all_bind(above, strength),
        below.len() > 0,
        below.last() is OpenParen,
    ensures
        (Yard { stack: below + above, output }).drained() == (Yard {
            stack: below,
            output: output + unloaded(above),
        }),
    decreases above.len(),
{
    let yard = Yard { stack: below + above, output };
    if above.len() == 0 {
        assert(below + above =~= below);
        assert(output + unloaded(above) =~= output);
    } else {
        assert(yard.stack.last() == above.last());
        assert(above.last() == above[above.len() - 1]);
        assert(yard.stack.drop_last() =~= below + above.drop_last());
        assert forall|i: int| 0 <= i < above.drop_last().len() implies (
        #[trigger] above.drop_last()[i] matches Term::Operator(o) && binding(o) >= strength) by {
            assert(above.drop_last()[i] == above[i]);
        }
        lemma_drain_all(below, above.drop_last(), output.push(above.last()), strength);
        assert(output.push(above.last()) + unloaded(above.drop_last()) =~= output + unloaded(
            above,
        ));
    }
}

/// The end of the input sends off every operator that waits.
proof fn lemma_finish_all(stack: Seq<Term>, output: Seq<Term>, strength: int)
    requires
        all_bind(stack, strength),
    ensures
        (Yard { stack, output }).finished() == Ok::<Seq<Term>, Fault>(output + unloaded(stack)),
    decreases stack.len(),
{
    if stack.len() == 0 {
        assert(output + unloaded(stack) =~= output);
    } else {
        assert(stack.last() == stack[stack.len() - 1]);
        assert forall|i: int| 0 <= i < stack.drop_last().len() implies (
        #[trigger] stack.drop_last()[i] matches Term::Operator(o) && binding(o) >= strength) by {
            assert(stack.drop_last()[i] == stack[i]);
        }
        lemma_finish_all(stack.drop_last(), output.push(stack.last()), strength);
        assert(output.push(stack.last()) + unloaded(stack.drop_last()) =~= output + unloaded(
            stack,
        ));
    }
}

/// Reading the tokens of an expression, where they stand in `tokens` from
/// `from` on, leaves its pending operators on the stack and what has
/// settled in the output, provided that the top of the stack stays where it
/// is when an operator of the expression arrives.
proof fn lemma_run_expression(yard: Yard, tokens: Seq<Term>, from: int, e: Expr)
    requires
        e.by_binding(),
        0 <= from,
        from + e.infix().len() <= tokens.len(),
        tokens.subrange(from, from + e.infix().len()) == e.infix(),
        holds_against(yard.stack, e.strength()),
    ensures
        yard.run(tokens, from) == (Yard {
            stack: yard.stack + e.pending(),
            output: yard.output + e.settled(),
        }).run(tokens, from + e.infix().len()),
    decreases e,
{
    let n = e.infix().len() as int;
    let span = tokens.subrange(from, from + n);
    match e {
        Expr::Leaf(t) => {
            assert(tokens[from] == span[0]);
            assert(yard.stack + e.pending() =~= yard.stack);
            assert(yard.output + e.settled() =~= yard.output.push(t));
        },
        Expr::Group(inner) => {
            let m = inner.infix().len() as int;
            assert(tokens[from] == span[0]);
            assert(tokens[from + m + 1] == span[m + 1]);
            assert(tokens.subrange(from + 1, from + 1 + m) =~= inner.infix()) by {
                assert forall|i: int| 0 <= i < m implies tokens.subrange(from + 1, from + 1 + m)[i]
                    == inner.infix()[i] by {
                    assert(tokens[from + 1 + i] == span[i + 1]);
                }
            }
            let opened = Yard { stack: yard.stack.push(Term::OpenParen), output: yard.output };
            assert(yard.step(tokens[from]) == Ok::<Yard, Fault>(opened));
            lemma_run_expression(opened, tokens, from + 1, *inner);
            let read = Yard {
                stack: opened.stack + inner.pending(),
                output: opened.output + inner.settled(),
            };
            lemma_pending_binds(*inner);
            lemma_drain_all(opened.stack, inner.pending(), read.output, inner.strength());
            lemma_settled_then_pending(*inner);
            let closed = Yard { stack: yard.stack, output: yard.output + inner.postfix() };
            assert(opened.stack.drop_last() =~= yard.stack);
            assert(yard.output + inner.settled() + unloaded(inner.pending()) =~= yard.output + (
            inner.settled() + unloaded(inner.pending())));
            assert(read.step(tokens[from + m + 1]) == Ok::<Yard, Fault>(closed));
            assert(yard.stack + e.pending() =~= yard.stack);
        },
        Expr::Binary(left, op, right) => {
            let a = left.infix().len() as int;
            let b = right.infix().len() as int;
            assert(tokens.subrange(from, from + a) =~= left.infix()) by {
                assert forall|i: int| 0 <= i < a implies tokens.subrange(from, from + a)[i]
                    == left.infix()[i] by {
                    assert(tokens[from + i] == span[i]);
                }
            }
            assert(tokens[from + a] == span[a]);
            assert(tokens.subrange(from + a + 1, from + a + 1 + b) =~= right.infix()) by {
                assert forall|i: int| 0 <= i < b implies tokens.subrange(
                    from + a + 1,
                    from + a + 1 + b,
                )[i] == right.infix()[i] by {
                    assert(tokens[from + a + 1 + i] == span[a + 1 + i]);
                }
            }
            lemma_run_expression(yard, tokens, from, *left);
            let read = Yard {
                stack: yard.stack + left.pending(),
                output: yard.output + left.settled(),
            };
            lemma_pending_binds(*left);
            assert(all_bind(left.pending(), binding(op))) by {
                assert forall|i: int| 0 <= i < left.pending().len() implies (
                #[trigger] left.pending()[i] matches Term::Operator(o) && binding(o) >= binding(
                    op,
                )) by {}
            }
            lemma_yield_all(yard.stack, left.pending(), read.output, op);
            lemma_settled_then_pending(*left);
            assert(yard.output + left.settled() + unloaded(left.pending()) =~= yard.output + (
            left.settled() + unloaded(left.pending())));
            let joined = Yard {
                stack: yard.stack.push(Term::Operator(op)),
                output: yard.output + left.postfix(),
            };
            assert(read.step(tokens[from + a]) == Ok::<Yard, Fault>(joined));
            assert(joined.stack.last() == Term::Operator(op));
            lemma_run_expression(joined, tokens, from + a + 1, *right);
            assert(joined.stack + right.pending() =~= yard.stack + e.pending());
            assert(joined.output + right.settled() =~= yard.output + e.settled());
        },
    }
}

/// Evaluating the postfix form of an expression, where it stands in
/// `postfix` from `from` on, pushes the value of the expression.
proof fn lemma_eval_expression(stack: Seq<Term>, postfix: Seq<Term>, from: int, e: Expr, doc: Json)
    requires
        e.by_binding(),
        0 <= from,
        from + e.postfix().len() <= postfix.len(),
        postfix.subrange(from, from + e.postfix().len()) == e.postfix(),
    ensures
        eval_from(stack, postfix, from, doc) == eval_from(
            stack.push(e.value(doc)),
            postfix,
            from + e.postfix().len(),
            doc,
        ),
    decreases e,
{
    let n = e.postfix().len() as int;
    let span = postfix.subrange(from, from + n);
    match e {
        Expr::Leaf(t) => {
            assert(postfix[from] == span[0]);
        },
        Expr::Group(inner) => {
            lemma_eval_expression(stack, postfix, from, *inner, doc);
        },
        Expr::Binary(left, op, right) => {
            let a = left.postfix().len() as int;
            let b = right.postfix().len() as int;
            assert(postfix.subrange(from, from + a) =~= left.postfix()) by {
                assert forall|i: int| 0 <= i < a implies postfix.subrange(from, from + a)[i]
                    == left.postfix()[i] by {
                    assert(postfix[from + i] == span[i]);
                }
            }
            assert(postfix.subrange(from + a, from + a + b) =~= right.postfix()) by {
                assert forall|i: int| 0 <= i < b implies postfix.subrange(from + a, from + a + b)[i]
                    == right.postfix()[i] by {
                    assert(postfix[from + a + i] == span[a + i]);
                }
            }
            assert(postfix[from + a + b] == span[a + b]);
            lemma_eval_expression(stack, postfix, from, *left, doc);
            let one = stack.push(left.value(doc));
            lemma_eval_expression(one, postfix, from + a, *right, doc);
            let two = one.push(right.value(doc));
            assert(two.take(two.len() - 2) =~= stack);
            assert(eval_step(two, postfix[from + a + b], doc) == Some(stack.push(e.value(doc))));
        },
    }
}

/// The tokens of an expression, where they stand in `tokens` from `from`
/// on, are read as one operand of an infix expression.
proof fn lemma_infix_expression(tokens: Seq<Term>, from: int, open: nat, e: Expr)
    requires
        e.by_binding(),
        0 <= from,
        from + e.infix().len() <= tokens.len(),
        tokens.subrange(from, from + e.infix().len()) == e.infix(),
    ensures
        infix_from(tokens, from, true, open) == infix_from(
            tokens,
            from + e.infix().len(),
            false,
            open,
        ),
    decreases e,
{
    let n = e.infix().len() as int;
    let span = tokens.subrange(from, from + n);
    match e {
        Expr::Leaf(t) => {
            assert(tokens[from] == span[0]);
        },
        Expr::Group(inner) => {
            let m = inner.infix().len() as int;
            assert(tokens[from] == span[0]);
            assert(tokens[from + m + 1] == span[m + 1]);
            assert(tokens.subrange(from + 1, from + 1 + m) =~= inner.infix()) by {
                assert forall|i: int| 0 <= i < m implies tokens.subrange(from + 1, from + 1 + m)[i]
                    == inner.infix()[i] by {
                    assert(tokens[from + 1 + i] == span[i + 1]);
                }
            }
            lemma_infix_expression(tokens, from + 1, open + 1, *inner);
        },
        Expr::Binary(left, op, right) => {
            let a = left.infix().len() as int;
            let b = right.infix().len() as int;
            assert(tokens.subrange(from, from + a) =~= left.infix()) by {
                assert forall|i: int| 0 <= i < a implies tokens.subrange(from, from + a)[i]
                    == left.infix()[i] by {
                    assert(tokens[from + i] == span[i]);
                }
            }
            assert(tokens[from + a] == span[a]);
            assert(tokens.subrange(from + a + 1, from + a + 1 + b) =~= right.infix()) by {
                assert forall|i: int| 0 <= i < b implies tokens.subrange(
                    from + a + 1,
                    from + a + 1 + b,
                )[i] == right.infix()[i] by {
                    assert(tokens[from + a + 1 + i] == span[a + 1 + i]);
                }
            }
            lemma_infix_expression(tokens, from, open, *left);
            lemma_infix_expression(tokens, from + a + 1, open, *right);
        },
    }
}

/// A variable that names nothing in the context makes the operation that
/// it is an operand of come to nothing: arithmetic yields the missing
/// value and an order comparison yields `false`, on whichever side the
/// variable stands. Equality yields `false` too unless the other operand is
/// missing as well, and inequality is its opposite.
pub proof fn lemma_unknown_variable_operand(name: Seq<char>, op: Operator, other: Expr, doc: Json)
    requires
        resolve(doc, name) is Null,
    ensures
        ({
            let unknown = Expr::Leaf(Term::Variable(name));
            let left = Expr::Binary(Box::new(unknown), op, Box::new(other)).value(doc);
            let right = Expr::Binary(Box::new(other), op, Box::new(unknown)).value(doc);
            &&& unknown.value(doc) == Term::Missing
            &&& op is Plus || op is Substract || op is Multiply || op is Division ==> left
                == Term::Missing && right == Term::Missing
            &&& op is L || op is G || op is LE || op is GE ==> left == Term::Boolean(false)
                && right == Term::Boolean(false)
            &&& op is E ==> left == Term::Boolean(other.value(doc) is Missing) && right
                == Term::Boolean(other.value(doc) is Missing)
            &&& op is NE ==> left == Term::Boolean(!(other.value(doc) is Missing)) && right
                == Term::Boolean(!(other.value(doc) is Missing))
        }),
{
    lemma_missing_operand(op, Term::Missing, other.value(doc));
    lemma_missing_operand(op, other.value(doc), Term::Missing);
}

/// An expression starts with an operand or an opening paren, never with an
/// operator.
pub proof fn lemma_expression_starts_with_operand(e: Expr)
    requires
        e.by_binding(),
    ensures
        e.infix().len() > 0,
        !(e.infix()[0] is Operator),
    decreases e,
{
    match e {
        Expr::Binary(left, _, _) => {
            lemma_expression_starts_with_operand(*left);
        },
        _ => {},
    }
}

/// The tokens of an expression are an infix expression.
pub proof fn lemma_expression_is_valid_infix(e: Expr)
    requires
        e.by_binding(),
    ensures
        valid_infix(e.infix()),
{
    let tokens = e.infix();
    assert(tokens.subrange(0, tokens.len() as int) =~= tokens);
    lemma_infix_expression(tokens, 0, 0, e);
}

/// An expression written in infix order, converted and evaluated, yields
/// its value: the conversion gives the expression in postfix order, and the
/// evaluation of that leaves the value of the expression and nothing else.
pub proof fn lemma_expression_yields_its_value(e: Expr, doc: Json)
    requires
        e.by_binding(),
    ensures
        postfix_of(e.infix()) == Ok::<Seq<Term>, Fault>(e.postfix()),
        evaluation(e.postfix(), doc) == Some(seq![e.value(doc)]),
{
    let tokens = e.infix();
    assert(tokens.subrange(0, tokens.len() as int) =~= tokens);
    lemma_run_expression(Yard::start(), tokens, 0, e);
    let read = Yard {
        stack: Yard::start().stack + e.pending(),
        output: Yard::start().output + e.settled(),
    };
    assert(read.stack =~= e.pending());
    assert(read.output =~= e.settled());
    lemma_pending_binds(e);
    lemma_finish_all(read.stack, read.output, e.strength());
    lemma_settled_then_pending(e);
    let postfix = e.postfix();
    assert(postfix.subrange(0, postfix.len() as int) =~= postfix);
    lemma_eval_expression(Seq::empty(), postfix, 0, e, doc);
    assert(Seq::<Term>::empty().push(e.value(doc)) =~= seq![e.value(doc)]);
}

} // verus!
