//! The tree of an infix expression. Every well-shaped token sequence is the
//! infix form of an expression that is grouped by binding strength, so that
//! what converting and evaluating the tokens yields is the value of that
//! expression.
use vstd::prelude::*;
use crate::context::Json;
use crate::executor::evaluation;
use crate::expression::{lemma_expression_yields_its_value, tightest, Expr};
use crate::fault::Fault;
use crate::infix::{infix_from, valid_infix};
use crate::operand::{Operator, Term};
use crate::postfix::{binding, postfix_of};

verus! {

/// What waits for an operand while an expression is read: an opening paren,
/// or a left operand with its operator.
pub enum Frame {
    Paren,
    Join(Expr, Operator),
}

/// A binding strength that no operator falls below.
pub open spec fn loosest() -> int {
    -1
}

/// The tokens that the frames stand for.
pub open spec fn frames_infix(frames: Seq<Frame>) -> Seq<Term>
    decreases frames.len(),
{
    if frames.len() == 0 {
        Seq::empty()
    } else {
        frames_infix(frames.drop_last()) + match frames.last() {
            Frame::Paren => seq![Term::OpenParen],
            Frame::Join(left, op) => left.infix() + seq![Term::Operator(op)],
        }
    }
}

/// The number of opening parens among the frames.
pub open spec fn parens_among(frames: Seq<Frame>) -> nat
    decreases frames.len(),
{
    if frames.len() == 0 {
        0
    } else if frames.last() is Paren {
        parens_among(frames.drop_last()) + 1
    } else {
        parens_among(frames.drop_last())
    }
}

/// Joins `right` to the left operands that wait on top of the frames, for as
/// long as their operators bind at least as tightly as `strength`.
pub open spec fn folded(frames: Seq<Frame>, right: Expr, strength: int) -> (Seq<Frame>, Expr)
    decreases frames.len(),
{
    if frames.len() > 0 && (frames.last() matches Frame::Join(left, op) && binding(op)
        >= strength) {
        folded(
            frames.drop_last(),
            Expr::Binary(Box::new(frames.last()->Join_0), frames.last()->Join_1, Box::new(right)),
            strength,
        )
    } else {
        (frames, right)
    }
}

/// Whether the left operand of a frame is grouped by binding and binds at
/// least as tightly as its operator.
pub open spec fn fits(frame: Frame) -> bool {
    match frame {
        Frame::Join(left, op) => left.by_binding() && left.strength() >= binding(op),
        Frame::Paren => true,
    }
}

/// Whether, where two operators wait at `i` and right above, the upper one
/// binds more tightly.
pub open spec fn rises(frames: Seq<Frame>, i: int) -> bool {
    match (frames[i], frames[i + 1]) {
        (Frame::Join(_, lower), Frame::Join(_, upper)) => binding(lower) < binding(upper),
        _ => true,
    }
}

/// Whether all frames fit and rise.
pub open spec fn orderly(frames: Seq<Frame>) -> bool {
    &&& forall|i: int| 0 <= i < frames.len() ==> fits(#[trigger] frames[i])
    &&& forall|i: int| 0 <= i < frames.len() - 1 ==> #[trigger] rises(frames, i)
}

/// A point in the reading of an expression: what waits, and the operand
/// that was read last, if an operator is due next.
pub struct Reading {
    pub frames: Seq<Frame>,
    pub operand: Option<Expr>,
}

impl Reading {
    /// The reading before the first token.
    pub open spec fn start() -> Reading {
        Reading { frames: Seq::empty(), operand: None }
    }

    /// The tokens read so far.
    pub open spec fn infix(self) -> Seq<Term> {
        frames_infix(self.frames) + match self.operand {
            Some(e) => e.infix(),
            None => Seq::empty(),
        }
    }

    /// The reading after the token `t`.
    pub open spec fn step(self, t: Term) -> Reading {
        match t {
            Term::OpenParen => Reading { frames: self.frames.push(Frame::Paren), operand: None },
            Term::CloseParen => {
                let (frames, inner) = folded(self.frames, self.operand->Some_0, loosest());
                Reading {
                    frames: frames.drop_last(),
                    operand: Some(Expr::Group(Box::new(inner))),
                }
            },
            Term::Operator(op) => {
                let (frames, left) = folded(self.frames, self.operand->Some_0, binding(op));
                Reading { frames: frames.push(Frame::Join(left, op)), operand: None }
            },
            _ => Reading { frames: self.frames, operand: Some(Expr::Leaf(t)) },
        }
    }

    /// The reading after the tokens `tokens[from..]`.
    pub open spec fn run(self, tokens: Seq<Term>, from: int) -> Reading
        decreases tokens.len() - from,
    {
        if 0 <= from < tokens.len() {
            self.step(tokens[from]).run(tokens, from + 1)
        } else {
            self
        }
    }

    /// Whether the reading is sound: every left operand that waits is
    /// grouped by binding and binds at least as tightly as its operator; of
    /// two operators that wait one upon the other the upper binds more
    /// tightly; and the operand read last is a leaf or a group.
    pub open spec fn sound(self) -> bool {
        &&& orderly(self.frames)
        &&& self.operand matches Some(e) ==> e.by_binding() && e.strength() == tightest()
    }
}

/// The expression that the infix token sequence `tokens` writes.
pub open spec fn tree_of(tokens: Seq<Term>) -> Expr {
    let read = Reading::start().run(tokens, 0);
    folded(read.frames, read.operand->Some_0, loosest()).1
}

/// Every operator binds at least as tightly as the loosest strength, and
/// less tightly than the tightest.
proof fn lemma_binding_bounds(op: Operator)
    ensures
        loosest() <= binding(op) < tightest(),
{
}

/// The tokens of frames with one more frame.
proof fn lemma_frames_push(frames: Seq<Frame>, frame: Frame)
    ensures
        frames_infix(frames.push(frame)) == frames_infix(frames) + match frame {
            Frame::Paren => seq![Term::OpenParen],
            Frame::Join(left, op) => left.infix() + seq![Term::Operator(op)],
        },
        parens_among(frames.push(frame)) == parens_among(frames) + if frame is Paren {
            1nat
        } else {
            0nat
        },
{
    assert(frames.push(frame).drop_last() =~= frames);
    assert(frames.push(frame).last() == frame);
}

/// Orderly frames stay orderly without their top.
proof fn lemma_orderly_below(frames: Seq<Frame>)
    requires
        orderly(frames),
        frames.len() > 0,
    ensures
        orderly(frames.drop_last()),
{
    let rest = frames.drop_last();
    assert forall|i: int| 0 <= i < rest.len() implies fits(#[trigger] rest[i]) by {
        assert(rest[i] == frames[i]);
    }
    assert forall|i: int| 0 <= i < rest.len() - 1 implies #[trigger] rises(rest, i) by {
        assert(rises(frames, i));
        assert(rest[i] == frames[i]);
        assert(rest[i + 1] == frames[i + 1]);
    }
}

/// Orderly frames stay orderly with a frame on top that fits and rises
/// above the top.
proof fn lemma_orderly_push(frames: Seq<Frame>, frame: Frame)
    requires
        orderly(frames),
        fits(frame),
        frames.len() > 0 ==> match (frames.last(), frame) {
            (Frame::Join(_, lower), Frame::Join(_, upper)) => binding(lower) < binding(upper),
            _ => true,
        },
    ensures
        orderly(frames.push(frame)),
{
    let next = frames.push(frame);
    assert forall|i: int| 0 <= i < next.len() implies fits(#[trigger] next[i]) by {
        if i < frames.len() {
            assert(next[i] == frames[i]);
        }
    }
    assert forall|i: int| 0 <= i < next.len() - 1 implies #[trigger] rises(next, i) by {
        assert(next[i] == frames[i]);
        if i + 1 < frames.len() {
            assert(rises(frames, i));
            assert(next[i + 1] == frames[i + 1]);
        } else {
            assert(frames.last() == frames[i]);
            assert(next[i + 1] == frame);
        }
    }
}

/// Folding keeps the tokens and the parens, leaves sound frames sound, and
/// yields an operand that is grouped by binding and binds at least as
/// tightly as `strength`. It stops below the frames that it joined: at the
/// bottom, at a paren, or at an operator that binds less tightly than
/// `strength`.
proof fn lemma_folded(frames: Seq<Frame>, right: Expr, strength: int)
    requires
        orderly(frames),
        right.by_binding(),
        right.strength() >= strength,
        frames.len() > 0 ==> match frames.last() {
            Frame::Join(_, op) => right.strength() > binding(op),
            Frame::Paren => true,
        },
    ensures
        ({
            let (below, joined) = folded(frames, right, strength);
            &&& orderly(below)
            &&& joined.by_binding()
            &&& joined.strength() >= strength
            &&& frames_infix(below) + joined.infix() == frames_infix(frames) + right.infix()
            &&& parens_among(below) == parens_among(frames)
            &&& below.len() > 0 ==> match below.last() {
                Frame::Join(_, op) => binding(op) < strength && joined.strength() > binding(op),
                Frame::Paren => true,
            }
        }),
    decreases frames.len(),
{
    if frames.len() > 0 && (frames.last() matches Frame::Join(left, op) && binding(op)
        >= strength) {
        let left = frames.last()->Join_0;
        let op = frames.last()->Join_1;
        let rest = frames.drop_last();
        let joined = Expr::Binary(Box::new(left), op, Box::new(right));
        assert(frames.last() == frames[frames.len() - 1]);
        assert(fits(frames[frames.len() - 1]));
        assert(joined.by_binding());
        assert(joined.strength() == binding(op));
        lemma_orderly_below(frames);
        if rest.len() > 0 {
            assert(rest.last() == frames[frames.len() - 2]);
            assert(rises(frames, frames.len() - 2));
        }
        lemma_folded(rest, joined, strength);
        assert(frames_infix(frames) + right.infix() =~= frames_infix(rest) + joined.infix()) by {
            assert(frames_infix(frames) == frames_infix(rest) + (left.infix() + seq![
                Term::Operator(op),
            ]));
            assert(joined.infix() == left.infix() + seq![Term::Operator(op)] + right.infix());
        }
    }
}

/// A fold at the loosest strength joins every operator that waits above the
/// topmost paren.
proof fn lemma_folded_to_paren(frames: Seq<Frame>, right: Expr)
    ensures
        folded(frames, right, loosest()).0.len() > 0 ==> folded(
            frames,
            right,
            loosest(),
        ).0.last() is Paren,
    decreases frames.len(),
{
    if frames.len() > 0 {
        match frames.last() {
            Frame::Join(left, op) => {
                lemma_binding_bounds(op);
                lemma_folded_to_paren(
                    frames.drop_last(),
                    Expr::Binary(Box::new(left), op, Box::new(right)),
                );
            },
            Frame::Paren => {},
        }
    }
}

/// Frames without a paren that end in a paren do not exist.
proof fn lemma_paren_counts(frames: Seq<Frame>)
    requires
        frames.len() > 0,
        frames.last() is Paren,
    ensures
        parens_among(frames) > 0,
{
}

/// One token of a well-shaped expression keeps the reading sound and adds
/// the token to what was read.
proof fn lemma_step_sound(read: Reading, t: Term, open: nat)
    requires
        read.sound(),
        parens_among(read.frames) == open,
        match t {
            Term::OpenParen => read.operand is None,
            Term::CloseParen => read.operand is Some && open > 0,
            Term::Operator(_) => read.operand is Some,
            _ => read.operand is None,
        },
    ensures
        read.step(t).sound(),
        read.step(t).infix() == read.infix().push(t),
        read.step(t).operand is None <==> t is OpenParen || t is Operator,
        parens_among(read.step(t).frames) == match t {
            Term::OpenParen => open + 1,
            Term::CloseParen => (open - 1) as nat,
            _ => open,
        },
{
    let next = read.step(t);
    match t {
        Term::OpenParen => {
            lemma_frames_push(read.frames, Frame::Paren);
            lemma_orderly_push(read.frames, Frame::Paren);
            assert(next.infix() =~= read.infix().push(t));
        },
        Term::CloseParen => {
            let inner = read.operand->Some_0;
            if read.frames.len() > 0 {
                if let Frame::Join(_, op) = read.frames.last() {
                    lemma_binding_bounds(op);
                }
            }
            lemma_folded(read.frames, inner, loosest());
            lemma_folded_to_paren(read.frames, inner);
            let (below, joined) = folded(read.frames, inner, loosest());
            assert(below.len() > 0);
            lemma_orderly_below(below);
            let rest = below.drop_last();
            assert(frames_infix(below) == frames_infix(rest) + seq![Term::OpenParen]);
            let group = Expr::Group(Box::new(joined));
            assert(group.infix() == seq![Term::OpenParen] + joined.infix() + seq![
                Term::CloseParen,
            ]);
            assert(group.by_binding());
            assert(next.infix() =~= read.infix().push(t)) by {
                assert(frames_infix(rest) + group.infix() =~= (frames_infix(below)
                    + joined.infix()).push(t));
            }
        },
        Term::Operator(op) => {
            let right = read.operand->Some_0;
            lemma_binding_bounds(op);
            if read.frames.len() > 0 {
                if let Frame::Join(_, o) = read.frames.last() {
                    lemma_binding_bounds(o);
                }
            }
            lemma_folded(read.frames, right, binding(op));
            let (below, left) = folded(read.frames, right, binding(op));
            lemma_frames_push(below, Frame::Join(left, op));
            lemma_orderly_push(below, Frame::Join(left, op));
            assert(next.infix() =~= read.infix().push(t)) by {
                assert(frames_infix(below) + (left.infix() + seq![Term::Operator(op)]) =~= (
                frames_infix(below) + left.infix()).push(t));
            }
        },
        _ => {
            assert(Expr::Leaf(t).by_binding());
            assert(next.infix() =~= read.infix().push(t));
        },
    }
}

/// The rest of a well-shaped expression keeps the reading sound to the end,
/// where an operand has been read, no paren is open and all tokens were
/// read.
proof fn lemma_run_sound(read: Reading, tokens: Seq<Term>, from: int, open: nat)
    requires
        0 <= from <= tokens.len(),
        read.sound(),
        parens_among(read.frames) == open,
        read.infix() == tokens.take(from),
        infix_from(tokens, from, read.operand is None, open),
    ensures
        read.run(tokens, from).sound(),
        read.run(tokens, from).operand is Some,
        parens_among(read.run(tokens, from).frames) == 0,
        read.run(tokens, from).infix() == tokens,
    decreases tokens.len() - from,
{
    if from < tokens.len() {
        let t = tokens[from];
        lemma_step_sound(read, t, open);
        assert(tokens.take(from).push(t) =~= tokens.take(from + 1));
        let next = read.step(t);
        match t {
            Term::OpenParen => lemma_run_sound(next, tokens, from + 1, open + 1),
            Term::CloseParen => lemma_run_sound(next, tokens, from + 1, (open - 1) as nat),
            _ => lemma_run_sound(next, tokens, from + 1, open),
        }
    } else {
        assert(tokens.take(from) =~= tokens);
    }
}

/// Every infix expression has a tree: an expression that is grouped by
/// binding strength and whose infix form is the token sequence.
pub proof fn lemma_infix_has_tree(tokens: Seq<Term>)
    requires
        valid_infix(tokens),
    ensures
        tree_of(tokens).by_binding(),
        tree_of(tokens).infix() == tokens,
{
    let start = Reading::start();
    assert(start.infix() =~= tokens.take(0));
    lemma_run_sound(start, tokens, 0, 0);
    let read = start.run(tokens, 0);
    let last = read.operand->Some_0;
    if read.frames.len() > 0 {
        if let Frame::Join(_, op) = read.frames.last() {
            lemma_binding_bounds(op);
        }
    }
    lemma_folded(read.frames, last, loosest());
    lemma_folded_to_paren(read.frames, last);
    let (below, tree) = folded(read.frames, last, loosest());
    if below.len() > 0 {
        lemma_paren_counts(below);
    }
    assert(frames_infix(below) + tree.infix() =~= tree.infix());
}

/// The frames that wait once the expression has been read.
pub open spec fn waiting_frames(e: Expr) -> Seq<Frame>
    decreases e,
{
    match e {
        Expr::Binary(left, op, right) => seq![Frame::Join(*left, op)] + waiting_frames(*right),
        _ => Seq::empty(),
    }
}

/// The operand that was read last once the expression has been read.
pub open spec fn last_operand(e: Expr) -> Expr
    decreases e,
{
    match e {
        Expr::Binary(_, _, right) => last_operand(*right),
        _ => e,
    }
}

/// Folding what waits of an expression gives the expression back.
proof fn lemma_fold_waiting(frames: Seq<Frame>, e: Expr, strength: int)
    requires
        e.by_binding(),
        strength <= e.strength(),
    ensures
        folded(frames + waiting_frames(e), last_operand(e), strength) == folded(
            frames,
            e,
            strength,
        ),
    decreases e,
{
    match e {
        Expr::Binary(left, op, right) => {
            let join = Frame::Join(*left, op);
            let upper = frames.push(join);
            assert(frames + waiting_frames(e) =~= upper + waiting_frames(*right));
            lemma_fold_waiting(upper, *right, strength);
            assert(upper.last() == join);
            assert(upper.drop_last() =~= frames);
        },
        _ => {
            assert(frames + waiting_frames(e) =~= frames);
        },
    }
}

/// Reading the tokens of an expression, where they stand in `tokens` from
/// `from` on, leaves what waits of it on the frames, provided that the
/// operator on top of the frames binds less tightly than the expression.
proof fn lemma_read_expression(frames: Seq<Frame>, tokens: Seq<Term>, from: int, e: Expr)
    requires
        e.by_binding(),
        0 <= from,
        from + e.infix().len() <= tokens.len(),
        tokens.subrange(from, from + e.infix().len()) == e.infix(),
        frames.len() > 0 ==> match frames.last() {
            Frame::Join(_, op) => binding(op) < e.strength(),
            Frame::Paren => true,
        },
    ensures
        (Reading { frames, operand: None }).run(tokens, from) == (Reading {
            frames: frames + waiting_frames(e),
            operand: Some(last_operand(e)),
        }).run(tokens, from + e.infix().len()),
    decreases e,
{
    let n = e.infix().len() as int;
    let span = tokens.subrange(from, from + n);
    let read = Reading { frames, operand: None };
    match e {
        Expr::Leaf(t) => {
            assert(tokens[from] == span[0]);
            assert(frames + waiting_frames(e) =~= frames);
        },
        Expr::Group(inner) => {
            let m = inner.infix().len() as int;
            assert(tokens[from] == span[0]);
            assert(tokens[from + m + 1] == span[m + 1]);
            assert(tokens.subrange(from + 1, from + 1 + m) =~= inner.infix()) by {
                assert forall|i: int| 0 <= i < m implies tokens.subrange(from + 1, from + 1 + m)[i]
                    == inner.infix()[i] by {
                    assert(tokens[from + 1 + i] == span[i + 1]);
                }
            }
            let opened = frames.push(Frame::Paren);
            assert(read.step(tokens[from]) == Reading { frames: opened, operand: None });
            lemma_read_expression(opened, tokens, from + 1, *inner);
            let within = Reading {
                frames: opened + waiting_frames(*inner),
                operand: Some(last_operand(*inner)),
            };
            lemma_fold_waiting(opened, *inner, loosest());
            assert(folded(opened, *inner, loosest()) == (opened, *inner));
            assert(opened.drop_last() =~= frames);
            assert(within.step(tokens[from + m + 1]) == Reading { frames, operand: Some(e) });
            assert(frames + waiting_frames(e) =~= frames);
        },
        Expr::Binary(left, op, right) => {
            let a = left.infix().len() as int;
            let b = right.infix().len() as int;
            assert(tokens.subrange(from, from + a) =~= left.infix()) by {
                assert forall|i: int| 0 <= i < a implies tokens.subrange(from, from + a)[i]
                    == left.infix()[i] by {
                    assert(tokens[from + i] == span[i]);
                }
            }
            assert(tokens[from + a] == span[a]);
            assert(tokens.subrange(from + a + 1, from + a + 1 + b) =~= right.infix()) by {
                assert forall|i: int| 0 <= i < b implies tokens.subrange(
                    from + a + 1,
                    from + a + 1 + b,
                )[i] == right.infix()[i] by {
                    assert(tokens[from + a + 1 + i] == span[a + 1 + i]);
                }
            }
            lemma_read_expression(frames, tokens, from, *left);
            let after_left = Reading {
                frames: frames + waiting_frames(*left),
                operand: Some(last_operand(*left)),
            };
            lemma_fold_waiting(frames, *left, binding(op));
            assert(folded(frames, *left, binding(op)) == (frames, *left));
            let joined = frames.push(Frame::Join(*left, op));
            assert(after_left.step(tokens[from + a]) == Reading { frames: joined, operand: None });
            assert(joined.last() == Frame::Join(*left, op));
            lemma_read_expression(joined, tokens, from + a + 1, *right);
            assert(joined + waiting_frames(*right) =~= frames + waiting_frames(e));
        },
    }
}

/// The tree of the infix form of an expression is the expression.
pub proof fn lemma_tree_of_infix(e: Expr)
    requires
        e.by_binding(),
    ensures
        tree_of(e.infix()) == e,
{
    let tokens = e.infix();
    assert(tokens.subrange(0, tokens.len() as int) =~= tokens);
    lemma_read_expression(Seq::empty(), tokens, 0, e);
    assert(Seq::<Frame>::empty() + waiting_frames(e) =~= waiting_frames(e));
    lemma_fold_waiting(Seq::empty(), e, loosest());
    if let Expr::Binary(_, op, _) = e {
        lemma_binding_bounds(op);
    }
}

/// An infix expression has one tree only: two expressions that are grouped
/// by binding and have one infix form are one expression.
pub proof fn lemma_tree_is_unique(first: Expr, second: Expr)
    requires
        first.by_binding(),
        second.by_binding(),
        first.infix() == second.infix(),
    ensures
        first == second,
{
    lemma_tree_of_infix(first);
    lemma_tree_of_infix(second);
}

/// What an infix expression comes to: converting its tokens gives the
/// postfix form of its tree, and evaluating that gives the value of its
/// tree and nothing else.
pub proof fn lemma_infix_yields_the_value_of_its_tree(tokens: Seq<Term>, doc: Json)
    requires
        valid_infix(tokens),
    ensures
        postfix_of(tokens) == Ok::<Seq<Term>, Fault>(tree_of(tokens).postfix()),
        evaluation(tree_of(tokens).postfix(), doc) == Some(seq![tree_of(tokens).value(doc)]),
{
    lemma_infix_has_tree(tokens);
    lemma_expression_yields_its_value(tree_of(tokens), doc);
}

} // verus!
