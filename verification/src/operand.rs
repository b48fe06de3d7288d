//! The values and tokens of the expression language, and what each operator
//! makes of two values.
use vstd::prelude::*;
use crate::number::Number;
use crate::text::chars_of;

verus! {

/// The operators of the expression language.
#[derive(Debug, PartialEq, Eq, Clone, Copy, Structural)]
pub enum Operator {
    Plus,
    Substract,
    Multiply,
    Division,
    L,
    G,
    LE,
    GE,
    E,
    NE,
}

/// A token or a value. `Missing` is what a missing variable, a division by
/// zero and ill-typed arithmetic yield.
#[derive(Debug, PartialEq, Clone)]
pub enum Operand {
    Missing,
    Boolean(bool),
    Number(Number),
    String(String),
    Variable(String),
    OperatorToken(Operator),
    OpenParen,
    CloseParen,
}

/// The mathematical content of an [`Operand`].
pub enum Term {
    Missing,
    Boolean(bool),
    Number(Number),
    Text(Seq<char>),
    Variable(Seq<char>),
    Operator(Operator),
    OpenParen,
    CloseParen,
}

impl View for Operand {
    type V = Term;

    open spec fn view(&self) -> Term {
        match *self {
            Operand::Missing => Term::Missing,
            Operand::Boolean(b) => Term::Boolean(b),
            Operand::Number(n) => Term::Number(n),
            Operand::String(s) => Term::Text(s@),
            Operand::Variable(s) => Term::Variable(s@),
            Operand::OperatorToken(o) => Term::Operator(o),
            Operand::OpenParen => Term::OpenParen,
            Operand::CloseParen => Term::CloseParen,
        }
    }
}

/// The contents of a sequence of operands.
pub open spec fn terms(s: Seq<Operand>) -> Seq<Term> {
    s.map_values(|o: Operand| o@)
}

/// The contents of a sequence with one more operand are those of the
/// sequence with one more term.
pub proof fn lemma_terms_push(s: Seq<Operand>, o: Operand)
    ensures
        terms(s.push(o)) == terms(s).push(o@),
{
    assert(terms(s.push(o)) =~= terms(s).push(o@));
}

/// Lexicographic order on sequences of characters, from position `i` on.
pub open spec fn text_less_from(a: Seq<char>, b: Seq<char>, i: int) -> bool
    decreases a.len() - i,
{
    if i >= b.len() {
        false
    } else if i >= a.len() {
        true
    } else if a[i] != b[i] {
        (a[i] as u32) < (b[i] as u32)
    } else {
        text_less_from(a, b, i + 1)
    }
}

/// Lexicographic order on sequences of characters: `a` comes before `b`.
pub open spec fn text_less(a: Seq<char>, b: Seq<char>) -> bool {
    text_less_from(a, b, 0)
}

impl Term {
    /// A value: what the evaluator keeps on its stack.
    pub open spec fn is_value(self) -> bool {
        self is Missing || self is Boolean || self is Number || self is Text
    }

    /// A number, or the missing value where there is none.
    pub open spec fn number_or_missing(n: Option<Number>) -> Term {
        match n {
            Some(q) => Term::Number(q),
            None => Term::Missing,
        }
    }

    /// `l < r`: numbers by value, texts lexicographically, nothing else.
    pub open spec fn before(l: Term, r: Term) -> bool {
        match (l, r) {
            (Term::Number(a), Term::Number(b)) => a.less(b),
            (Term::Text(a), Term::Text(b)) => text_less(a, b),
            _ => false,
        }
    }

    /// `l <= r`: numbers by value, texts lexicographically, nothing else.
    pub open spec fn not_after(l: Term, r: Term) -> bool {
        match (l, r) {
            (Term::Number(a), Term::Number(b)) => !b.less(a),
            (Term::Text(a), Term::Text(b)) => !text_less(b, a),
            _ => false,
        }
    }

    /// `l = r`: two values of one kind that are the same; two missing values
    /// are equal, values of different kinds never are.
    pub open spec fn equal(l: Term, r: Term) -> bool {
        match (l, r) {
            (Term::Number(a), Term::Number(b)) => a.same(b),
            (Term::Text(a), Term::Text(b)) => a == b,
            (Term::Boolean(a), Term::Boolean(b)) => a == b,
            (Term::Missing, Term::Missing) => true,
            _ => false,
        }
    }

    /// What `op` makes of the left operand `l` and the right operand `r`.
    pub open spec fn apply(op: Operator, l: Term, r: Term) -> Term {
        match op {
            Operator::Plus => match (l, r) {
                (Term::Number(a), Term::Number(b)) => Term::number_or_missing(a.sum(b)),
                (Term::Text(a), Term::Text(b)) => Term::Text(a + b),
                _ => Term::Missing,
            },
            Operator::Substract => match (l, r) {
                (Term::Number(a), Term::Number(b)) => Term::number_or_missing(a.difference(b)),
                _ => Term::Missing,
            },
            Operator::Multiply => match (l, r) {
                (Term::Number(a), Term::Number(b)) => Term::number_or_missing(a.product(b)),
                _ => Term::Missing,
            },
            Operator::Division => match (l, r) {
                (Term::Number(a), Term::Number(b)) => Term::number_or_missing(a.quotient(b)),
                _ => Term::Missing,
            },
            Operator::L => Term::Boolean(Term::before(l, r)),
            Operator::G => Term::Boolean(Term::before(r, l)),
            Operator::LE => Term::Boolean(Term::not_after(l, r)),
            Operator::GE => Term::Boolean(Term::not_after(r, l)),
            Operator::E => Term::Boolean(Term::equal(l, r)),
            Operator::NE => Term::Boolean(!Term::equal(l, r)),
        }
    }
}

/// Equality is reflexive: every value equals itself, the missing value
/// included.
pub proof fn lemma_equal_reflexive(v: Term)
    requires
        v.is_value(),
    ensures
        Term::equal(v, v),
        Term::apply(Operator::E, v, v) == Term::Boolean(true),
        Term::apply(Operator::NE, v, v) == Term::Boolean(false),
{
}

/// The missing value is contagious. With a missing operand, arithmetic
/// yields the missing value and an order comparison yields `false`. So does
/// equality unless both operands are missing: two missing values are equal.
/// Inequality is the opposite of equality throughout.
pub proof fn lemma_missing_operand(op: Operator, l: Term, r: Term)
    requires
        l is Missing || r is Missing,
    ensures
        op is Plus || op is Substract || op is Multiply || op is Division ==> Term::apply(op, l, r)
            == Term::Missing,
        op is L || op is G || op is LE || op is GE ==> Term::apply(op, l, r) == Term::Boolean(
            false,
        ),
        op is E ==> Term::apply(op, l, r) == Term::Boolean(l is Missing && r is Missing),
        op is NE ==> Term::apply(op, l, r) == Term::Boolean(!(l is Missing && r is Missing)),
{
}

/// Division by zero yields the missing value, whatever is divided.
pub proof fn lemma_division_by_zero(l: Term, zero: Number)
    requires
        zero.is_zero(),
    ensures
        Term::apply(Operator::Division, l, Term::Number(zero)) == Term::Missing,
{
    match l {
        Term::Number(a) => {
            assert(a.den() * zero.num() == 0) by (nonlinear_arith)
                requires
                    zero.num() == 0,
            ;
            Number::lemma_fraction(a.num() * zero.den(), a.den() * zero.num());
        },
        _ => {},
    }
}

/// Operands of different kinds: arithmetic on them yields the missing
/// value, and every comparison but inequality yields `false`.
pub proof fn lemma_mixed_operands(op: Operator, l: Term, r: Term)
    requires
        l.is_value(),
        r.is_value(),
        !(l is Number && r is Number),
        !(l is Text && r is Text),
        !(l is Boolean && r is Boolean),
        !(l is Missing && r is Missing),
    ensures
        op is Plus || op is Substract || op is Multiply || op is Division ==> Term::apply(op, l, r)
            == Term::Missing,
        op is L || op is G || op is LE || op is GE || op is E ==> Term::apply(op, l, r)
            == Term::Boolean(false),
        op is NE ==> Term::apply(op, l, r) == Term::Boolean(true),
{
}

/// What an operator makes of two values is a value again.
pub proof fn lemma_apply_is_value(op: Operator, l: Term, r: Term)
    ensures
        Term::apply(op, l, r).is_value(),
{
}

/// Whether the text `a` comes before the text `b`.
fn text_before(a: &str, b: &str) -> (r: bool)
    ensures
        r == text_less(a@, b@),
{
    let x = chars_of(a);
    let y = chars_of(b);
    let mut i: usize = 0;
    while i < x.len() && i < y.len()
        invariant
            i <= x.len(),
            i <= y.len(),
            x@ == a@,
            y@ == b@,
            text_less_from(a@, b@, i as int) == text_less(a@, b@),
        decreases x.len() - i,
    {
        if x[i] != y[i] {
            return (x[i] as u32) < (y[i] as u32);
        }
        i += 1;
    }
    i < y.len()
}

impl Operand {
    /// A copy of this operand.
    pub fn duplicate(&self) -> (r: Operand)
        ensures
            r@ == self@,
    {
        match self {
            Operand::Missing => Operand::Missing,
            Operand::Boolean(b) => Operand::Boolean(*b),
            Operand::Number(n) => Operand::Number(*n),
            Operand::String(s) => Operand::String(s.clone()),
            Operand::Variable(s) => Operand::Variable(s.clone()),
            Operand::OperatorToken(o) => Operand::OperatorToken(*o),
            Operand::OpenParen => Operand::OpenParen,
            Operand::CloseParen => Operand::CloseParen,
        }
    }

    /// A number, or the missing value where there is none.
    fn number_or_missing(n: Option<Number>) -> (r: Operand)
        ensures
            r@ == Term::number_or_missing(n),
    {
        match n {
            Some(q) => Operand::Number(q),
            None => Operand::Missing,
        }
    }

    /// `self < other`.
    pub fn is_before(&self, other: &Operand) -> (r: bool)
        ensures
            r == Term::before(self@, other@),
    {
        match (self, other) {
            (Operand::Number(a), Operand::Number(b)) => a.less_than(b),
            (Operand::String(a), Operand::String(b)) => text_before(a.as_str(), b.as_str()),
            _ => false,
        }
    }

    /// `self <= other`.
    pub fn is_not_after(&self, other: &Operand) -> (r: bool)
        ensures
            r == Term::not_after(self@, other@),
    {
        match (self, other) {
            (Operand::Number(a), Operand::Number(b)) => !b.less_than(a),
            (Operand::String(a), Operand::String(b)) => !text_before(b.as_str(), a.as_str()),
            _ => false,
        }
    }

    /// `self = other`.
    pub fn is_equal(&self, other: &Operand) -> (r: bool)
        ensures
            r == Term::equal(self@, other@),
    {
        match (self, other) {
            (Operand::Number(a), Operand::Number(b)) => a.equals(b),
            (Operand::String(a), Operand::String(b)) => *a == *b,
            (Operand::Boolean(a), Operand::Boolean(b)) => *a == *b,
            (Operand::Missing, Operand::Missing) => true,
            _ => false,
        }
    }

    /// Applies `op` to the left operand `l` and the right operand `r`.
    pub fn apply(op: &Operator, l: &Operand, r: &Operand) -> (res: Operand)
        ensures
            res@ == Term::apply(*op, l@, r@),
    {
        match op {
            Operator::Plus => match (l, r) {
                (Operand::Number(a), Operand::Number(b)) => Operand::number_or_missing(a.plus(b)),
                (Operand::String(a), Operand::String(b)) => {
                    let mut s = a.clone();
                    s.append(b.as_str());
                    Operand::String(s)
                },
                _ => Operand::Missing,
            },
            Operator::Substract => match (l, r) {
                (Operand::Number(a), Operand::Number(b)) => Operand::number_or_missing(a.minus(b)),
                _ => Operand::Missing,
            },
            Operator::Multiply => match (l, r) {
                (Operand::Number(a), Operand::Number(b)) => Operand::number_or_missing(a.times(b)),
                _ => Operand::Missing,
            },
            Operator::Division => match (l, r) {
                (Operand::Number(a), Operand::Number(b)) => Operand::number_or_missing(
                    a.divided_by(b),
                ),
                _ => Operand::Missing,
            },
            Operator::L => Operand::Boolean(l.is_before(r)),
            Operator::G => Operand::Boolean(r.is_before(l)),
            Operator::LE => Operand::Boolean(l.is_not_after(r)),
            Operator::GE => Operand::Boolean(r.is_not_after(l)),
            Operator::E => Operand::Boolean(l.is_equal(r)),
            Operator::NE => Operand::Boolean(!l.is_equal(r)),
        }
    }
}

} // verus!
