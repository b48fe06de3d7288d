//! Decision tables over a JSON context.
//!
//! A table is a list of rules. Each rule states, column by column, a
//! predicate about a value of the context, in a small expression language,
//! and gives out its output cells when all of its predicates hold.
//!
//! An expression is read into tokens ([`tokenizer`], by the rules of
//! [`grammar`]), brought into postfix order ([`postfix`]) and evaluated
//! against the context ([`executor`], [`context`]). What all of this means is
//! said in [`expression`] and [`syntax`]: every well-shaped token sequence
//! writes one expression tree, and converting and evaluating the tokens
//! yields the value of that tree. [`infix`] and [`parens`] say when the
//! conversion succeeds. Numbers are exact fractions ([`number`]).
pub mod context;
pub mod executor;
pub mod expression;
pub mod fault;
pub mod grammar;
pub mod infix;
pub mod logic_table;
pub mod number;
pub mod operand;
pub mod parens;
pub mod postfix;
pub mod syntax;
pub mod table_reader;
pub mod text;
pub mod tokenizer;
