//! A small-step evaluator and a simple type checker for a lambda calculus
//! with booleans, naturals, strings, records and a non-recursive `let`
//! binder, over a nameless (de Bruijn index) representation.
//!
//! The heart of the crate is the shift/substitute engine: renumbering the
//! free variables of a term when it crosses a binder boundary, and
//! capture-avoiding substitution built from it.  Every operation carries a
//! contract over a ghost view of the term tree, and the algebraic laws of
//! shifting and substitution are proved as lemmas.

pub mod context;
pub mod context_visitor;
pub mod evaluate;
pub mod shift;
pub mod syntax;
pub mod typechecker;
