//! Parsers built from other parsers.
use crate::cursor::StrState;
use crate::error::ErrorBacktrace;
use crate::parser::Recipe;
use crate::tree::NonTerminal;
use vstd::prelude::*;

verus! {

/// A hook that sees the outcome of a run and cannot change it.
pub trait Observer<T> {
    /// The run succeeded with `tree`, ending at `end`.
    fn on_success(&self, tree: &NonTerminal<'_, T>, end: &StrState<'_>);

    /// The run failed at `location` (line text, line, column), in the
    /// parser described by `expected`, after the labels of `backtrace`,
    /// with message `msg`; `start` is the cursor handed back.
    fn on_failure(
        &self,
        location: &(&str, usize, usize),
        expected: &str,
        backtrace: &ErrorBacktrace<T>,
        msg: Option<&'static str>,
        start: &StrState<'_>,
    );
}

/// Replaces the child's tree by one span over the text it consumed.
#[verifier::reject_recursive_types(T)]
pub struct ParserCatenate<T> {
    pub recipe: Box<Recipe<T>>,
}

/// Gives the child's failures a message when they carry none.
#[verifier::reject_recursive_types(T)]
pub struct ParserMsg<T> {
    pub recipe: Box<Recipe<T>>,
    pub msg: &'static str,
}

/// Labels the child's tree, and its failures' backtrace.
#[verifier::reject_recursive_types(T)]
pub struct ParserLabeled<T> {
    pub recipe: Box<Recipe<T>>,
    pub label: T,
}

/// Runs its children one after another.
#[verifier::reject_recursive_types(T)]
pub struct ParserSeq<T> {
    pub recipe: Vec<Recipe<T>>,
}

/// Runs the first of its children that succeeds.
#[verifier::reject_recursive_types(T)]
pub struct ParserChoice<T> {
    pub recipe: Vec<Recipe<T>>,
}

/// Runs its child once or more.
#[verifier::reject_recursive_types(T)]
pub struct ParserPlus<T> {
    pub recipe: Box<Recipe<T>>,
}

/// Runs its child as often as it matches.
#[verifier::reject_recursive_types(T)]
pub struct ParserStar<T> {
    pub recipe: Box<Recipe<T>>,
}

/// Runs its child, or matches nothing.
#[verifier::reject_recursive_types(T)]
pub struct ParserMaybe<T> {
    pub recipe: Box<Recipe<T>>,
}

/// Succeeds without consuming when its child succeeds.
#[verifier::reject_recursive_types(T)]
pub struct ParserEnsure<T> {
    pub recipe: Box<Recipe<T>>,
}

/// Succeeds without consuming when its child fails.
#[verifier::reject_recursive_types(T)]
pub struct ParserAvoid<T> {
    pub recipe: Box<Recipe<T>>,
}

/// Shows the child's outcome to an observer.
#[verifier::reject_recursive_types(T)]
pub struct ParserLog<T> {
    pub recipe: Box<Recipe<T>>,
    pub logger: Box<dyn Observer<T>>,
}

/// Keeps what the child consumes and drops its tree.
#[verifier::reject_recursive_types(T)]
pub struct ParserIgnoreRes<T> {
    pub recipe: Box<Recipe<T>>,
}

} // verus!
