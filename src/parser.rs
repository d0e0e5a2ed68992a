//! The parser type, its meaning as a mathematical outcome, and `run`.
use crate::combinators::{
    Observer, ParserAvoid, ParserCatenate, ParserChoice, ParserEnsure, ParserIgnoreRes, ParserLabeled,
    ParserLog, ParserMaybe, ParserMsg, ParserPlus, ParserSeq, ParserStar,
};
use crate::cursor::{
    chars_from, first_char, lemma_prefix_step, starts_with_chars, substring, utf8_width, width_of,
    StrState,
};
use crate::error::{ErrorBacktrace, Failure, ParseError};
use crate::primitives::{
    ParserAny, ParserChar, ParserExcept, ParserOneOf, ParserPredicate, ParserStr,
};
use crate::text::{push_char, push_str};
use crate::tree::{trees_of, lemma_trees_of, Identifier, NonTerminal, Tree};
use vstd::prelude::*;
use vstd::string::*;
use vstd::utf8::*;

verus! {

broadcast use vstd::utf8::group_utf8_lib;

/// The message of a primitive that finds no input left.
pub const END_OF_INPUT: &'static str = "At end of input!";

/// A parser of any kind: a primitive matcher or a combinator over parsers.
#[verifier::reject_recursive_types(T)]
pub enum Recipe<T> {
    Char(ParserChar),
    Str(ParserStr),
    Predicate(ParserPredicate),
    Any(ParserAny),
    Except(ParserExcept),
    OneOf(ParserOneOf),
    Catenate(ParserCatenate<T>),
    Msg(ParserMsg<T>),
    Labeled(ParserLabeled<T>),
    Sequence(ParserSeq<T>),
    Choice(ParserChoice<T>),
    Plus(ParserPlus<T>),
    Star(ParserStar<T>),
    Maybe(ParserMaybe<T>),
    Ensure(ParserEnsure<T>),
    Avoid(ParserAvoid<T>),
    Log(ParserLog<T>),
    IgnoreRes(ParserIgnoreRes<T>),
}

/// What a run yields: a tree and the offset reached, or a failure.
pub type Outcome<T> = Result<(Tree<T>, nat), Failure<T>>;

/// What `run` returns.
pub type RunResult<'a, T> = Result<
    (NonTerminal<'a, T>, StrState<'a>),
    (ParseError<'a, T>, StrState<'a>),
>;

/// `p` is a leaf matcher, with no parser inside.
pub open spec fn is_primitive<T>(p: Recipe<T>) -> bool {
    ||| p is Char
    ||| p is Str
    ||| p is Predicate
    ||| p is Any
    ||| p is Except
    ||| p is OneOf
}

/// How many bytes primitive `p` matches at offset `h` of `b`, which is not
/// the end; `None` when it does not match.
pub open spec fn primitive_len<T>(p: Recipe<T>, b: Seq<u8>, h: nat) -> Option<nat> {
    let r = chars_from(b, h as int);
    match p {
        Recipe::Char(ParserChar(c)) => if r[0] == c {
            Some(width_of(c))
        } else {
            None
        },
        Recipe::Str(ParserStr(s)) => if s@.len() <= r.len() && r.take(s@.len() as int) == s@ {
            Some(s.spec_bytes().len())
        } else {
            None
        },
        Recipe::Predicate(ParserPredicate(m)) => {
            let (ok, l) = m.accepts(r);
            if ok && h + l <= b.len() && is_char_boundary(b, (h + l) as int) {
                Some(l)
            } else {
                None
            }
        },
        Recipe::Any(_) => Some(width_of(r[0])),
        Recipe::Except(e) => if !e.recipe@.contains(r[0]) {
            Some(width_of(r[0]))
        } else {
            None
        },
        Recipe::OneOf(o) => if o.recipe@.contains(r[0]) {
            Some(width_of(r[0]))
        } else {
            None
        },
        _ => None,
    }
}

/// A failure of `p` at offset `h` with no backtrace.
pub open spec fn fresh_failure<T>(p: Recipe<T>, h: nat, msg: Option<&'static str>) -> Failure<T> {
    Failure { at: h, expected: p, backtrace: Seq::empty(), msg }
}

/// The outcome of running `p` at byte offset `h` of the text with bytes `b`.
pub open spec fn outcome<T>(p: Recipe<T>, b: Seq<u8>, h: nat) -> Outcome<T>
    decreases p, 0int, 0int,
{
    if is_primitive(p) {
        if h >= b.len() {
            Err(fresh_failure(p, h, Some(END_OF_INPUT)))
        } else {
            match primitive_len(p, b, h) {
                Some(n) => Ok((Tree::Span(b.subrange(h as int, (h + n) as int)), h + n)),
                None => Err(fresh_failure(p, h, None)),
            }
        }
    } else {
        match p {
            Recipe::Catenate(c) => match outcome(*c.recipe, b, h) {
                Ok((_, h1)) => Ok((Tree::Span(b.subrange(h as int, h1 as int)), h1)),
                Err(e) => Err(e),
            },
            Recipe::Msg(c) => match outcome(*c.recipe, b, h) {
                Ok(o) => Ok(o),
                Err(e) => Err(
                    if e.msg is None {
                        Failure { msg: Some(c.msg), ..e }
                    } else {
                        e
                    },
                ),
            },
            Recipe::Labeled(c) => match outcome(*c.recipe, b, h) {
                Ok((t, h1)) => Ok((Tree::Node(c.label, Box::new(t)), h1)),
                Err(e) => Err(Failure { backtrace: seq![c.label] + e.backtrace, ..e }),
            },
            Recipe::Sequence(c) => match sequence_outcome(c.recipe@, b, h, 0) {
                Ok((ts, h1)) => Ok((Tree::Group(ts), h1)),
                Err(e) => Err(e),
            },
            Recipe::Choice(c) => choice_outcome(p, c.recipe@, b, h, 0),
            Recipe::Plus(c) => match outcome(*c.recipe, b, h) {
                Ok((t, h1)) => {
                    let (ts, h2) = repetition(*c.recipe, b, h1);
                    Ok((Tree::Group(seq![t] + ts), h2))
                },
                Err(e) => Err(e),
            },
            Recipe::Star(c) => {
                let (ts, h1) = repetition(*c.recipe, b, h);
                Ok(
                    (
                        if ts.len() == 0 {
                            Tree::Empty
                        } else {
                            Tree::Group(ts)
                        },
                        h1,
                    ),
                )
            },
            Recipe::Maybe(c) => match outcome(*c.recipe, b, h) {
                Ok(o) => Ok(o),
                Err(_) => Ok((Tree::Empty, h)),
            },
            Recipe::Ensure(c) => match outcome(*c.recipe, b, h) {
                Ok(_) => Ok((Tree::Empty, h)),
                Err(e) => Err(e),
            },
            Recipe::Avoid(c) => match outcome(*c.recipe, b, h) {
                Ok(_) => Err(fresh_failure(*c.recipe, h, None)),
                Err(_) => Ok((Tree::Empty, h)),
            },
            Recipe::Log(c) => outcome(*c.recipe, b, h),
            Recipe::IgnoreRes(c) => match outcome(*c.recipe, b, h) {
                Ok((_, h1)) => Ok((Tree::Empty, h1)),
                Err(e) => Err(e),
            },
            _ => Err(fresh_failure(p, h, None)),
        }
    }
}

/// Runs `cs[i..]` one after another from offset `h`: their trees and the
/// offset reached, or the first failure.
pub open spec fn sequence_outcome<T>(cs: Seq<Recipe<T>>, b: Seq<u8>, h: nat, i: int) -> Result<
    (Seq<Tree<T>>, nat),
    Failure<T>,
>
    decreases cs, cs.len() - i, 0int,
{
    if i < 0 || i >= cs.len() {
        Ok((Seq::empty(), h))
    } else {
        match outcome(cs[i], b, h) {
            Ok((t, h1)) => match sequence_outcome(cs, b, h1, i + 1) {
                Ok((ts, h2)) => Ok((seq![t] + ts, h2)),
                Err(e) => Err(e),
            },
            Err(e) => Err(e),
        }
    }
}

/// Tries `cs[i..]` in order at offset `h`; the first success wins, and
/// when all fail the failure names the choice `p`.
pub open spec fn choice_outcome<T>(p: Recipe<T>, cs: Seq<Recipe<T>>, b: Seq<u8>, h: nat, i: int) -> Outcome<T>
    decreases cs, cs.len() - i, 0int,
{
    if i < 0 || i >= cs.len() {
        Err(fresh_failure(p, h, None))
    } else {
        match outcome(cs[i], b, h) {
            Ok(o) => Ok(o),
            Err(_) => choice_outcome(p, cs, b, h, i + 1),
        }
    }
}

/// Runs `c` from offset `h` for as long as it succeeds and moves forward:
/// the trees of those runs and the offset reached. The run that fails, or
/// that succeeds without consuming, ends the repetition and is dropped.
pub open spec fn repetition<T>(c: Recipe<T>, b: Seq<u8>, h: nat) -> (Seq<Tree<T>>, nat)
    decreases c, 1int, b.len() - h,
{
    match outcome(c, b, h) {
        Ok((t, h1)) => if h < h1 <= b.len() {
            let (ts, h2) = repetition(c, b, h1);
            (seq![t] + ts, h2)
        } else {
            (Seq::empty(), h)
        },
        Err(_) => (Seq::empty(), h),
    }
}

/// `r` is what a run from `input` returns when the outcome is `o`.
pub open spec fn run_matches<'a, T>(r: RunResult<'a, T>, input: StrState<'a>, o: Outcome<T>) -> bool {
    match o {
        Ok((t, h)) => {
            &&& r is Ok
            &&& r->Ok_0.0@ == t
            &&& r->Ok_0.1.head == h
            &&& r->Ok_0.1.string == input.string
            &&& r->Ok_0.1.wf()
            &&& h >= input.head
        },
        Err(f) => r is Err && r->Err_0.1 == input && r->Err_0.0.describes(f, input.bytes()),
    }
}

/// A failure of `node` at `input`, with no backtrace.
fn fail_at<'a, T>(node: &'a Recipe<T>, input: StrState<'a>, msg: Option<&'static str>) -> (e: ParseError<'a, T>)
    requires
        input.wf(),
    ensures
        e.describes(fresh_failure(*node, input.head as nat, msg), input.bytes()),
{
    ParseError {
        location: (input.line_of(), input.line, input.column),
        expected: node,
        backtrace: ErrorBacktrace::Empty,
        msg,
    }
}

/// Whether `c` is one of `set`.
fn holds_char(set: &Vec<char>, c: char) -> (r: bool)
    ensures
        r == set@.contains(c),
{
    let mut i: usize = 0;
    while i < set.len()
        invariant
            i <= set.len(),
            forall|j: int| 0 <= j < i ==> set@[j] != c,
        decreases set.len() - i,
    {
        if set[i] == c {
            return true;
        }
        i = i + 1;
    }
    false
}

/// Runs a primitive matcher.
fn run_primitive<'a, T>(node: &'a Recipe<T>, input: StrState<'a>) -> (r: RunResult<'a, T>)
    requires
        input.wf(),
        is_primitive(*node),
    ensures
        run_matches(r, input, outcome(*node, input.bytes(), input.head as nat)),
{
    let ghost b = input.bytes();
    let ghost h = input.head as nat;
    let total = input.string.as_bytes().len();
    assert(total == b.len());
    if input.is_empty() {
        return Err((fail_at(node, input, Some(END_OF_INPUT)), input));
    }
    let rest = input.rest();
    proof {
        assert(b.subrange(h as int, b.len() as int).len() > 0);
        assert(encode_utf8(rest@) == rest.spec_bytes());
        if rest@.len() == 0 {
            assert(encode_utf8(rest@).len() == 0);
        }
        lemma_prefix_step(b, h as int, 1);
        assert(chars_from(b, h as int).take(1) =~= seq![rest@[0]]);
    }
    let len: Option<usize> = match node {
        Recipe::Char(ParserChar(c)) => {
            if first_char(rest) == *c {
                Some(utf8_width(*c))
            } else {
                None
            }
        },
        Recipe::Str(ParserStr(s)) => {
            if starts_with_chars(rest, s) {
                proof {
                    lemma_prefix_step(b, h as int, s@.len() as int);
                }
                Some(s.as_bytes().len())
            } else {
                None
            }
        },
        Recipe::Predicate(ParserPredicate(m)) => {
            let (ok, l) = m.test(rest);
            if ok && l <= rest.as_bytes().len() && input.string.is_char_boundary(input.head + l) {
                Some(l)
            } else {
                None
            }
        },
        Recipe::Any(_) => Some(utf8_width(first_char(rest))),
        Recipe::Except(e) => {
            let c = first_char(rest);
            if !holds_char(&e.recipe, c) {
                Some(utf8_width(c))
            } else {
                None
            }
        },
        Recipe::OneOf(o) => {
            let c = first_char(rest);
            if holds_char(&o.recipe, c) {
                Some(utf8_width(c))
            } else {
                None
            }
        },
        _ => None,
    };
    proof {
        assert(len is Some ==> primitive_len(*node, b, h) == Some(len->0 as nat));
        assert(len is None ==> primitive_len(*node, b, h) is None);
    }
    match len {
        Some(n) => {
            let end = input.head + n;
            let leaf = substring(input.string, input.head, end);
            Ok((NonTerminal::Leaf(leaf), input.advance(n)))
        },
        None => Err((fail_at(node, input, None), input)),
    }
}

/// Runs `child` from `start` for as long as it succeeds and moves forward,
/// appending the trees to `children`.
fn run_repeated<'a, T: Identifier>(
    child: &'a Recipe<T>,
    start: StrState<'a>,
    children: Vec<NonTerminal<'a, T>>,
) -> (r: (Vec<NonTerminal<'a, T>>, StrState<'a>))
    requires
        start.wf(),
    ensures
        trees_of(r.0@, r.0@.len() as int) == trees_of(children@, children@.len() as int)
            + repetition(*child, start.bytes(), start.head as nat).0,
        r.1.head == repetition(*child, start.bytes(), start.head as nat).1,
        r.1.string == start.string,
        r.1.wf(),
        r.1.head >= start.head,
    decreases child, 1int,
{
    let ghost b = start.bytes();
    let mut children = children;
    let ghost first = trees_of(children@, children@.len() as int);
    let mut head = start;
    let mut going = true;
    while going
        invariant
            b == start.bytes(),
            start.wf(),
            head.wf(),
            head.string == start.string,
            head.head >= start.head,
            going ==> first + repetition(*child, b, start.head as nat).0 == trees_of(
                children@,
                children@.len() as int,
            ) + repetition(*child, b, head.head as nat).0,
            going ==> repetition(*child, b, start.head as nat).1 == repetition(
                *child,
                b,
                head.head as nat,
            ).1,
            !going ==> first + repetition(*child, b, start.head as nat).0 == trees_of(
                children@,
                children@.len() as int,
            ),
            !going ==> repetition(*child, b, start.head as nat).1 == head.head,
        decreases b.len() - head.head, if going { 1int } else { 0int },
    {
        let ghost before = children@;
        let ghost h = head.head as nat;
        match child.run_at(head) {
            Ok((n, s)) => {
                if s.head > head.head {
                    children.push(n);
                    proof {
                        let (ts, h2) = repetition(*child, b, s.head as nat);
                        assert(repetition(*child, b, h) == (seq![n@] + ts, h2));
                        lemma_trees_of(before, before.len() as int);
                        lemma_trees_of(children@, children@.len() as int);
                        assert(trees_of(children@, children@.len() as int) =~= trees_of(
                            before,
                            before.len() as int,
                        ).push(n@));
                        assert(trees_of(before, before.len() as int) + (seq![n@] + ts) =~= trees_of(
                            before,
                            before.len() as int,
                        ).push(n@) + ts);
                    }
                    head = s;
                } else {
                    proof {
                        assert(repetition(*child, b, h).0 =~= Seq::<Tree<T>>::empty());
                        assert(trees_of(children@, children@.len() as int) + Seq::<Tree<T>>::empty()
                            =~= trees_of(children@, children@.len() as int));
                    }
                    going = false;
                }
            },
            Err(_) => {
                proof {
                    assert(repetition(*child, b, h).0 =~= Seq::<Tree<T>>::empty());
                    assert(trees_of(children@, children@.len() as int) + Seq::<Tree<T>>::empty()
                        =~= trees_of(children@, children@.len() as int));
                }
                going = false;
            },
        }
    }
    (children, head)
}

impl<T: Identifier> Recipe<T> {
    fn run_at<'a>(&'a self, input: StrState<'a>) -> (r: RunResult<'a, T>)
        requires
            input.wf(),
        ensures
            run_matches(r, input, outcome(*self, input.bytes(), input.head as nat)),
        decreases self, 0int,
    {
        let ghost b = input.bytes();
        let ghost h = input.head as nat;
        match self {
            Recipe::Catenate(c) => match c.recipe.run_at(input) {
                Ok((_, s)) => Ok((NonTerminal::Leaf(substring(input.string, input.head, s.head)), s)),
                Err(e) => Err(e),
            },
            Recipe::Msg(c) => match c.recipe.run_at(input) {
                Ok(o) => Ok(o),
                Err((e, s)) => {
                    let ParseError { location, expected, backtrace, msg } = e;
                    let msg = match msg {
                        Some(m) => Some(m),
                        None => Some(c.msg),
                    };
                    Err((ParseError { location, expected, backtrace, msg }, s))
                },
            },
            Recipe::Labeled(c) => match c.recipe.run_at(input) {
                Ok((n, s)) => Ok(
                    (NonTerminal::Node { identifier: c.label, children: Box::new(n) }, s),
                ),
                Err((e, s)) => {
                    let ParseError { location, expected, backtrace, msg } = e;
                    let backtrace = ErrorBacktrace::Node {
                        identifier: c.label,
                        next: Box::new(backtrace),
                    };
                    Err((ParseError { location, expected, backtrace, msg }, s))
                },
            },
            Recipe::Sequence(c) => {
                let ghost cs = c.recipe@;
                let mut children: Vec<NonTerminal<'a, T>> = Vec::new();
                let mut head = input;
                let mut i: usize = 0;
                proof {
                    assert(trees_of(children@, 0) =~= Seq::<Tree<T>>::empty());
                    match sequence_outcome(cs, b, h, 0) {
                        Ok((ts, h2)) => {
                            assert(Seq::<Tree<T>>::empty() + ts =~= ts);
                        },
                        Err(_) => {},
                    }
                }
                while i < c.recipe.len()
                    invariant
                        (*self) is Sequence,
                        (*self)->Sequence_0 == *c,
                        cs == c.recipe@,
                        b == input.bytes(),
                        h == input.head,
                        input.wf(),
                        head.wf(),
                        head.string == input.string,
                        head.head >= input.head,
                        i <= c.recipe.len(),
                        children@.len() == i,
                        sequence_outcome(cs, b, h, 0) == match sequence_outcome(
                            cs,
                            b,
                            head.head as nat,
                            i as int,
                        ) {
                            Ok((ts, h2)) => Ok((trees_of(children@, i as int) + ts, h2)),
                            Err(e) => Err(e),
                        },
                    decreases c.recipe.len() - i,
                {
                    proof {
                        vstd::std_specs::vec::axiom_vec_index_decreases(c.recipe, i as int);
                        assert(decreases_to!(*self => (*self)->Sequence_0));
                    }
                    let ghost before = children@;
                    match c.recipe[i].run_at(head) {
                        Ok((n, s)) => {
                            children.push(n);
                            proof {
                                lemma_trees_of(before, i as int);
                                lemma_trees_of(children@, i + 1);
                                assert(trees_of(children@, i + 1) =~= trees_of(before, i as int).push(
                                    n@,
                                ));
                                match sequence_outcome(cs, b, s.head as nat, i + 1) {
                                    Ok((ts, h2)) => {
                                        assert(trees_of(before, i as int) + (seq![n@] + ts)
                                            =~= trees_of(before, i as int).push(n@) + ts);
                                    },
                                    Err(_) => {},
                                }
                            }
                            head = s;
                        },
                        Err((e, _)) => {
                            return Err((e, input));
                        },
                    }
                    i = i + 1;
                }
                proof {
                    assert(sequence_outcome(cs, b, head.head as nat, i as int) == Ok::<
                        (Seq<Tree<T>>, nat),
                        Failure<T>,
                    >((Seq::empty(), head.head as nat)));
                    assert(trees_of(children@, i as int) + Seq::<Tree<T>>::empty() =~= trees_of(
                        children@,
                        i as int,
                    ));
                }
                Ok((NonTerminal::Congregate(children), head))
            },
            Recipe::Choice(c) => {
                let ghost cs = c.recipe@;
                let mut i: usize = 0;
                while i < c.recipe.len()
                    invariant
                        (*self) is Choice,
                        (*self)->Choice_0 == *c,
                        cs == c.recipe@,
                        b == input.bytes(),
                        h == input.head,
                        input.wf(),
                        i <= c.recipe.len(),
                        choice_outcome(*self, cs, b, h, 0) == choice_outcome(*self, cs, b, h, i as int),
                    decreases c.recipe.len() - i,
                {
                    proof {
                        vstd::std_specs::vec::axiom_vec_index_decreases(c.recipe, i as int);
                        assert(decreases_to!(*self => (*self)->Choice_0));
                    }
                    let r = c.recipe[i].run_at(input);
                    if r.is_ok() {
                        return r;
                    }
                    i = i + 1;
                }
                Err((fail_at(self, input, None), input))
            },
            Recipe::Plus(c) => match c.recipe.run_at(input) {
                Ok((n, s)) => {
                    let mut first: Vec<NonTerminal<'a, T>> = Vec::new();
                    first.push(n);
                    proof {
                        lemma_trees_of(first@, 1);
                        assert(trees_of(first@, 1) =~= seq![n@]);
                    }
                    let (all, end) = run_repeated(&c.recipe, s, first);
                    Ok((NonTerminal::Congregate(all), end))
                },
                Err(e) => Err(e),
            },
            Recipe::Star(c) => {
                let none: Vec<NonTerminal<'a, T>> = Vec::new();
                proof {
                    assert(trees_of(none@, 0) =~= Seq::<Tree<T>>::empty());
                }
                let (all, end) = run_repeated(&c.recipe, input, none);
                proof {
                    lemma_trees_of(all@, all@.len() as int);
                    assert(Seq::<Tree<T>>::empty() + repetition(*c.recipe, b, h).0
                        =~= repetition(*c.recipe, b, h).0);
                }
                if all.len() == 0 {
                    Ok((NonTerminal::Empty, end))
                } else {
                    Ok((NonTerminal::Congregate(all), end))
                }
            },
            Recipe::Maybe(c) => match c.recipe.run_at(input) {
                Ok(o) => Ok(o),
                Err(_) => Ok((NonTerminal::Empty, input)),
            },
            Recipe::Ensure(c) => match c.recipe.run_at(input) {
                Ok(_) => Ok((NonTerminal::Empty, input)),
                Err(e) => Err(e),
            },
            Recipe::Avoid(c) => match c.recipe.run_at(input) {
                Ok(_) => Err((fail_at(&c.recipe, input, None), input)),
                Err(_) => Ok((NonTerminal::Empty, input)),
            },
            Recipe::Log(c) => {
                let r = c.recipe.run_at(input);
                match &r {
                    Ok((n, s)) => c.logger.on_success(n, s),
                    Err((e, at)) => {
                        let expected = e.expected.describe();
                        c.logger.on_failure(&e.location, expected.as_str(), &e.backtrace, e.msg, at);
                    },
                }
                r
            },
            Recipe::IgnoreRes(c) => match c.recipe.run_at(input) {
                Ok((_, s)) => Ok((NonTerminal::Empty, s)),
                Err(e) => Err(e),
            },
            _ => run_primitive(self, input),
        }
    }
}

/// The uniform contract of a parser: running it at a cursor yields a tree
/// and the cursor after what it consumed, or an error and the cursor it
/// was given.
pub trait Parser<T> {
    /// What running at byte offset `h` of the text with bytes `b` yields.
    spec fn outcome_at(&self, b: Seq<u8>, h: nat) -> Outcome<T>;

    fn run<'a>(&'a self, input: StrState<'a>) -> (r: RunResult<'a, T>)
        requires
            input.wf(),
        ensures
            run_matches(r, input, self.outcome_at(input.bytes(), input.head as nat)),
    ;
}

impl<T: Identifier> Parser<T> for Recipe<T> {
    open spec fn outcome_at(&self, b: Seq<u8>, h: nat) -> Outcome<T> {
        outcome(*self, b, h)
    }

    fn run<'a>(&'a self, input: StrState<'a>) -> (r: RunResult<'a, T>) {
        self.run_at(input)
    }
}

impl<T: Identifier> Recipe<T> {
    /// Gives failures that carry no message the message `msg`. On a message
    /// override it stays as it is: the inner message, set first, wins.
    pub fn msg(self, msg: &'static str) -> (r: Recipe<T>)
        ensures
            self is Msg ==> r == self,
            !(self is Msg) ==> r == Recipe::Msg(ParserMsg { recipe: Box::new(self), msg }),
    {
        match self {
            Recipe::Msg(c) => Recipe::Msg(c),
            other => Recipe::Msg(ParserMsg { recipe: Box::new(other), msg }),
        }
    }

    /// Labels the tree and the failures with `ident`; on a label, replaces it.
    pub fn label(self, ident: T) -> (r: Recipe<T>)
        ensures
            r is Labeled,
            r->Labeled_0.label == ident,
            self is Labeled ==> r->Labeled_0.recipe == self->Labeled_0.recipe,
            !(self is Labeled) ==> *r->Labeled_0.recipe == self,
    {
        match self {
            Recipe::Labeled(c) => Recipe::Labeled(ParserLabeled { recipe: c.recipe, label: ident }),
            other => Recipe::Labeled(ParserLabeled { recipe: Box::new(other), label: ident }),
        }
    }

    /// This parser, then `p`; on a sequence, appends `p` to it.
    pub fn seq(self, p: Recipe<T>) -> (r: Recipe<T>)
        ensures
            r is Sequence,
            self is Sequence ==> r->Sequence_0.recipe@ == self->Sequence_0.recipe@.push(p),
            !(self is Sequence) ==> r->Sequence_0.recipe@ == seq![self, p],
    {
        match self {
            Recipe::Sequence(c) => {
                let mut recipe = c.recipe;
                recipe.push(p);
                Recipe::Sequence(ParserSeq { recipe })
            },
            other => {
                let mut recipe = Vec::new();
                recipe.push(other);
                recipe.push(p);
                proof {
                    assert(recipe@ =~= seq![other, p]);
                }
                Recipe::Sequence(ParserSeq { recipe })
            },
        }
    }

    /// This parser, or else `p`; on a choice, appends `p` to it.
    pub fn or(self, p: Recipe<T>) -> (r: Recipe<T>)
        ensures
            r is Choice,
            self is Choice ==> r->Choice_0.recipe@ == self->Choice_0.recipe@.push(p),
            !(self is Choice) ==> r->Choice_0.recipe@ == seq![self, p],
    {
        match self {
            Recipe::Choice(c) => {
                let mut recipe = c.recipe;
                recipe.push(p);
                Recipe::Choice(ParserChoice { recipe })
            },
            other => {
                let mut recipe = Vec::new();
                recipe.push(other);
                recipe.push(p);
                proof {
                    assert(recipe@ =~= seq![other, p]);
                }
                Recipe::Choice(ParserChoice { recipe })
            },
        }
    }

    /// This parser once or more; a one-or-more parser stays as it is. After
    /// the first match, a run of the child that fails or consumes nothing
    /// ends the repetition, so a child that can match the empty text cannot
    /// make it loop.
    pub fn atleast_once(self) -> (r: Recipe<T>)
        ensures
            self is Plus ==> r == self,
            !(self is Plus) ==> r == Recipe::Plus(ParserPlus { recipe: Box::new(self) }),
    {
        match self {
            Recipe::Plus(c) => Recipe::Plus(c),
            other => Recipe::Plus(ParserPlus { recipe: Box::new(other) }),
        }
    }

    /// This parser as often as it matches; a zero-or-more parser stays as it
    /// is. A run of the child that fails or consumes nothing ends the
    /// repetition and leaves no tree.
    pub fn multiple(self) -> (r: Recipe<T>)
        ensures
            self is Star ==> r == self,
            !(self is Star) ==> r == Recipe::Star(ParserStar { recipe: Box::new(self) }),
    {
        match self {
            Recipe::Star(c) => Recipe::Star(c),
            other => Recipe::Star(ParserStar { recipe: Box::new(other) }),
        }
    }

    /// This parser or nothing; an optional parser stays as it is.
    pub fn maybe(self) -> (r: Recipe<T>)
        ensures
            self is Maybe ==> r == self,
            !(self is Maybe) ==> r == Recipe::Maybe(ParserMaybe { recipe: Box::new(self) }),
    {
        match self {
            Recipe::Maybe(c) => Recipe::Maybe(c),
            other => Recipe::Maybe(ParserMaybe { recipe: Box::new(other) }),
        }
    }

    /// Positive lookahead; a positive lookahead stays as it is.
    pub fn ensure(self) -> (r: Recipe<T>)
        ensures
            self is Ensure ==> r == self,
            !(self is Ensure) ==> r == Recipe::Ensure(ParserEnsure { recipe: Box::new(self) }),
    {
        match self {
            Recipe::Ensure(c) => Recipe::Ensure(c),
            other => Recipe::Ensure(ParserEnsure { recipe: Box::new(other) }),
        }
    }

    /// Negative lookahead.
    pub fn avoid(self) -> (r: Recipe<T>)
        ensures
            r == Recipe::Avoid(ParserAvoid { recipe: Box::new(self) }),
    {
        Recipe::Avoid(ParserAvoid { recipe: Box::new(self) })
    }

    /// One span over what this parser consumes; a catenation stays as it is.
    pub fn catenate(self) -> (r: Recipe<T>)
        ensures
            self is Catenate ==> r == self,
            !(self is Catenate) ==> r == Recipe::Catenate(ParserCatenate { recipe: Box::new(self) }),
    {
        match self {
            Recipe::Catenate(c) => Recipe::Catenate(c),
            other => Recipe::Catenate(ParserCatenate { recipe: Box::new(other) }),
        }
    }

    /// Shows each outcome of this parser to `logger`.
    pub fn log(self, logger: Box<dyn Observer<T>>) -> (r: Recipe<T>)
        ensures
            r is Log,
            *r->Log_0.recipe == self,
    {
        Recipe::Log(ParserLog { recipe: Box::new(self), logger })
    }

    /// Keeps what this parser consumes and drops its tree.
    pub fn ignore(self) -> (r: Recipe<T>)
        ensures
            r == Recipe::IgnoreRes(ParserIgnoreRes { recipe: Box::new(self) }),
    {
        Recipe::IgnoreRes(ParserIgnoreRes { recipe: Box::new(self) })
    }
}

/// The characters of `cs` separated by `", "`.
pub open spec fn char_list(cs: Seq<char>) -> Seq<char>
    decreases cs.len(),
{
    if cs.len() == 0 {
        Seq::empty()
    } else if cs.len() == 1 {
        seq![cs[0]]
    } else {
        char_list(cs.drop_last()) + ", "@ + seq![cs.last()]
    }
}

/// A readable name of parser `p`.
pub open spec fn description<T>(p: Recipe<T>) -> Seq<char>
    decreases p, 0int,
{
    match p {
        Recipe::Char(ParserChar(c)) => "parse character '"@ + seq![c] + "'"@,
        Recipe::Str(ParserStr(s)) => "parse string '"@ + s@ + "'"@,
        Recipe::Predicate(_) => "parse accoding to predicate"@,
        Recipe::Any(_) => "parse any character"@,
        Recipe::Except(e) => "parse any character except for "@ + char_list(e.recipe@),
        Recipe::OneOf(o) => "parser any character part of "@ + char_list(o.recipe@),
        Recipe::Catenate(c) => "catenation of "@ + description(*c.recipe),
        Recipe::Msg(c) => description(*c.recipe),
        Recipe::Labeled(c) => description(*c.recipe),
        Recipe::Sequence(c) => "Sequence of"@ + list_description(c.recipe@, c.recipe@.len() as int),
        Recipe::Choice(c) => "Choice between"@ + list_description(
            c.recipe@,
            c.recipe@.len() as int,
        ),
        Recipe::Plus(c) => description(*c.recipe) + " at least once"@,
        Recipe::Star(c) => description(*c.recipe) + " as often as possible"@,
        Recipe::Maybe(c) => description(*c.recipe) + " or nothing"@,
        Recipe::Ensure(c) => "Ensure "@ + description(*c.recipe),
        Recipe::Avoid(c) => "Avoid "@ + description(*c.recipe),
        Recipe::Log(c) => description(*c.recipe),
        Recipe::IgnoreRes(c) => description(*c.recipe),
    }
}

/// One line `"\n- "` and a description for each of the first `i` parsers of `cs`.
pub open spec fn list_description<T>(cs: Seq<Recipe<T>>, i: int) -> Seq<char>
    decreases cs, i,
{
    if i <= 0 || i > cs.len() {
        Seq::empty()
    } else {
        list_description(cs, i - 1) + "\n- "@ + description(cs[i - 1])
    }
}

fn push_char_list(out: &mut String, cs: &Vec<char>)
    ensures
        final(out)@ == old(out)@ + char_list(cs@),
{
    let ghost start = out@;
    let mut i: usize = 0;
    while i < cs.len()
        invariant
            i <= cs.len(),
            out@ == start + char_list(cs@.take(i as int)),
        decreases cs.len() - i,
    {
        if i > 0 {
            push_str(out, ", ");
        }
        push_char(out, cs[i]);
        proof {
            let t = cs@.take(i + 1);
            assert(t.drop_last() =~= cs@.take(i as int));
            if i == 0 {
                assert(char_list(t) == seq![t[0]]);
                assert(char_list(cs@.take(0)) =~= Seq::<char>::empty());
            }
        }
        i = i + 1;
        proof {
            assert(out@ =~= start + char_list(cs@.take(i as int)));
        }
    }
    proof {
        assert(cs@.take(cs@.len() as int) =~= cs@);
    }
}

impl<T: Identifier> Recipe<T> {
    /// Appends this parser's description to `out`.
    fn describe_into(&self, out: &mut String)
        ensures
            final(out)@ == old(out)@ + description(*self),
        decreases self,
    {
        let ghost start = out@;
        match self {
            Recipe::Char(ParserChar(c)) => {
                push_str(out, "parse character '");
                push_char(out, *c);
                push_str(out, "'");
            },
            Recipe::Str(ParserStr(s)) => {
                push_str(out, "parse string '");
                push_str(out, s);
                push_str(out, "'");
            },
            Recipe::Predicate(_) => push_str(out, "parse accoding to predicate"),
            Recipe::Any(_) => push_str(out, "parse any character"),
            Recipe::Except(e) => {
                push_str(out, "parse any character except for ");
                push_char_list(out, &e.recipe);
            },
            Recipe::OneOf(o) => {
                push_str(out, "parser any character part of ");
                push_char_list(out, &o.recipe);
            },
            Recipe::Catenate(c) => {
                push_str(out, "catenation of ");
                c.recipe.describe_into(out);
            },
            Recipe::Msg(c) => c.recipe.describe_into(out),
            Recipe::Labeled(c) => c.recipe.describe_into(out),
            Recipe::Sequence(c) => {
                push_str(out, "Sequence of");
                let ghost mid = out@;
                let mut i: usize = 0;
                while i < c.recipe.len()
                    invariant
                        (*self) is Sequence,
                        (*self)->Sequence_0 == *c,
                        i <= c.recipe.len(),
                        out@ == mid + list_description(c.recipe@, i as int),
                    decreases c.recipe.len() - i,
                {
                    proof {
                        vstd::std_specs::vec::axiom_vec_index_decreases(c.recipe, i as int);
                        assert(decreases_to!(*self => (*self)->Sequence_0));
                    }
                    push_str(out, "\n- ");
                    c.recipe[i].describe_into(out);
                    i = i + 1;
                }
            },
            Recipe::Choice(c) => {
                push_str(out, "Choice between");
                let ghost mid = out@;
                let mut i: usize = 0;
                while i < c.recipe.len()
                    invariant
                        (*self) is Choice,
                        (*self)->Choice_0 == *c,
                        i <= c.recipe.len(),
                        out@ == mid + list_description(c.recipe@, i as int),
                    decreases c.recipe.len() - i,
                {
                    proof {
                        vstd::std_specs::vec::axiom_vec_index_decreases(c.recipe, i as int);
                        assert(decreases_to!(*self => (*self)->Choice_0));
                    }
                    push_str(out, "\n- ");
                    c.recipe[i].describe_into(out);
                    i = i + 1;
                }
            },
            Recipe::Plus(c) => {
                c.recipe.describe_into(out);
                push_str(out, " at least once");
            },
            Recipe::Star(c) => {
                c.recipe.describe_into(out);
                push_str(out, " as often as possible");
            },
            Recipe::Maybe(c) => {
                c.recipe.describe_into(out);
                push_str(out, " or nothing");
            },
            Recipe::Ensure(c) => {
                push_str(out, "Ensure ");
                c.recipe.describe_into(out);
            },
            Recipe::Avoid(c) => {
                push_str(out, "Avoid ");
                c.recipe.describe_into(out);
            },
            Recipe::Log(c) => c.recipe.describe_into(out),
            Recipe::IgnoreRes(c) => c.recipe.describe_into(out),
        }
        proof {
            assert(out@ =~= start + description(*self));
        }
    }

    /// A readable name of this parser, as the verbose error shows it.
    pub fn describe(&self) -> (r: String)
        ensures
            r@ == description(*self),
    {
        let mut out = String::new();
        self.describe_into(&mut out);
        proof {
            assert(out@ =~= description(*self));
        }
        out
    }
}

} // verus!
