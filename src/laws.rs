//! Laws that every run obeys, proved over the outcome model.
use crate::combinators::{
    ParserAvoid, ParserChoice, ParserEnsure, ParserPlus, ParserSeq, ParserStar,
};
use crate::cursor::{chars_from, lemma_prefix_step};
use crate::error::Failure;
use crate::parser::{
    choice_outcome, is_primitive, outcome, repetition, sequence_outcome, Recipe,
};
use crate::primitives::ParserStr;
use crate::tree::{span_text, spans_text, Tree};
use vstd::prelude::*;
use vstd::string::*;
use vstd::utf8::*;

verus! {

broadcast use vstd::utf8::group_utf8_lib;

/// No part of `p` drops the tree of text it consumed: there is no
/// result-discarding parser outside a catenation or a lookahead.
pub open spec fn keeps_spans<T>(p: Recipe<T>) -> bool
    decreases p,
{
    match p {
        Recipe::Catenate(_) | Recipe::Ensure(_) | Recipe::Avoid(_) => true,
        Recipe::IgnoreRes(_) => false,
        Recipe::Msg(c) => keeps_spans(*c.recipe),
        Recipe::Labeled(c) => keeps_spans(*c.recipe),
        Recipe::Plus(c) => keeps_spans(*c.recipe),
        Recipe::Star(c) => keeps_spans(*c.recipe),
        Recipe::Maybe(c) => keeps_spans(*c.recipe),
        Recipe::Log(c) => keeps_spans(*c.recipe),
        Recipe::Sequence(c) => forall|i: int|
            0 <= i < c.recipe@.len() ==> keeps_spans(#[trigger] c.recipe@[i]),
        Recipe::Choice(c) => forall|i: int|
            0 <= i < c.recipe@.len() ==> keeps_spans(#[trigger] c.recipe@[i]),
        _ => true,
    }
}

proof fn lemma_spans_prefix<T>(x: Seq<Tree<T>>, y: Seq<Tree<T>>, i: int)
    requires
        0 <= i <= x.len(),
    ensures
        spans_text(x + y, i) == spans_text(x, i),
    decreases i,
{
    if i > 0 {
        lemma_spans_prefix(x, y, i - 1);
        assert((x + y)[i - 1] == x[i - 1]);
    }
}

proof fn lemma_spans_concat<T>(x: Seq<Tree<T>>, y: Seq<Tree<T>>, j: int)
    requires
        0 <= j <= y.len(),
    ensures
        spans_text(x + y, x.len() + j) == spans_text(x, x.len() as int) + spans_text(y, j),
    decreases j,
{
    if j == 0 {
        lemma_spans_prefix(x, y, x.len() as int);
        assert(spans_text(x, x.len() as int) + Seq::<u8>::empty() =~= spans_text(x, x.len() as int));
    } else {
        lemma_spans_concat(x, y, j - 1);
        assert((x + y)[x.len() + j - 1] == y[j - 1]);
        assert(spans_text(x, x.len() as int) + spans_text(y, j - 1) + span_text(y[j - 1])
            =~= spans_text(x, x.len() as int) + (spans_text(y, j - 1) + span_text(y[j - 1])));
    }
}

/// The span bytes of `seq![t] + ts` are those of `t` followed by those of `ts`.
proof fn lemma_spans_cons<T>(t: Tree<T>, ts: Seq<Tree<T>>)
    ensures
        spans_text(seq![t] + ts, (ts.len() + 1) as int) == span_text(t) + spans_text(ts, ts.len() as int),
{
    lemma_spans_concat(seq![t], ts, ts.len() as int);
    assert(spans_text(seq![t], 1) == spans_text(seq![t], 0) + span_text(t));
    assert(spans_text(seq![t], 0) + span_text(t) =~= span_text(t));
}

/// A successful run ends on a character boundary no earlier than it started
/// and no later than the end of the text; when the parser keeps its spans,
/// the spans of the tree, in order, are exactly the bytes it consumed.
pub proof fn lemma_outcome_spans<T>(p: Recipe<T>, b: Seq<u8>, h: nat)
    requires
        valid_utf8(b),
        h <= b.len(),
        is_char_boundary(b, h as int),
    ensures
        outcome(p, b, h) matches Ok((t, h1)) ==> {
            &&& h <= h1 <= b.len()
            &&& is_char_boundary(b, h1 as int)
            &&& keeps_spans(p) ==> span_text(t) == b.subrange(h as int, h1 as int)
        },
    decreases p, 0int, 0int,
{
    if is_primitive(p) {
        if h < b.len() {
            let r = chars_from(b, h as int);
            valid_utf8_split(b, h as int);
            assert(b.subrange(h as int, b.len() as int).len() > 0);
            if r.len() == 0 {
                assert(encode_utf8(r).len() == 0);
            }
            lemma_prefix_step(b, h as int, 1);
            assert(r.take(1) =~= seq![r[0]]);
            match p {
                Recipe::Str(ParserStr(s)) => {
                    if s@.len() <= r.len() {
                        lemma_prefix_step(b, h as int, s@.len() as int);
                    }
                },
                _ => {},
            }
        }
    } else {
        match p {
            Recipe::Catenate(c) => lemma_outcome_spans(*c.recipe, b, h),
            Recipe::Msg(c) => lemma_outcome_spans(*c.recipe, b, h),
            Recipe::Labeled(c) => lemma_outcome_spans(*c.recipe, b, h),
            Recipe::Sequence(c) => {
                lemma_sequence_spans(c.recipe@, b, h, 0);
                if keeps_spans(p) {
                    assert forall|i: int| 0 <= i < c.recipe@.len() implies keeps_spans(
                        #[trigger] c.recipe@[i],
                    ) by {}
                }
            },
            Recipe::Choice(c) => {
                lemma_choice_spans(p, c.recipe@, b, h, 0);
            },
            Recipe::Plus(c) => {
                lemma_outcome_spans(*c.recipe, b, h);
                match outcome(*c.recipe, b, h) {
                    Ok((t, h1)) => {
                        lemma_repetition_spans(*c.recipe, b, h1);
                        let (ts, h2) = repetition(*c.recipe, b, h1);
                        lemma_spans_cons(t, ts);
                        assert(b.subrange(h as int, h1 as int) + b.subrange(h1 as int, h2 as int)
                            =~= b.subrange(h as int, h2 as int));
                    },
                    Err(_) => {},
                }
            },
            Recipe::Star(c) => {
                lemma_repetition_spans(*c.recipe, b, h);
                assert(b.subrange(h as int, h as int) =~= Seq::<u8>::empty());
            },
            Recipe::Maybe(c) => {
                lemma_outcome_spans(*c.recipe, b, h);
                assert(b.subrange(h as int, h as int) =~= Seq::<u8>::empty());
            },
            Recipe::Ensure(c) => {
                assert(b.subrange(h as int, h as int) =~= Seq::<u8>::empty());
            },
            Recipe::Avoid(c) => {
                assert(b.subrange(h as int, h as int) =~= Seq::<u8>::empty());
            },
            Recipe::Log(c) => lemma_outcome_spans(*c.recipe, b, h),
            Recipe::IgnoreRes(c) => lemma_outcome_spans(*c.recipe, b, h),
            _ => {},
        }
    }
}

proof fn lemma_sequence_spans<T>(cs: Seq<Recipe<T>>, b: Seq<u8>, h: nat, i: int)
    requires
        valid_utf8(b),
        h <= b.len(),
        is_char_boundary(b, h as int),
    ensures
        sequence_outcome(cs, b, h, i) matches Ok((ts, h1)) ==> {
            &&& h <= h1 <= b.len()
            &&& is_char_boundary(b, h1 as int)
            &&& (forall|k: int| i <= k < cs.len() ==> keeps_spans(#[trigger] cs[k]))
                ==> spans_text(ts, ts.len() as int) == b.subrange(h as int, h1 as int)
        },
    decreases cs, cs.len() - i, 0int,
{
    if i < 0 || i >= cs.len() {
        assert(b.subrange(h as int, h as int) =~= Seq::<u8>::empty());
    } else {
        lemma_outcome_spans(cs[i], b, h);
        match outcome(cs[i], b, h) {
            Ok((t, h1)) => {
                lemma_sequence_spans(cs, b, h1, i + 1);
                match sequence_outcome(cs, b, h1, i + 1) {
                    Ok((ts, h2)) => {
                        lemma_spans_cons(t, ts);
                        assert(b.subrange(h as int, h1 as int) + b.subrange(h1 as int, h2 as int)
                            =~= b.subrange(h as int, h2 as int));
                    },
                    Err(_) => {},
                }
            },
            Err(_) => {},
        }
    }
}

proof fn lemma_choice_spans<T>(p: Recipe<T>, cs: Seq<Recipe<T>>, b: Seq<u8>, h: nat, i: int)
    requires
        valid_utf8(b),
        h <= b.len(),
        is_char_boundary(b, h as int),
    ensures
        choice_outcome(p, cs, b, h, i) matches Ok((t, h1)) ==> {
            &&& h <= h1 <= b.len()
            &&& is_char_boundary(b, h1 as int)
            &&& (forall|k: int| i <= k < cs.len() ==> keeps_spans(#[trigger] cs[k]))
                ==> span_text(t) == b.subrange(h as int, h1 as int)
        },
    decreases cs, cs.len() - i, 0int,
{
    if 0 <= i < cs.len() {
        lemma_outcome_spans(cs[i], b, h);
        lemma_choice_spans(p, cs, b, h, i + 1);
    }
}

proof fn lemma_repetition_spans<T>(c: Recipe<T>, b: Seq<u8>, h: nat)
    requires
        valid_utf8(b),
        h <= b.len(),
        is_char_boundary(b, h as int),
    ensures
        ({
            let (ts, h1) = repetition(c, b, h);
            &&& h <= h1 <= b.len()
            &&& is_char_boundary(b, h1 as int)
            &&& ts.len() == 0 ==> h1 == h
            &&& keeps_spans(c) ==> spans_text(ts, ts.len() as int) == b.subrange(h as int, h1 as int)
        }),
    decreases c, 1int, b.len() - h,
{
    lemma_outcome_spans(c, b, h);
    match outcome(c, b, h) {
        Ok((t, h1)) => {
            if h < h1 <= b.len() {
                lemma_repetition_spans(c, b, h1);
                let (ts, h2) = repetition(c, b, h1);
                lemma_spans_cons(t, ts);
                assert(b.subrange(h as int, h1 as int) + b.subrange(h1 as int, h2 as int)
                    =~= b.subrange(h as int, h2 as int));
            } else {
                assert(b.subrange(h as int, h as int) =~= Seq::<u8>::empty());
            }
        },
        Err(_) => {
            assert(b.subrange(h as int, h as int) =~= Seq::<u8>::empty());
        },
    }
}

/// Ordered choice backtracks: when `a` fails at offset `h`, the choice
/// between `a` and `b` succeeds exactly when `b` alone does, with the same
/// tree and end offset; when it fails, it fails at `h`.
pub proof fn lemma_choice_backtracks<T>(c: ParserChoice<T>, a: Recipe<T>, p: Recipe<T>, b: Seq<u8>, h: nat)
    requires
        c.recipe@ == seq![a, p],
        outcome(a, b, h) is Err,
    ensures
        outcome(Recipe::Choice(c), b, h) is Ok <==> outcome(p, b, h) is Ok,
        outcome(p, b, h) is Ok ==> outcome(Recipe::Choice(c), b, h) == outcome(p, b, h),
        outcome(Recipe::Choice(c), b, h) matches Err(f) ==> f.at == h,
{
    let q = Recipe::Choice(c);
    let cs = c.recipe@;
    assert(cs[0] == a && cs[1] == p);
    assert(choice_outcome(q, cs, b, h, 0) == choice_outcome(q, cs, b, h, 1));
    assert(outcome(p, b, h) is Err ==> choice_outcome(q, cs, b, h, 1) == choice_outcome(q, cs, b, h, 2));
}

/// Positive lookahead consumes nothing: it succeeds exactly when its child
/// does, and then ends where it started.
pub proof fn lemma_ensure_zero_width<T>(c: ParserEnsure<T>, b: Seq<u8>, h: nat)
    ensures
        outcome(Recipe::Ensure(c), b, h) is Ok <==> outcome(*c.recipe, b, h) is Ok,
        outcome(Recipe::Ensure(c), b, h) matches Ok((t, h1)) ==> h1 == h && t == Tree::<T>::Empty,
        outcome(Recipe::Ensure(c), b, h) matches Err(f) ==> outcome(*c.recipe, b, h) == Err::<
            (Tree<T>, nat),
            _,
        >(f),
{
}

/// Negative lookahead consumes nothing: it succeeds exactly when its child
/// fails, and then ends where it started; when the child succeeds it fails
/// at its start, naming the child.
pub proof fn lemma_avoid_zero_width<T>(c: ParserAvoid<T>, b: Seq<u8>, h: nat)
    ensures
        outcome(Recipe::Avoid(c), b, h) is Ok <==> outcome(*c.recipe, b, h) is Err,
        outcome(Recipe::Avoid(c), b, h) matches Ok((t, h1)) ==> h1 == h && t == Tree::<T>::Empty,
        outcome(Recipe::Avoid(c), b, h) matches Err(f) ==> f.at == h && f.expected == *c.recipe
            && f.backtrace.len() == 0 && f.msg is None,
{
}

/// A repetition ends where its child fails, or succeeds without moving
/// forward.
pub proof fn lemma_repetition_stops<T>(c: Recipe<T>, b: Seq<u8>, h: nat)
    requires
        valid_utf8(b),
        h <= b.len(),
        is_char_boundary(b, h as int),
    ensures
        outcome(c, b, repetition(c, b, h).1) matches Ok((_, h2)) ==> h2 <= repetition(c, b, h).1,
    decreases b.len() - h,
{
    lemma_outcome_spans(c, b, h);
    match outcome(c, b, h) {
        Ok((t, h1)) => {
            if h < h1 <= b.len() {
                lemma_repetition_stops(c, b, h1);
            }
        },
        Err(_) => {},
    }
}

/// Zero-or-more never fails, and ends where its child fails or stops
/// moving forward.
pub proof fn lemma_star_laws<T>(c: ParserStar<T>, b: Seq<u8>, h: nat)
    requires
        valid_utf8(b),
        h <= b.len(),
        is_char_boundary(b, h as int),
    ensures
        outcome(Recipe::Star(c), b, h) is Ok,
        outcome(Recipe::Star(c), b, h) matches Ok((_, h1)) ==> (outcome(*c.recipe, b, h1) matches Ok((_, h2))
            ==> h2 <= h1),
{
    lemma_repetition_stops(*c.recipe, b, h);
}

/// One-or-more fails exactly when its child fails on the first attempt,
/// and then with the child's failure; on success it ends where its child
/// fails or stops moving forward.
pub proof fn lemma_plus_laws<T>(c: ParserPlus<T>, b: Seq<u8>, h: nat)
    requires
        valid_utf8(b),
        h <= b.len(),
        is_char_boundary(b, h as int),
    ensures
        outcome(Recipe::Plus(c), b, h) is Err <==> outcome(*c.recipe, b, h) is Err,
        outcome(*c.recipe, b, h) is Err ==> outcome(Recipe::Plus(c), b, h) == outcome(*c.recipe, b, h),
        outcome(Recipe::Plus(c), b, h) matches Ok((_, h1)) ==> (outcome(*c.recipe, b, h1) matches Ok((_, h2))
            ==> h2 <= h1),
{
    lemma_outcome_spans(*c.recipe, b, h);
    match outcome(*c.recipe, b, h) {
        Ok((t, h1)) => {
            lemma_repetition_stops(*c.recipe, b, h1);
        },
        Err(_) => {},
    }
}

/// `c` succeeds at each offset `hs[i]` with tree `ts[i]`, moving forward to
/// `hs[i + 1]`, and fails at the last offset.
pub open spec fn is_run_chain<T>(c: Recipe<T>, b: Seq<u8>, hs: Seq<nat>, ts: Seq<Tree<T>>) -> bool {
    &&& hs.len() == ts.len() + 1
    &&& forall|i: int|
        0 <= i < ts.len() ==> #[trigger] outcome(c, b, hs[i]) == Ok::<(Tree<T>, nat), Failure<T>>(
            (ts[i], hs[i + 1]),
        ) && hs[i] < hs[i + 1] <= b.len()
    &&& outcome(c, b, hs.last()) is Err
}

/// A repetition along a chain of forward-moving successes of `c` collects
/// their trees, in order, and ends where `c` first fails; that failure is
/// dropped.
pub proof fn lemma_repetition_chain<T>(c: Recipe<T>, b: Seq<u8>, hs: Seq<nat>, ts: Seq<Tree<T>>)
    requires
        is_run_chain(c, b, hs, ts),
    ensures
        repetition(c, b, hs[0]) == (ts, hs.last()),
    decreases ts.len(),
{
    if ts.len() == 0 {
        assert(ts =~= Seq::<Tree<T>>::empty());
    } else {
        let hs2 = hs.drop_first();
        let ts2 = ts.drop_first();
        assert(outcome(c, b, hs[0]) == Ok::<(Tree<T>, nat), Failure<T>>((ts[0], hs[1])));
        assert forall|i: int| 0 <= i < ts2.len() implies #[trigger] outcome(c, b, hs2[i]) == Ok::<
            (Tree<T>, nat),
            Failure<T>,
        >((ts2[i], hs2[i + 1])) && hs2[i] < hs2[i + 1] <= b.len() by {
            assert(outcome(c, b, hs[i + 1]) == Ok::<(Tree<T>, nat), Failure<T>>((ts[i + 1], hs[i + 2])));
        }
        assert(hs2.last() == hs.last());
        lemma_repetition_chain(c, b, hs2, ts2);
        assert(seq![ts[0]] + ts2 =~= ts);
    }
}

/// Zero-or-more along such a chain yields `Empty` after no success, and
/// otherwise the group of the successes' trees, ending where `c` failed.
pub proof fn lemma_star_chain<T>(c: ParserStar<T>, b: Seq<u8>, hs: Seq<nat>, ts: Seq<Tree<T>>)
    requires
        is_run_chain(*c.recipe, b, hs, ts),
    ensures
        outcome(Recipe::Star(c), b, hs[0]) == Ok::<(Tree<T>, nat), Failure<T>>(
            (
                if ts.len() == 0 {
                    Tree::Empty
                } else {
                    Tree::Group(ts)
                },
                hs.last(),
            ),
        ),
{
    lemma_repetition_chain(*c.recipe, b, hs, ts);
}

/// One-or-more along such a chain of at least one success yields the group
/// of the successes' trees, ending where `c` failed.
pub proof fn lemma_plus_chain<T>(c: ParserPlus<T>, b: Seq<u8>, hs: Seq<nat>, ts: Seq<Tree<T>>)
    requires
        is_run_chain(*c.recipe, b, hs, ts),
        ts.len() >= 1,
    ensures
        outcome(Recipe::Plus(c), b, hs[0]) == Ok::<(Tree<T>, nat), Failure<T>>((Tree::Group(ts), hs.last())),
{
    let r = *c.recipe;
    assert(outcome(r, b, hs[0]) == Ok::<(Tree<T>, nat), Failure<T>>((ts[0], hs[1])));
    let hs2 = hs.drop_first();
    let ts2 = ts.drop_first();
    assert forall|i: int| 0 <= i < ts2.len() implies #[trigger] outcome(r, b, hs2[i]) == Ok::<
        (Tree<T>, nat),
        Failure<T>,
    >((ts2[i], hs2[i + 1])) && hs2[i] < hs2[i + 1] <= b.len() by {
        assert(outcome(r, b, hs[i + 1]) == Ok::<(Tree<T>, nat), Failure<T>>((ts[i + 1], hs[i + 2])));
    }
    assert(hs2.last() == hs.last());
    lemma_repetition_chain(r, b, hs2, ts2);
    assert(seq![ts[0]] + ts2 =~= ts);
}

/// Every success of `p` from a character boundary of `b` has spans that
/// are exactly the bytes it consumed.
pub open spec fn spans_complete<T>(p: Recipe<T>, b: Seq<u8>) -> bool {
    forall|h: nat|
        #![trigger outcome(p, b, h)]
        h <= b.len() && is_char_boundary(b, h as int) ==> (outcome(p, b, h) matches Ok((t, h1))
            ==> span_text(t) == b.subrange(h as int, h1 as int))
}

proof fn lemma_sequence_complete_from<T>(cs: Seq<Recipe<T>>, b: Seq<u8>, h: nat, i: int)
    requires
        valid_utf8(b),
        h <= b.len(),
        is_char_boundary(b, h as int),
        forall|k: int| 0 <= k < cs.len() ==> spans_complete(#[trigger] cs[k], b),
    ensures
        sequence_outcome(cs, b, h, i) matches Ok((ts, h1)) ==> spans_text(ts, ts.len() as int)
            == b.subrange(h as int, h1 as int),
    decreases cs.len() - i,
{
    if i < 0 || i >= cs.len() {
        assert(b.subrange(h as int, h as int) =~= Seq::<u8>::empty());
    } else {
        lemma_outcome_spans(cs[i], b, h);
        assert(spans_complete(cs[i], b));
        match outcome(cs[i], b, h) {
            Ok((t, h1)) => {
                lemma_sequence_complete_from(cs, b, h1, i + 1);
                match sequence_outcome(cs, b, h1, i + 1) {
                    Ok((ts, h2)) => {
                        lemma_sequence_spans(cs, b, h1, i + 1);
                        lemma_spans_cons(t, ts);
                        assert(b.subrange(h as int, h1 as int) + b.subrange(h1 as int, h2 as int)
                            =~= b.subrange(h as int, h2 as int));
                    },
                    Err(_) => {},
                }
            },
            Err(_) => {},
        }
    }
}

proof fn lemma_repetition_complete<T>(c: Recipe<T>, b: Seq<u8>, h: nat)
    requires
        valid_utf8(b),
        h <= b.len(),
        is_char_boundary(b, h as int),
        spans_complete(c, b),
    ensures
        spans_text(repetition(c, b, h).0, repetition(c, b, h).0.len() as int) == b.subrange(
            h as int,
            repetition(c, b, h).1 as int,
        ),
    decreases b.len() - h,
{
    lemma_outcome_spans(c, b, h);
    assert(spans_complete(c, b));
    match outcome(c, b, h) {
        Ok((t, h1)) => {
            if h < h1 <= b.len() {
                lemma_repetition_complete(c, b, h1);
                lemma_repetition_spans(c, b, h1);
                let (ts, h2) = repetition(c, b, h1);
                lemma_spans_cons(t, ts);
                assert(b.subrange(h as int, h1 as int) + b.subrange(h1 as int, h2 as int)
                    =~= b.subrange(h as int, h2 as int));
            } else {
                assert(b.subrange(h as int, h as int) =~= Seq::<u8>::empty());
            }
        },
        Err(_) => {
            assert(b.subrange(h as int, h as int) =~= Seq::<u8>::empty());
        },
    }
}

/// A sequence whose children are span-complete is span-complete.
pub proof fn lemma_sequence_spans_complete<T>(c: ParserSeq<T>, b: Seq<u8>)
    requires
        valid_utf8(b),
        forall|k: int| 0 <= k < c.recipe@.len() ==> spans_complete(#[trigger] c.recipe@[k], b),
    ensures
        spans_complete(Recipe::Sequence(c), b),
{
    assert forall|h: nat| h <= b.len() && is_char_boundary(b, h as int) implies (#[trigger] outcome(
        Recipe::Sequence(c),
        b,
        h,
    ) matches Ok((t, h1)) ==> span_text(t) == b.subrange(h as int, h1 as int)) by {
        lemma_sequence_complete_from(c.recipe@, b, h, 0);
    }
}

/// One-or-more over a span-complete child is span-complete.
pub proof fn lemma_plus_spans_complete<T>(c: ParserPlus<T>, b: Seq<u8>)
    requires
        valid_utf8(b),
        spans_complete(*c.recipe, b),
    ensures
        spans_complete(Recipe::Plus(c), b),
{
    assert forall|h: nat| h <= b.len() && is_char_boundary(b, h as int) implies (#[trigger] outcome(
        Recipe::Plus(c),
        b,
        h,
    ) matches Ok((t, h1)) ==> span_text(t) == b.subrange(h as int, h1 as int)) by {
        lemma_outcome_spans(*c.recipe, b, h);
        match outcome(*c.recipe, b, h) {
            Ok((t, h1)) => {
                lemma_repetition_complete(*c.recipe, b, h1);
                lemma_repetition_spans(*c.recipe, b, h1);
                let (ts, h2) = repetition(*c.recipe, b, h1);
                lemma_spans_cons(t, ts);
                assert(b.subrange(h as int, h1 as int) + b.subrange(h1 as int, h2 as int)
                    =~= b.subrange(h as int, h2 as int));
            },
            Err(_) => {},
        }
    }
}

/// Zero-or-more over a span-complete child is span-complete.
pub proof fn lemma_star_spans_complete<T>(c: ParserStar<T>, b: Seq<u8>)
    requires
        valid_utf8(b),
        spans_complete(*c.recipe, b),
    ensures
        spans_complete(Recipe::Star(c), b),
{
    assert forall|h: nat| h <= b.len() && is_char_boundary(b, h as int) implies (#[trigger] outcome(
        Recipe::Star(c),
        b,
        h,
    ) matches Ok((t, h1)) ==> span_text(t) == b.subrange(h as int, h1 as int)) by {
        lemma_repetition_complete(*c.recipe, b, h);
        lemma_repetition_spans(*c.recipe, b, h);
        assert(b.subrange(h as int, h as int) =~= Seq::<u8>::empty());
    }
}

} // verus!
