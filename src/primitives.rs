//! Leaf parsers: literal character, literal string, predicate, any
//! character, and character in or not in a set.
use crate::parser::Recipe;
use crate::tree::Identifier;
use vstd::prelude::*;

verus! {

/// A test on the remaining input: whether it matches and how many bytes
/// the match takes.
pub trait Matcher {
    spec fn accepts(&self, rest: Seq<char>) -> (bool, nat);

    fn test(&self, rest: &str) -> (r: (bool, usize))
        ensures
            (r.0, r.1 as nat) == self.accepts(rest@),
    ;
}

/// A closure used as a [`Matcher`]; it must accept every input and answer
/// the same for equal texts.
pub struct FnMatcher<F: Fn(&str) -> (bool, usize)> {
    f: F,
}

pub open spec fn is_text_function<F: Fn(&str) -> (bool, usize)>(f: F) -> bool {
    &&& forall|s: &str| #[trigger] call_requires(f, (s,))
    &&& forall|s1: &str, s2: &str, r1: (bool, usize), r2: (bool, usize)|
        #![trigger call_ensures(f, (s1,), r1), call_ensures(f, (s2,), r2)]
        s1@ == s2@ && call_ensures(f, (s1,), r1) && call_ensures(f, (s2,), r2) ==> r1 == r2
}

impl<F: Fn(&str) -> (bool, usize)> FnMatcher<F> {
    #[verifier::type_invariant]
    spec fn inv(&self) -> bool {
        is_text_function(self.f)
    }

    pub closed spec fn function(&self) -> F {
        self.f
    }

    pub fn new(f: F) -> (r: Self)
        requires
            is_text_function(f),
        ensures
            r.function() == f,
    {
        FnMatcher { f }
    }
}

impl<F: Fn(&str) -> (bool, usize)> Matcher for FnMatcher<F> {
    closed spec fn accepts(&self, rest: Seq<char>) -> (bool, nat) {
        let w = choose|w: (&str, (bool, usize))|
            w.0@ == rest && #[trigger] call_ensures(self.f, (w.0,), w.1);
        (w.1.0, w.1.1 as nat)
    }

    fn test(&self, rest: &str) -> (r: (bool, usize)) {
        proof {
            use_type_invariant(self);
        }
        let r = (self.f)(rest);
        proof {
            let w0 = (rest, r);
            assert(w0.0@ == rest@ && call_ensures(self.f, (w0.0,), w0.1));
            let w = choose|w: (&str, (bool, usize))|
                w.0@ == rest@ && #[trigger] call_ensures(self.f, (w.0,), w.1);
            assert(call_ensures(self.f, (w.0,), w.1) && call_ensures(self.f, (rest,), r));
        }
        r
    }
}

/// Matches one given character.
pub struct ParserChar(pub char);

/// Matches a given string.
pub struct ParserStr(pub &'static str);

/// Matches what a [`Matcher`] accepts.
pub struct ParserPredicate(pub Box<dyn Matcher>);

/// Matches any one character.
pub struct ParserAny;

/// Matches one character that is not in a set.
pub struct ParserExcept {
    pub recipe: Vec<char>,
}

/// Matches one character that is in a set.
pub struct ParserOneOf {
    pub recipe: Vec<char>,
}

/// Matches the character `c`.
pub fn pchar<T: Identifier>(c: char) -> (r: Recipe<T>)
    ensures
        r == Recipe::<T>::Char(ParserChar(c)),
{
    Recipe::Char(ParserChar(c))
}

/// Matches the string `s`.
pub fn pstr<T: Identifier>(s: &'static str) -> (r: Recipe<T>)
    ensures
        r == Recipe::<T>::Str(ParserStr(s)),
{
    Recipe::Str(ParserStr(s))
}

/// Matches where `p`, given the remaining input, answers `(true, n)`: the
/// match takes `n` bytes. A length that runs past the end of the input or
/// ends inside a character counts as a mismatch.
pub fn ppredicate<T: Identifier, P: Fn(&str) -> (bool, usize) + 'static>(p: P) -> (r: Recipe<T>)
    requires
        is_text_function(p),
    ensures
        r is Predicate,
        forall|s: &str, a: (bool, usize)|
            #[trigger] call_ensures(p, (s,), a) ==> r->Predicate_0.0.accepts(s@) == (a.0, a.1 as nat),
{
    let m = FnMatcher::new(p);
    let ghost gm = m;
    proof {
        assert forall|s: &str, a: (bool, usize)| #[trigger] call_ensures(p, (s,), a) implies gm.accepts(
            s@,
        ) == (a.0, a.1 as nat) by {
            assert(gm.f == p);
            assert(call_ensures(gm.f, ((s, a).0,), (s, a).1));
            let w = choose|w: (&str, (bool, usize))|
                w.0@ == s@ && #[trigger] call_ensures(gm.f, (w.0,), w.1);
            assert(call_ensures(p, (w.0,), w.1));
        }
    }
    let pp = ParserPredicate(Box::new(m));
    proof {
        assert forall|s: &str, a: (bool, usize)| #[trigger] call_ensures(p, (s,), a) implies pp.0.accepts(
            s@,
        ) == (a.0, a.1 as nat) by {
            assert(pp.0.accepts(s@) == gm.accepts(s@));
        }
    }
    Recipe::Predicate(pp)
}

/// Matches what `m` accepts.
pub fn pmatcher<T: Identifier>(m: Box<dyn Matcher>) -> (r: Recipe<T>)
    ensures
        r == Recipe::<T>::Predicate(ParserPredicate(m)),
{
    Recipe::Predicate(ParserPredicate(m))
}

/// Matches any one character.
pub fn pany<T: Identifier>() -> (r: Recipe<T>)
    ensures
        r == Recipe::<T>::Any(ParserAny),
{
    Recipe::Any(ParserAny)
}

fn chars_of<const X: usize>(c: [char; X]) -> (r: Vec<char>)
    ensures
        r@ == c@,
{
    let mut v: Vec<char> = Vec::new();
    let mut i: usize = 0;
    while i < X
        invariant
            i <= X,
            c@.len() == X,
            v@ == c@.take(i as int),
        decreases X - i,
    {
        v.push(c[i]);
        i = i + 1;
        proof {
            assert(v@ =~= c@.take(i as int));
        }
    }
    proof {
        assert(c@.take(X as int) =~= c@);
    }
    v
}

/// Matches one character that is none of `c`.
pub fn pexcept<const X: usize, T: Identifier>(c: [char; X]) -> (r: Recipe<T>)
    requires
        X > 0,
    ensures
        r is Except,
        r->Except_0.recipe@ == c@,
{
    Recipe::Except(ParserExcept { recipe: chars_of(c) })
}

/// Matches one character that is one of `c`.
pub fn pin<const X: usize, T: Identifier>(c: [char; X]) -> (r: Recipe<T>)
    requires
        X > 0,
    ensures
        r is OneOf,
        r->OneOf_0.recipe@ == c@,
{
    Recipe::OneOf(ParserOneOf { recipe: chars_of(c) })
}

} // verus!
