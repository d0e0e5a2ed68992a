//! The parse tree that a successful run yields, its mathematical model, and
//! the cleanup pass that drops empty results.
use vstd::prelude::*;
use vstd::string::*;

verus! {

/// A label that callers attach to subtrees: a small, copyable tag.
pub trait Identifier: Copy + 'static {

}

/// A node of the parse tree. `Leaf` borrows the consumed text from the input.
#[derive(Debug, PartialEq, Eq)]
pub enum NonTerminal<'a, T> {
    Node { identifier: T, children: Box<NonTerminal<'a, T>> },
    Congregate(Vec<NonTerminal<'a, T>>),
    Leaf(&'a str),
    Empty,
}

/// The mathematical model of a parse tree; a span is given by its UTF-8 bytes.
pub enum Tree<T> {
    Node(T, Box<Tree<T>>),
    Group(Seq<Tree<T>>),
    Span(Seq<u8>),
    Empty,
}

pub open spec fn tree_of<'a, T>(n: NonTerminal<'a, T>) -> Tree<T>
    decreases n, 0int,
{
    match n {
        NonTerminal::Node { identifier, children } => Tree::Node(
            identifier,
            Box::new(tree_of(*children)),
        ),
        NonTerminal::Congregate(v) => Tree::Group(trees_of(v@, v@.len() as int)),
        NonTerminal::Leaf(s) => Tree::Span(s.spec_bytes()),
        NonTerminal::Empty => Tree::Empty,
    }
}

/// Models of the first `i` nodes of `v`.
pub open spec fn trees_of<'a, T>(v: Seq<NonTerminal<'a, T>>, i: int) -> Seq<Tree<T>>
    decreases v, i,
{
    if i <= 0 || i > v.len() {
        Seq::empty()
    } else {
        trees_of(v, i - 1).push(tree_of(v[i - 1]))
    }
}

impl<'a, T> View for NonTerminal<'a, T> {
    type V = Tree<T>;

    open spec fn view(&self) -> Tree<T> {
        tree_of(*self)
    }
}

pub proof fn lemma_trees_of<'a, T>(v: Seq<NonTerminal<'a, T>>, i: int)
    requires
        0 <= i <= v.len(),
    ensures
        trees_of(v, i).len() == i,
        forall|k: int| 0 <= k < i ==> #[trigger] trees_of(v, i)[k] == tree_of(v[k]),
    decreases i,
{
    if i > 0 {
        lemma_trees_of(v, i - 1);
    }
}

/// The concatenated bytes of all spans of `t`, in order.
pub open spec fn span_text<T>(t: Tree<T>) -> Seq<u8>
    decreases t, 0int,
{
    match t {
        Tree::Node(_, c) => span_text(*c),
        Tree::Group(ts) => spans_text(ts, ts.len() as int),
        Tree::Span(b) => b,
        Tree::Empty => Seq::empty(),
    }
}

/// The concatenated span bytes of the first `i` trees of `ts`.
pub open spec fn spans_text<T>(ts: Seq<Tree<T>>, i: int) -> Seq<u8>
    decreases ts, i,
{
    if i <= 0 || i > ts.len() {
        Seq::empty()
    } else {
        spans_text(ts, i - 1) + span_text(ts[i - 1])
    }
}

/// `t` with every `Empty` child of a group removed, and each group left
/// without children replaced by `Empty`.
pub open spec fn cleaned<T>(t: Tree<T>) -> Tree<T>
    decreases t, 0int,
{
    match t {
        Tree::Node(l, c) => Tree::Node(l, Box::new(cleaned(*c))),
        Tree::Group(ts) => {
            let cs = cleaned_list(ts, ts.len() as int);
            if cs.len() == 0 {
                Tree::Empty
            } else {
                Tree::Group(cs)
            }
        },
        _ => t,
    }
}

/// The cleaned, non-empty trees among the first `i` trees of `ts`.
pub open spec fn cleaned_list<T>(ts: Seq<Tree<T>>, i: int) -> Seq<Tree<T>>
    decreases ts, i,
{
    if i <= 0 || i > ts.len() {
        Seq::empty()
    } else {
        let prev = cleaned_list(ts, i - 1);
        let c = cleaned(ts[i - 1]);
        if c is Empty {
            prev
        } else {
            prev.push(c)
        }
    }
}

/// No group holds an `Empty` child or no child at all.
pub open spec fn is_clean<T>(t: Tree<T>) -> bool
    decreases t,
{
    match t {
        Tree::Node(_, c) => is_clean(*c),
        Tree::Group(ts) => ts.len() > 0 && forall|k: int|
            0 <= k < ts.len() ==> !(#[trigger] ts[k] is Empty) && is_clean(ts[k]),
        _ => true,
    }
}

proof fn lemma_cleaned_list_clean<T>(ts: Seq<Tree<T>>, i: int)
    requires
        0 <= i <= ts.len(),
        forall|k: int| 0 <= k < ts.len() ==> is_clean(cleaned(#[trigger] ts[k])),
    ensures
        forall|k: int|
            0 <= k < cleaned_list(ts, i).len() ==> !(#[trigger] cleaned_list(ts, i)[k] is Empty)
                && is_clean(cleaned_list(ts, i)[k]),
    decreases i,
{
    if i > 0 {
        lemma_cleaned_list_clean(ts, i - 1);
        assert(is_clean(cleaned(ts[i - 1])));
    }
}

pub proof fn lemma_cleaned_is_clean<T>(t: Tree<T>)
    ensures
        is_clean(cleaned(t)),
    decreases t,
{
    match t {
        Tree::Node(l, c) => {
            lemma_cleaned_is_clean(*c);
        },
        Tree::Group(ts) => {
            assert forall|k: int| 0 <= k < ts.len() implies is_clean(cleaned(#[trigger] ts[k])) by {
                lemma_cleaned_is_clean(ts[k]);
            }
            lemma_cleaned_list_clean(ts, ts.len() as int);
        },
        _ => {},
    }
}

proof fn lemma_cleaned_list_of_clean<T>(ts: Seq<Tree<T>>, i: int)
    requires
        0 <= i <= ts.len(),
        forall|k: int| 0 <= k < ts.len() ==> !(#[trigger] ts[k] is Empty) && cleaned(ts[k]) == ts[k],
    ensures
        cleaned_list(ts, i) == ts.take(i),
    decreases i,
{
    if i > 0 {
        lemma_cleaned_list_of_clean(ts, i - 1);
        assert(ts.take(i - 1).push(ts[i - 1]) =~= ts.take(i));
    } else {
        assert(ts.take(0) =~= Seq::<Tree<T>>::empty());
    }
}

pub proof fn lemma_clean_fixed<T>(t: Tree<T>)
    requires
        is_clean(t),
    ensures
        cleaned(t) == t,
    decreases t,
{
    match t {
        Tree::Node(l, c) => {
            lemma_clean_fixed(*c);
        },
        Tree::Group(ts) => {
            assert forall|k: int| 0 <= k < ts.len() implies !(#[trigger] ts[k] is Empty) && cleaned(ts[k]) == ts[k] by {
                lemma_clean_fixed(ts[k]);
            }
            lemma_cleaned_list_of_clean(ts, ts.len() as int);
            assert(ts.take(ts.len() as int) =~= ts);
        },
        _ => {},
    }
}

/// Cleaning a tree twice gives the same tree as cleaning it once.
pub proof fn lemma_clean_idempotent<T>(t: Tree<T>)
    ensures
        cleaned(cleaned(t)) == cleaned(t),
{
    lemma_cleaned_is_clean(t);
    lemma_clean_fixed(cleaned(t));
}

impl<'a, T: Identifier> NonTerminal<'a, T> {
    /// A cleaned copy of this tree.
    fn cleaned_copy(&self) -> (r: NonTerminal<'a, T>)
        ensures
            r@ == cleaned(self@),
        decreases self,
    {
        match self {
            NonTerminal::Node { identifier, children } => {
                let c = children.cleaned_copy();
                NonTerminal::Node { identifier: *identifier, children: Box::new(c) }
            },
            NonTerminal::Congregate(v) => {
                let ghost ts = trees_of(v@, v@.len() as int);
                proof {
                    lemma_trees_of(v@, v@.len() as int);
                }
                let mut out: Vec<NonTerminal<'a, T>> = Vec::new();
                let mut i: usize = 0;
                while i < v.len()
                    invariant
                        i <= v.len(),
                        (*self) is Congregate,
                        (*self)->Congregate_0 == *v,
                        ts == trees_of(v@, v@.len() as int),
                        ts.len() == v@.len(),
                        forall|k: int| 0 <= k < v@.len() ==> #[trigger] ts[k] == tree_of(v@[k]),
                        trees_of(out@, out@.len() as int) == cleaned_list(ts, i as int),
                    decreases v.len() - i,
                {
                    proof {
                        vstd::std_specs::vec::axiom_vec_index_decreases(*v, i as int);
                        assert(decreases_to!(*self => (*self)->Congregate_0));
                    }
                    let c = v[i].cleaned_copy();
                    let empty = match c {
                        NonTerminal::Empty => true,
                        _ => false,
                    };
                    if !empty {
                        let ghost before = out@;
                        out.push(c);
                        proof {
                            lemma_trees_of(before, before.len() as int);
                            lemma_trees_of(out@, out@.len() as int);
                            assert(trees_of(out@, out@.len() as int) =~= trees_of(
                                before,
                                before.len() as int,
                            ).push(tree_of(c)));
                        }
                    }
                    i = i + 1;
                }
                if out.len() == 0 {
                    NonTerminal::Empty
                } else {
                    NonTerminal::Congregate(out)
                }
            },
            NonTerminal::Leaf(s) => NonTerminal::Leaf(*s),
            NonTerminal::Empty => NonTerminal::Empty,
        }
    }

    /// Removes every `Empty` child of a group, recursively, and turns each
    /// group left without children into `Empty`.
    pub fn clean(self) -> (r: NonTerminal<'a, T>)
        ensures
            r@ == cleaned(self@),
    {
        self.cleaned_copy()
    }
}

} // verus!
