//! Structured parse errors: where a failure happened, which parser failed,
//! the labels it passed through and an optional message.
use crate::cursor::position_after;
use crate::cursor::line_bytes;
use crate::parser::{description, Recipe};
use crate::text::{debug_text, decimal, pointed, push_decimal, push_pointed, push_str};
use crate::tree::Identifier;
use vstd::prelude::*;
use vstd::string::*;

verus! {

/// The labels that a failure passed through, most specific first.
#[derive(Debug)]
pub enum ErrorBacktrace<T> {
    Node { identifier: T, next: Box<ErrorBacktrace<T>> },
    Empty,
}

pub open spec fn labels_of<T>(b: ErrorBacktrace<T>) -> Seq<T>
    decreases b,
{
    match b {
        ErrorBacktrace::Node { identifier, next } => seq![identifier] + labels_of(*next),
        ErrorBacktrace::Empty => Seq::empty(),
    }
}

impl<T> View for ErrorBacktrace<T> {
    type V = Seq<T>;

    open spec fn view(&self) -> Seq<T> {
        labels_of(*self)
    }
}

/// A failed run: the line text, line and column where it failed, the parser
/// that failed, the backtrace of labels and an optional message.
#[verifier::reject_recursive_types(T)]
pub struct ParseError<'a, T> {
    pub location: (&'a str, usize, usize),
    pub expected: &'a Recipe<T>,
    pub backtrace: ErrorBacktrace<T>,
    pub msg: Option<&'static str>,
}

/// The model of a failure: the byte offset where it happened, the parser
/// that failed, the labels it passed through and its message.
#[verifier::reject_recursive_types(T)]
pub struct Failure<T> {
    pub at: nat,
    pub expected: Recipe<T>,
    pub backtrace: Seq<T>,
    pub msg: Option<&'static str>,
}

impl<'a, T> ParseError<'a, T> {
    /// This error describes failure `f` in the text with bytes `b`.
    pub open spec fn describes(&self, f: Failure<T>, b: Seq<u8>) -> bool {
        &&& self.location.0.spec_bytes() == line_bytes(b, f.at as int)
        &&& (self.location.1 as nat, self.location.2 as nat) == position_after(
            b.subrange(0, f.at as int),
        )
        &&& *self.expected == f.expected
        &&& self.backtrace@ == f.backtrace
        &&& self.msg == f.msg
    }
}

/// `names` joined by a line break, an arrow and a tab.
pub open spec fn joined(names: Seq<Seq<char>>) -> Seq<char>
    decreases names.len(),
{
    if names.len() == 0 {
        Seq::empty()
    } else if names.len() == 1 {
        names[0]
    } else {
        names[0] + "\n⤷\t"@ + joined(names.drop_first())
    }
}

/// The header of both renderings of an error at `line`, `column`, with
/// line text `text`.
pub open spec fn header(text: Seq<char>, line: nat, column: nat) -> Seq<char> {
    "["@ + decimal(line) + ":"@ + decimal(column) + "]\tParsing error occured in string:\n"@
        + pointed(text, column)
}

impl<T> ErrorBacktrace<T> {
    /// The labels, most specific first, one per line.
    pub fn info(&self) -> (r: String) where T: std::fmt::Debug
        ensures
            exists|names: Seq<Seq<char>>| names.len() == self@.len() && r@ == joined(names),
        decreases self,
    {
        match self {
            ErrorBacktrace::Node { identifier, next } => {
                let mut s = debug_text(identifier);
                let ghost first = s@;
                match &**next {
                    ErrorBacktrace::Empty => {
                        proof {
                            let names = seq![first];
                            assert(**next == ErrorBacktrace::<T>::Empty);
                            assert(labels_of(**next) =~= Seq::<T>::empty());
                            assert(names.len() == self@.len() && s@ == joined(names));
                        }
                        s
                    },
                    _ => {
                        let rest = next.info();
                        let ghost more = choose|n: Seq<Seq<char>>|
                            n.len() == next@.len() && rest@ == joined(n);
                        push_str(&mut s, "\n⤷\t");
                        push_str(&mut s, rest.as_str());
                        proof {
                            let names = seq![first] + more;
                            assert(names.drop_first() =~= more);
                            assert(more.len() > 0);
                            assert(names.len() == self@.len() && s@ == joined(names));
                        }
                        s
                    },
                }
            },
            ErrorBacktrace::Empty => {
                let s = String::new();
                proof {
                    let names = Seq::<Seq<char>>::empty();
                    assert(names.len() == self@.len() && s@ == joined(names));
                }
                s
            },
        }
    }
}

impl<'a, T: Identifier> ParseError<'a, T> {
    fn push_header(&self, out: &mut String)
        ensures
            final(out)@ == old(out)@ + header(
                self.location.0@,
                self.location.1 as nat,
                self.location.2 as nat,
            ),
    {
        let ghost start = out@;
        push_str(out, "[");
        push_decimal(out, self.location.1);
        push_str(out, ":");
        push_decimal(out, self.location.2);
        push_str(out, "]\tParsing error occured in string:\n");
        push_pointed(out, self.location.0, self.location.2);
        proof {
            assert(out@ =~= start + header(
                self.location.0@,
                self.location.1 as nat,
                self.location.2 as nat,
            ));
        }
    }

    /// The short rendering: the failing line with a marker under the
    /// column, and the message when there is one.
    pub fn summary(&self) -> (r: String)
        ensures
            r@ == header(self.location.0@, self.location.1 as nat, self.location.2 as nat) + match self.msg {
                Some(m) => "\nNote:\n"@ + m@,
                None => "\nNote:\nSee this error's info print for more information!"@,
            },
    {
        let mut out = String::new();
        self.push_header(&mut out);
        match self.msg {
            Some(m) => {
                push_str(&mut out, "\nNote:\n");
                push_str(&mut out, m);
            },
            None => push_str(&mut out, "\nNote:\nSee this error's info print for more information!"),
        }
        proof {
            assert(out@ =~= header(self.location.0@, self.location.1 as nat, self.location.2 as nat) + match self.msg {
                Some(m) => "\nNote:\n"@ + m@,
                None => "\nNote:\nSee this error's info print for more information!"@,
            });
        }
        out
    }

    /// The verbose rendering: the short header, the failing parser and the
    /// backtrace of labels, most specific first.
    pub fn info(&self) -> (r: String) where T: std::fmt::Debug
        ensures
            exists|names: Seq<Seq<char>>|
                names.len() == self.backtrace@.len() && r@ == header(
                    self.location.0@,
                    self.location.1 as nat,
                    self.location.2 as nat,
                ) + "\nIn parser:\n"@ + description(*self.expected) + "\nfollowing this backtrace:\n"@
                    + joined(names),
    {
        let mut out = String::new();
        self.push_header(&mut out);
        push_str(&mut out, "\nIn parser:\n");
        let d = self.expected.describe();
        push_str(&mut out, d.as_str());
        push_str(&mut out, "\nfollowing this backtrace:\n");
        let b = self.backtrace.info();
        let ghost names = choose|n: Seq<Seq<char>>| n.len() == self.backtrace@.len() && b@ == joined(n);
        push_str(&mut out, b.as_str());
        proof {
            assert(out@ =~= header(
                self.location.0@,
                self.location.1 as nat,
                self.location.2 as nat,
            ) + "\nIn parser:\n"@ + description(*self.expected) + "\nfollowing this backtrace:\n"@
                + joined(names));
        }
        out
    }
}

} // verus!
