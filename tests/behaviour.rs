use pcomb::combinators::Observer;
use pcomb::cursor::StrState;
use pcomb::error::ErrorBacktrace;
use pcomb::parser::{Parser, END_OF_INPUT};
use pcomb::primitives::{pany, pchar, pexcept, pin, ppredicate, pstr};
use pcomb::tree::{Identifier, NonTerminal};
use std::cell::Cell;
use std::rc::Rc;

#[derive(PartialEq, Eq, Clone, Copy, Debug)]
enum Tag {
    Num,
    Op,
}
impl Identifier for Tag {}

fn leaves(n: &NonTerminal<'_, Tag>, out: &mut String) {
    match n {
        NonTerminal::Node { children, .. } => leaves(children, out),
        NonTerminal::Congregate(v) => {
            for c in v {
                leaves(c, out);
            }
        }
        NonTerminal::Leaf(s) => out.push_str(s),
        NonTerminal::Empty => {}
    }
}

#[test]
fn spans_reproduce_consumed_text() {
    let p = pchar::<Tag>('a')
        .seq(pstr("bc").label(Tag::Num))
        .seq(pin(['x', 'd']).multiple())
        .seq(pchar('e').maybe());
    let s = StrState::new("abcdxdz");
    let (n, end) = p.run(s).ok().unwrap();
    let mut text = String::new();
    leaves(&n, &mut text);
    assert_eq!(text, "abcdxd");
    assert_eq!(end.rest(), "z");
}

#[test]
fn ignore_drops_tree_but_consumes() {
    let p = pchar::<Tag>('a').ignore();
    let (n, end) = p.run(StrState::new("ab")).ok().unwrap();
    assert!(n == NonTerminal::Empty);
    assert_eq!(end.rest(), "b");
}

#[test]
fn failed_alternative_is_backtracked() {
    let alone = pstr::<Tag>("ab");
    let both = pstr::<Tag>("abd").or(pstr("ab"));
    let (n1, e1) = alone.run(StrState::new("abc")).ok().unwrap();
    let (n2, e2) = both.run(StrState::new("abc")).ok().unwrap();
    assert!(n1 == n2);
    assert_eq!(e1.rest(), e2.rest());
    assert_eq!(e2.rest(), "c");
}

#[test]
fn ordered_choice_prefers_first() {
    let p = pstr::<Tag>("a").or(pstr("ab"));
    let (n, end) = p.run(StrState::new("ab")).ok().unwrap();
    assert!(n == NonTerminal::Leaf("a"));
    assert_eq!(end.rest(), "b");
}

#[test]
fn exhausted_choice_names_itself() {
    let p = pchar::<Tag>('a').or(pchar('b'));
    let (e, at) = p.run(StrState::new("c")).err().unwrap();
    assert_eq!(
        e.expected.describe(),
        "Choice between\n- parse character 'a'\n- parse character 'b'"
    );
    assert!(e.msg.is_none());
    assert_eq!(at.rest(), "c");
}

#[test]
fn lookaheads_do_not_move() {
    let s = StrState::new("ab");
    let q = pchar::<Tag>('a').ensure();
    let (n, end) = q.run(s).ok().unwrap();
    assert!(n == NonTerminal::Empty);
    assert_eq!(end.rest(), "ab");
    let q = pchar::<Tag>('a').avoid();
    let (e, at) = q.run(s).err().unwrap();
    assert_eq!(e.expected.describe(), "parse character 'a'");
    assert_eq!(at.rest(), "ab");
    let q = pchar::<Tag>('b').avoid();
    let (n, end) = q.run(s).ok().unwrap();
    assert!(n == NonTerminal::Empty);
    assert_eq!(end.rest(), "ab");
    assert!(pchar::<Tag>('b').ensure().run(s).is_err());
}

#[test]
fn star_without_match_is_empty() {
    let q = pchar::<Tag>('a').multiple();
    let (n, end) = q.run(StrState::new("bb")).ok().unwrap();
    assert!(n == NonTerminal::Empty);
    assert_eq!(end.rest(), "bb");
}

#[test]
fn star_stops_on_zero_width_success() {
    let p = pchar::<Tag>('a').maybe().multiple();
    let (n, end) = p.run(StrState::new("aab")).ok().unwrap();
    assert!(n == NonTerminal::Congregate(vec![NonTerminal::Leaf("a"), NonTerminal::Leaf("a")]));
    assert_eq!(end.rest(), "b");
}

#[test]
fn plus_fails_with_first_failure() {
    let q = pchar::<Tag>('a').atleast_once();
    let (e, at) = q.run(StrState::new("b")).err().unwrap();
    assert_eq!(e.expected.describe(), "parse character 'a'");
    assert_eq!(at.rest(), "b");
}

#[test]
fn end_of_input_message() {
    let q = pchar::<Tag>('a');
    let (e, _) = q.run(StrState::new("")).err().unwrap();
    assert_eq!(e.msg, Some(END_OF_INPUT));
    assert_eq!(
        e.summary(),
        "[0:0]\tParsing error occured in string:\n\n^\nNote:\nAt end of input!"
    );
}

#[test]
fn message_is_added_once() {
    let q = pchar::<Tag>('a').msg("need a");
    let (e, _) = q.run(StrState::new("b")).err().unwrap();
    assert_eq!(e.msg, Some("need a"));
    let q = pchar::<Tag>('a').msg("need a");
    let (e, _) = q.run(StrState::new("")).err().unwrap();
    assert_eq!(e.msg, Some("At end of input!"));
    let q = pchar::<Tag>('a').msg("x").msg("y");
    let (e, _) = q.run(StrState::new("b")).err().unwrap();
    assert_eq!(e.msg, Some("x"));
    let q = pchar::<Tag>('a').msg("inner").seq(pany()).msg("outer");
    let (e, _) = q.run(StrState::new("b")).err().unwrap();
    assert_eq!(e.msg, Some("inner"));
}

#[test]
fn labels_build_backtrace() {
    let p = pchar::<Tag>('a').label(Tag::Num).seq(pany()).label(Tag::Op);
    let (e, _) = p.run(StrState::new("b")).err().unwrap();
    match &e.backtrace {
        ErrorBacktrace::Node { identifier, next } => {
            assert_eq!(*identifier, Tag::Op);
            match next.as_ref() {
                ErrorBacktrace::Node { identifier, .. } => assert_eq!(*identifier, Tag::Num),
                ErrorBacktrace::Empty => panic!("backtrace too short"),
            }
        }
        ErrorBacktrace::Empty => panic!("backtrace empty"),
    }
    assert_eq!(e.backtrace.info(), "Op\n⤷\tNum");
    assert_eq!(
        e.info(),
        "[0:0]\tParsing error occured in string:\nb\n^\nIn parser:\nparse character 'a'\nfollowing this backtrace:\nOp\n⤷\tNum"
    );
}

#[test]
fn relabel_replaces_label() {
    let p = pchar::<Tag>('a').label(Tag::Num).label(Tag::Op);
    let (n, _) = p.run(StrState::new("a")).ok().unwrap();
    assert!(
        n == NonTerminal::Node { identifier: Tag::Op, children: Box::new(NonTerminal::Leaf("a")) }
    );
}

#[test]
fn summary_marks_column() {
    let p = pstr::<Tag>("aaaaaaaaaaaa").seq(pchar('x'));
    let (e, _) = p.run(StrState::new("aaaaaaaaaaaabcd")).err().unwrap();
    assert_eq!(e.location, ("aaaaaaaaaaaabcd", 0, 12));
    assert_eq!(
        e.summary(),
        "[0:12]\tParsing error occured in string:\naaaaaaaaaaaabcd\n            ^~~\nNote:\nSee this error's info print for more information!"
    );
}

#[test]
fn location_counts_lines() {
    let p = pstr::<Tag>("ab\n").seq(pchar('x'));
    let (e, _) = p.run(StrState::new("ab\ncd\nef")).err().unwrap();
    assert_eq!(e.location, ("cd", 1, 0));
    let s = StrState::new("ab\ncd").advance(4);
    assert_eq!(s.line, 1);
    assert_eq!(s.column, 1);
    assert_eq!(s.line_of(), "cd");
    assert_eq!(s.rest(), "d");
}

#[test]
fn multibyte_characters() {
    let q = pchar::<Tag>('é');
    let (n, end) = q.run(StrState::new("éa")).ok().unwrap();
    assert!(n == NonTerminal::Leaf("é"));
    assert_eq!(end.rest(), "a");
    assert_eq!(end.column, 1);
    assert_eq!(end.head, 2);
    let q = pany::<Tag>();
    let (n, end) = q.run(StrState::new("ü")).ok().unwrap();
    assert!(n == NonTerminal::Leaf("ü"));
    assert!(end.is_empty());
    let q = pstr::<Tag>("日本");
    let (n, end) = q.run(StrState::new("日本語")).ok().unwrap();
    assert!(n == NonTerminal::Leaf("日本"));
    assert_eq!(end.rest(), "語");
    let q = pexcept::<2, Tag>(['a', 'b']);
    let (n, _) = q.run(StrState::new("ñ")).ok().unwrap();
    assert!(n == NonTerminal::Leaf("ñ"));
}

#[test]
fn set_matchers_reject() {
    assert!(pin::<2, Tag>(['a', 'b']).run(StrState::new("c")).is_err());
    assert!(pexcept::<2, Tag>(['a', 'b']).run(StrState::new("b")).is_err());
    let q = pin::<2, Tag>(['a', 'b']);
    let (e, _) = q.run(StrState::new("c")).err().unwrap();
    assert_eq!(e.expected.describe(), "parser any character part of a, b");
    assert!(e.msg.is_none());
}

#[test]
fn predicate_length_must_fit() {
    let p = ppredicate::<Tag, _>(|_: &str| (true, 10));
    assert!(p.run(StrState::new("ab")).is_err());
    let p = ppredicate::<Tag, _>(|_: &str| (true, 1));
    assert!(p.run(StrState::new("é")).is_err());
    let p = ppredicate::<Tag, _>(|s: &str| (s.starts_with("ab"), 2));
    let (n, end) = p.run(StrState::new("abc")).ok().unwrap();
    assert!(n == NonTerminal::Leaf("ab"));
    assert_eq!(end.rest(), "c");
}

#[test]
fn clean_drops_empty_children() {
    let t: NonTerminal<'_, Tag> = NonTerminal::Congregate(vec![
        NonTerminal::Empty,
        NonTerminal::Leaf("a"),
        NonTerminal::Congregate(vec![NonTerminal::Empty]),
        NonTerminal::Node { identifier: Tag::Num, children: Box::new(NonTerminal::Empty) },
    ]);
    let once = t.clean();
    let expected: NonTerminal<'_, Tag> = NonTerminal::Congregate(vec![
        NonTerminal::Leaf("a"),
        NonTerminal::Node { identifier: Tag::Num, children: Box::new(NonTerminal::Empty) },
    ]);
    assert!(once == expected);
    let twice = expected.clean();
    assert!(twice == once);
    let all_empty: NonTerminal<'_, Tag> = NonTerminal::Congregate(vec![NonTerminal::Empty]);
    assert!(all_empty.clean() == NonTerminal::Empty);
}

#[test]
fn descriptions() {
    assert_eq!(pchar::<Tag>('a').atleast_once().describe(), "parse character 'a' at least once");
    assert_eq!(pany::<Tag>().multiple().describe(), "parse any character as often as possible");
    assert_eq!(pstr::<Tag>("ab").maybe().describe(), "parse string 'ab' or nothing");
    assert_eq!(pexcept::<3, Tag>(['a', 'b', 'c']).describe(), "parse any character except for a, b, c");
    assert_eq!(
        pchar::<Tag>('a').seq(pchar('b')).catenate().describe(),
        "catenation of Sequence of\n- parse character 'a'\n- parse character 'b'"
    );
    assert_eq!(pchar::<Tag>('a').ensure().avoid().describe(), "Avoid Ensure parse character 'a'");
}

struct Counter {
    ok: Rc<Cell<usize>>,
    failed: Rc<Cell<usize>>,
}

impl Observer<Tag> for Counter {
    fn on_success(&self, _tree: &NonTerminal<'_, Tag>, _end: &StrState<'_>) {
        self.ok.set(self.ok.get() + 1);
    }

    fn on_failure(
        &self,
        _location: &(&str, usize, usize),
        expected: &str,
        _backtrace: &ErrorBacktrace<Tag>,
        _msg: Option<&'static str>,
        start: &StrState<'_>,
    ) {
        assert_eq!(expected, "parse character 'a'");
        assert_eq!(start.rest(), "b");
        self.failed.set(self.failed.get() + 1);
    }
}

#[test]
fn log_sees_outcomes_unchanged() {
    let ok = Rc::new(Cell::new(0));
    let failed = Rc::new(Cell::new(0));
    let p = pchar::<Tag>('a')
        .log(Box::new(Counter { ok: ok.clone(), failed: failed.clone() }))
        .multiple();
    let (n, end) = p.run(StrState::new("aab")).ok().unwrap();
    assert!(n == NonTerminal::Congregate(vec![NonTerminal::Leaf("a"), NonTerminal::Leaf("a")]));
    assert_eq!(end.rest(), "b");
    assert_eq!(ok.get(), 2);
    assert_eq!(failed.get(), 1);
}

#[test]
fn double_negation_is_lookahead() {
    let p = pchar::<Tag>('a').avoid().avoid();
    let (n, end) = p.run(StrState::new("ab")).ok().unwrap();
    assert!(n == NonTerminal::Empty);
    assert_eq!(end.rest(), "ab");
    assert!(p.run(StrState::new("b")).is_err());
}

#[test]
fn line_text_drops_carriage_return() {
    let s = StrState::new("a\r\nb");
    assert_eq!(s.line_of(), "a");
    let s = StrState::new("a\r\nb").advance(3);
    assert_eq!(s.line_of(), "b");
    assert_eq!(s.line, 1);
    let s = StrState::new("a\rb");
    assert_eq!(s.line_of(), "a\rb");
}

#[test]
fn predicate_description() {
    let p = ppredicate::<Tag, _>(|_: &str| (true, 1));
    assert_eq!(p.describe(), "parse accoding to predicate");
}
