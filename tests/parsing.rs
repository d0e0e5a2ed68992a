use pcomb::cursor::StrState;
use pcomb::parser::{Parser, Recipe};
use pcomb::primitives::{pany, pchar, pexcept, pin, ppredicate, pstr};
use pcomb::tree::{Identifier, NonTerminal};

#[derive(PartialEq, Eq, Clone, Copy, Debug)]
struct I;
impl Identifier for I {}

#[derive(PartialEq, Eq, Clone, Copy, Debug)]
enum Tag {
    Num,
    Op,
    Add,
    Sub,
}
impl Identifier for Tag {}

fn letter_set() -> Recipe<I> {
    ppredicate::<I, _>(|c: &str| (['f', 'u', 'c', 'k'].contains(&c.chars().nth(0).unwrap()), 1))
}

#[test]
fn pchar_passes() {
    let p = pchar::<I>('c');
    let s = StrState::new("c");
    if let Ok((r, s)) = p.run(s) {
        assert!(s.is_empty());
        assert!(r == NonTerminal::<I>::Leaf("c"));
    } else {
        panic!("Parser failed!");
    }
}

#[test]
fn pstr_passes() {
    let p = pstr::<I>("damn");
    let s = StrState::new("damn huh");
    if let Ok((r, s)) = p.run(s) {
        assert!(s.rest() == " huh");
        assert!(r == NonTerminal::<I>::Leaf("damn"));
    } else {
        panic!("Parser failed!");
    }
}

#[test]
fn ppred_passes() {
    let p = letter_set();
    let s = StrState::new("cukf k");
    if let Ok((r, s)) = p.run(s) {
        assert!(s.rest() == "ukf k", "s.rest() was: {}\n", s.rest());
        assert!(r == NonTerminal::<I>::Leaf("c"));
    } else {
        panic!("Parser failed!");
    }
}

#[test]
fn pany_passes() {
    let p = pany::<I>();
    let s = StrState::new("cukf k");
    if let Ok((r, s)) = p.run(s) {
        assert!(s.rest() == "ukf k", "s.rest() was: {}\n", s.rest());
        assert!(r == NonTerminal::<I>::Leaf("c"));
    } else {
        panic!("Parser failed!");
    }
}

#[test]
fn star_passes() {
    let p = letter_set().multiple();
    let s = StrState::new("cukf k");
    if let Ok((r, s)) = p.run(s) {
        assert!(s.rest() == " k", "s.rest() was: {}\n", s.rest());
        assert!(
            r == NonTerminal::<I>::Congregate(vec![
                NonTerminal::<I>::Leaf("c"),
                NonTerminal::<I>::Leaf("u"),
                NonTerminal::<I>::Leaf("k"),
                NonTerminal::<I>::Leaf("f"),
            ]),
            "r was: {:?}",
            r
        );
    } else {
        panic!("Parser failed!");
    }
}

#[test]
fn plus_passes() {
    let p = letter_set().atleast_once();
    let s = StrState::new("cukf k");
    if let Ok((r, s)) = p.run(s) {
        assert!(s.rest() == " k", "s.rest() was: {}\n", s.rest());
        assert!(
            r == NonTerminal::<I>::Congregate(vec![
                NonTerminal::<I>::Leaf("c"),
                NonTerminal::<I>::Leaf("u"),
                NonTerminal::<I>::Leaf("k"),
                NonTerminal::<I>::Leaf("f"),
            ]),
            "r was: {:?}",
            r
        );
    } else {
        panic!("Parser failed!");
    }
}

#[test]
fn maybe_passes() {
    let p = pchar::<I>('c').maybe();
    let s = StrState::new("c");
    if let Ok((r, s)) = p.run(s) {
        assert!(s.is_empty());
        assert!(r == NonTerminal::<I>::Leaf("c"));
    } else {
        panic!("Parser failed!");
    }
}

#[test]
fn seq_passes() {
    let p = pchar::<I>('d')
        .seq(pchar::<I>('a'))
        .seq(pchar::<I>('m'))
        .seq(pchar::<I>('n'));
    let s = StrState::new("damn");
    if let Ok((r, s)) = p.run(s) {
        assert!(s.is_empty());
        assert!(
            r == NonTerminal::<I>::Congregate(vec![
                NonTerminal::<I>::Leaf("d"),
                NonTerminal::<I>::Leaf("a"),
                NonTerminal::<I>::Leaf("m"),
                NonTerminal::<I>::Leaf("n"),
            ])
        );
    } else {
        panic!("Error: {}", p.run(s).err().unwrap().0.info());
    }
}

#[test]
fn choice_passes() {
    let p = pchar::<I>('d')
        .or(pchar::<I>('a'))
        .or(pchar::<I>('m'))
        .or(pchar::<I>('n'));
    let s = StrState::new("damn");
    if let Ok((r, s)) = p.run(s) {
        assert!(s.rest() == "amn");
        assert!(r == NonTerminal::<I>::Leaf("d"),);
    } else {
        panic!("Parser failed!");
    }
}

#[test]
fn cat_passes() {
    let p = pchar::<I>('d')
        .seq(pchar::<I>('a'))
        .seq(pchar::<I>('m'))
        .seq(pchar::<I>('n'))
        .catenate();
    let s = StrState::new("damn");
    if let Ok((r, s)) = p.run(s) {
        assert!(s.is_empty());
        assert!(r == NonTerminal::<I>::Leaf("damn"));
    } else {
        panic!("Parser failed!");
    }
}

#[test]
fn pexcept_passes() {
    let p = pexcept::<4, I>(['a', 'b', 'd', 'e']);
    let s = StrState::new("c");
    if let Ok((r, s)) = p.run(s) {
        assert!(s.is_empty());
        assert!(r == NonTerminal::<I>::Leaf("c"));
    } else {
        panic!("Parser failed!");
    }
}

#[test]
fn pin_passes() {
    let p = pin::<4, I>(['a', 'b', 'c', 'd']);
    let s = StrState::new("c");
    if let Ok((r, s)) = p.run(s) {
        assert!(s.is_empty());
        assert!(r == NonTerminal::<I>::Leaf("c"));
    } else {
        panic!("Parser failed!");
    }
}

#[test]
fn combination_passes() {
    let p = pin(['1', '2', '3', '4', '5', '6', '7', '8', '9', '0'])
        .atleast_once()
        .catenate()
        .label(Tag::Num)
        .seq(pin([' ', '\n', '\t']))
        .seq(
            pchar('+')
                .label(Tag::Add)
                .or(pchar('-').label(Tag::Sub))
                .label(Tag::Op),
        )
        .seq(pin([' ', '\n', '\t']).multiple())
        .seq(
            pin(['1', '2', '3', '4', '5', '6', '7', '8', '9', '0'])
                .atleast_once()
                .catenate()
                .label(Tag::Num),
        );
    let s = StrState::new("69 +   420");
    match p.run(s) {
        Ok((_, s)) => assert!(s.is_empty()),
        Err((e, _)) => panic!("Parser Failed\n[Error]:\n{}", e.info()),
    }
}
