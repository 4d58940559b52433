//! Unpacking single argument strings into flags and values.

use storm::opts::{Flag, FlagInner, Argument, NoValueError, Parser};

#[test]
fn flags() {
    let mut flag = Argument::new("-Syuu");
    assert_eq!(
        flag.next(),
        Some(FlagInner { kind: Flag::Short('S'), value: "yuu" })
    );
    assert_eq!(
        flag.next(),
        Some(FlagInner { kind: Flag::Short('y'), value: "uu" })
    );
    assert_eq!(
        flag.next(),
        Some(FlagInner { kind: Flag::Short('u'), value: "u" })
    );
    assert_eq!(
        flag.next(),
        Some(FlagInner { kind: Flag::Short('u'), value: "" })
    );
    assert_eq!(flag.next(), None);

    let mut flag = Argument::new("-W=foo");
    assert_eq!(
        flag.next(),
        Some(FlagInner { kind: Flag::Short('W'), value: "=foo" })
    );
    assert_eq!(flag.next(), None);

    let mut flag = Argument::new("--help");
    assert_eq!(
        flag.next(),
        Some(FlagInner { kind: Flag::Long("help"), value: "" })
    );
    assert_eq!(flag.next(), None);

    let mut flag = Argument::new("--help=foo");
    assert_eq!(
        flag.next(),
        Some(FlagInner { kind: Flag::Long("help"), value: "foo" })
    );
    assert_eq!(flag.next(), None);

    let mut flag = Argument::new("help");
    assert_eq!(
        flag.next(),
        Some(FlagInner { kind: Flag::Value, value: "help" })
    );
    assert_eq!(flag.next(), None);

    let mut flag = Argument::new("--");
    assert_eq!(
        flag.next(),
        Some(FlagInner { kind: Flag::Separator, value: "" })
    );
    assert_eq!(flag.next(), None);
}

#[test]
fn argument() {
    assert_eq!(
        Argument::new("-Wall").next().and_then(|arg| arg.value()),
        Some("all")
    );
    assert_eq!(Argument::new("-W").next().and_then(|arg| arg.value()), None);

    assert_eq!(
        Argument::new("-W=all").next().and_then(|arg| arg.value()),
        Some("all")
    );
    assert_eq!(
        Argument::new("-W=").next().and_then(|arg| arg.value()),
        None
    );

    assert_eq!(
        Argument::new("--foo=bar").next().and_then(|arg| arg.value()),
        Some("bar")
    );
    assert_eq!(
        Argument::new("--foo=").next().and_then(|arg| arg.value()),
        None
    );
}

#[test]
fn parser_walk() {
    let mut parser = Parser::new(vec!["ls", "-lsh", "foo"]);
    assert_eq!(parser.next(), Some(Flag::Value));
    assert_eq!(parser.next(), Some(Flag::Short('l')));
    assert_eq!(parser.next(), Some(Flag::Short('s')));
    assert_eq!(parser.next(), Some(Flag::Short('h')));
    assert_eq!(parser.value(), Ok("foo"));
    assert_eq!(parser.next(), None);

    let mut empty = Parser::new(vec![]);
    assert_eq!(empty.next(), None);
    assert_eq!(empty.value(), Err(NoValueError));
}
