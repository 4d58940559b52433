//! Configuration flags: lookup tables, flag walking, application.

use storm::config::key::KeyAction;
use storm::config::opts::{Arg, ArgError, Argv, Flag, FlagKind};
use storm::config::{ApplyError, CliFlags, Config, LogLevel};
use storm::path_cache::{PathCache, PathOrigin};
use storm::{NAME, VERSION};

#[test]
fn flags_exist() {
    // every flag is reachable through the lookup tables
    for flag in CliFlags::variants() {
        assert_eq!(CliFlags::short(flag.short_flag()), Some(flag));
        assert_eq!(CliFlags::long(flag.long_flag()), Some(flag));
    }
}

#[test]
fn version_sync() {
    assert_eq!(VERSION, "0.1.0");
    assert_eq!(NAME, "storm");
}

#[test]
fn cli_flags_serde() {
    for flag in CliFlags::variants() {
        let short = flag.short_flag();
        let long = flag.long_flag();
        assert_eq!(CliFlags::short(short), Some(flag));
        assert_eq!(CliFlags::long(long), Some(flag));
    }
    assert_eq!(CliFlags::short('z'), None);
    assert_eq!(CliFlags::long("nope"), None);
}

#[test]
fn flag_inner_init() {
    let mut arg = Arg::from("--foo=bar");
    assert_eq!(arg.next(), Some(Ok(Flag::Long("foo"))));
    assert_eq!(
        arg,
        Arg { last_flag_kind: Some(FlagKind::Long), next: "=bar" }
    );

    let mut arg = Arg::from("-foo=bar");
    assert_eq!(arg.next(), Some(Ok(Flag::Short('f'))));
    assert_eq!(
        arg,
        Arg { last_flag_kind: Some(FlagKind::Short), next: "oo=bar" }
    );

    assert_eq!(Arg::from("").next(), None);
    assert_eq!(Arg::from("--").next(), Some(Err(ArgError::Separator)));
    assert_eq!(Arg::from("-").next(), Some(Err(ArgError::Value)));
    assert_eq!(Arg::from("foo bar").next(), Some(Err(ArgError::Value)));
}

#[test]
fn flag_inner_collect() {
    let cases: &[(&str, &[Flag])] = &[
        (
            "-foobar",
            &[
                Flag::Short('f'),
                Flag::Short('o'),
                Flag::Short('o'),
                Flag::Short('b'),
                Flag::Short('a'),
                Flag::Short('r'),
            ],
        ),
        (
            "-foo=bar",
            &[Flag::Short('f'), Flag::Short('o'), Flag::Short('o')],
        ),
        ("--foo=bar", &[Flag::Long("foo")]),
        ("--foo", &[Flag::Long("foo")]),
    ];
    for (input, expected) in cases {
        let mut arg = Arg::from(input);
        let mut got = Vec::new();
        while let Some(step) = arg.next() {
            match step {
                Ok(flag) => got.push(flag),
                Err(_) => break,
            }
        }
        assert_eq!(got.len(), expected.len());
        for (g, e) in got.iter().zip(expected.iter()) {
            assert_eq!(g, e);
        }
    }
}

#[test]
fn flag_inner_values() {
    let cases: &[(&str, usize, &str)] = &[
        ("--foo=bar", 1, "bar"),
        ("-Wall", 1, "all"),
        ("-W=all", 1, "all"),
        ("-Syuu=foo", 4, "foo"),
    ];
    for (input, nth, value) in cases {
        let mut arg = Arg::from(input);
        for _ in 0..*nth {
            let _ = arg.next();
        }
        assert_eq!(arg.value(), Some(*value));
    }
}

#[test]
fn argv_collect() {
    let cases: &[(&[&str], &[Flag])] = &[
        (
            &["--foo", "-lsh"],
            &[
                Flag::Long("foo"),
                Flag::Short('l'),
                Flag::Short('s'),
                Flag::Short('h'),
            ],
        ),
        (
            &["--foo", "-Syuu", "--", "-Wall"],
            &[
                Flag::Long("foo"),
                Flag::Short('S'),
                Flag::Short('y'),
                Flag::Short('u'),
                Flag::Short('u'),
            ],
        ),
    ];
    for (argv, expected) in cases {
        let mut walker = Argv::from(argv.to_vec());
        for e in *expected {
            assert_eq!(walker.next().as_ref(), Some(e));
        }
        assert!(walker.next().is_none());
    }
}

#[test]
fn argv_value() {
    // a separate argument supplies the value
    let mut argv = Argv::from(vec!["--foo", "bar", "-lsh"]);
    let _ = argv.next();
    assert_eq!(argv.value(), Some("bar"));
    for e in [Flag::Short('l'), Flag::Short('s'), Flag::Short('h')] {
        assert_eq!(argv.next(), Some(e));
    }
    // a `=` value on the flag itself
    let mut argv = Argv::from(vec!["--foo=bar", "-lsh"]);
    let _ = argv.next();
    assert_eq!(argv.value(), Some("bar"));
    // the tail of a short-flag argument
    let mut argv = Argv::from(vec!["--foo=bar", "-lsh"]);
    let _ = argv.next();
    let _ = argv.next();
    assert_eq!(argv.value(), Some("sh"));
    assert!(argv.next().is_none());
}

#[test]
fn apply_args_builds_bindings() {
    let mut config = Config::new();
    let r = config.apply_args(vec!["-k", "quit", "-KC-q", "--log-level=verbose"]);
    assert!(r.is_ok());
    assert!(matches!(config.log_level, LogLevel::Verbose));
    assert_eq!(config.key_bindings.len(), 1);
    assert!(matches!(config.key_bindings[0].0, KeyAction::Quit));
    assert_eq!(config.key_bindings[0].1.atom_len(), 1);
    config.clean_state();
    assert!(config.key_action.is_none());
}

#[test]
fn apply_args_errors() {
    let mut config = Config::new();
    assert!(matches!(
        config.apply_args(vec!["--nope"]),
        Err(ApplyError::UnknownFlag(_))
    ));
    assert!(matches!(
        config.apply_args(vec!["--log-level=loud"]),
        Err(ApplyError::UnknownLogLevel(_))
    ));
    assert!(matches!(
        config.apply_args(vec!["--key-action=dance"]),
        Err(ApplyError::UnknownKeyAction(_))
    ));
    assert!(matches!(
        config.apply_args(vec!["-Kq"]),
        Err(ApplyError::UnsetKeyAction)
    ));
    assert!(matches!(
        config.apply_args(vec!["--log-level"]),
        Err(ApplyError::MissingValue(_))
    ));
    assert!(matches!(
        config.apply_args(vec!["-k", "quit", "-K", "ab\\"]),
        Err(ApplyError::KeyParser(_))
    ));
    let mut config = Config::new();
    assert!(matches!(config.apply_args(vec!["--help"]), Err(ApplyError::Exit)));
    assert!(config.wants_help);
    let mut config = Config::new();
    assert!(matches!(config.apply_args(vec!["--version"]), Err(ApplyError::Exit)));
    assert!(config.wants_version);
}

#[test]
fn log_levels() {
    assert!(!LogLevel::Off.should_log(LogLevel::Quiet));
    assert!(!LogLevel::Off.should_log(LogLevel::Verbose));
    assert!(!LogLevel::Off.should_log(LogLevel::Off));
    assert!(LogLevel::Quiet.should_log(LogLevel::Quiet));
    assert!(!LogLevel::Quiet.should_log(LogLevel::Verbose));
    assert!(LogLevel::Verbose.should_log(LogLevel::Quiet));
    assert!(LogLevel::Verbose.should_log(LogLevel::Verbose));
    assert!(!LogLevel::Verbose.should_log(LogLevel::Off));
}

#[test]
fn path_cache_preference() {
    let cache = PathCache::new(Some(String::from("/etc/default.txt")));
    let (path, origin) = cache.get_config(&Some(String::from("/home/own.txt"))).unwrap();
    assert_eq!(path, "/home/own.txt");
    assert!(matches!(origin, PathOrigin::Config));
    let (path, origin) = cache.get_config(&None).unwrap();
    assert_eq!(path, "/etc/default.txt");
    assert!(matches!(origin, PathOrigin::Default));
    let empty = PathCache::new(None);
    assert!(empty.get_config(&None).is_none());
}
