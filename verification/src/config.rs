//! Configuration consumed by the dispatcher: the key binding table, the
//! log level, and the command-line flags that build both.

pub mod file;
pub mod file_parser;
pub mod logger;
pub mod key;
pub mod opts;

use vstd::prelude::*;
use key::{KeyAction, KeySequence, Parser as KeyParser};
use opts::{Argv, Flag, str_eq};

verus! {

broadcast use vstd::group_vstd_default;

/// How verbose log messages should be.
#[derive(Clone, Copy, Debug, PartialEq, Eq, Structural)]
pub enum LogLevel {
    /// Disable all log messages.
    Off,
    /// Only show error messages.
    Quiet,
    /// Show all log messages.
    Verbose,
}

/// The length, in key press units, of the longest sequence in the table.
pub open spec fn spec_max_binding_len(bs: Seq<(KeyAction, KeySequence)>) -> nat
    decreases bs.len(),
{
    if bs.len() == 0 {
        0
    } else {
        let rest = spec_max_binding_len(bs.drop_last());
        let cur = bs.last().1.atoms().len();
        if cur > rest {
            cur
        } else {
            rest
        }
    }
}

/// What the dispatcher is configured with.
pub struct Config {
    /// How verbose log messages should be.
    pub log_level: LogLevel,
    /// Where log messages go; stderr when unset.
    pub log_output: Option<String>,
    /// The binding table: pairs of an action and one sequence that
    /// triggers it, scanned in insertion order.
    pub key_bindings: Vec<(KeyAction, KeySequence)>,
    /// The action that newly added sequences will belong to.
    pub key_action: Option<KeyAction>,
    /// Set when the help flag was seen; the caller prints the help text.
    pub wants_help: bool,
    /// Set when the version flag was seen; the caller prints it.
    pub wants_version: bool,
}

impl Config {
    /// Every stored sequence keeps the merge invariant.
    pub open spec fn wf(self) -> bool {
        forall|i: int| 0 <= i < self.key_bindings@.len() ==> (#[trigger] self.key_bindings@[i]).1.wf()
    }

    /// An empty configuration: quiet logging to stderr, no bindings.
    pub fn new() -> (r: Config)
        ensures
            r.log_level == LogLevel::Quiet,
            r.log_output is None,
            r.key_bindings@ == Seq::<(KeyAction, KeySequence)>::empty(),
            r.key_action is None,
            !r.wants_help,
            !r.wants_version,
            r.wf(),
    {
        Config {
            log_level: LogLevel::Quiet,
            log_output: None,
            key_bindings: Vec::new(),
            key_action: None,
            wants_help: false,
            wants_version: false,
        }
    }

    /// Remove state that only steers later flag handling.
    pub fn clean_state(&mut self)
        ensures
            final(self).key_action is None,
            final(self).log_level == old(self).log_level,
            final(self).log_output == old(self).log_output,
            final(self).key_bindings == old(self).key_bindings,
            final(self).wants_help == old(self).wants_help,
            final(self).wants_version == old(self).wants_version,
    {
        self.key_action = None;
    }

    /// The length, in key press units, of the longest configured
    /// sequence; no stored buffer ever needs to grow past it.
    pub fn max_key_binding_len(&self) -> (r: usize)
        requires
            self.wf(),
        ensures
            r == spec_max_binding_len(self.key_bindings@),
    {
        let n = self.key_bindings.len();
        let mut max: usize = 0;
        let mut i: usize = 0;
        while i < n
            invariant
                i <= n,
                n == self.key_bindings@.len(),
                self.wf(),
                max == spec_max_binding_len(self.key_bindings@.take(i as int)),
            decreases n - i,
        {
            let cur = self.key_bindings[i].1.atom_len();
            proof {
                assert(self.key_bindings@.take(i + 1).drop_last() =~= self.key_bindings@.take(
                    i as int,
                ));
                assert(self.key_bindings@.take(i + 1).last() == self.key_bindings@[i as int]);
            }
            if cur > max {
                max = cur;
            }
            i += 1;
        }
        proof {
            assert(self.key_bindings@.take(n as int) =~= self.key_bindings@);
        }
        max
    }
}

impl LogLevel {
    /// How two levels compare: [LogLevel::Off] compares with nothing,
    /// the other levels by how much they show.
    pub open spec fn partial_cmp_spec_def(self, other: LogLevel) -> Option<core::cmp::Ordering> {
        match (self, other) {
            (LogLevel::Off, _) => None,
            (_, LogLevel::Off) => None,
            (LogLevel::Quiet, LogLevel::Quiet) => Some(core::cmp::Ordering::Equal),
            (LogLevel::Quiet, LogLevel::Verbose) => Some(core::cmp::Ordering::Less),
            (LogLevel::Verbose, LogLevel::Quiet) => Some(core::cmp::Ordering::Greater),
            (LogLevel::Verbose, LogLevel::Verbose) => Some(core::cmp::Ordering::Equal),
        }
    }

    /// Whether a message of weight `level` is printed under `self`:
    /// only when `self` shows at least as much, and never under
    /// [LogLevel::Off] (which also swallows messages of its own
    /// weight).
    pub fn should_log(&self, level: LogLevel) -> (r: bool)
        ensures
            r == (self.partial_cmp_spec_def(level) matches Some(o) && (o
                is Equal || o is Greater)),
    {
        *self >= level
    }
}

impl PartialOrd for LogLevel {
    fn partial_cmp(&self, other: &LogLevel) -> (r: Option<core::cmp::Ordering>) {
        match (self, other) {
            (LogLevel::Off, _) => None,
            (_, LogLevel::Off) => None,
            (LogLevel::Quiet, LogLevel::Quiet) => Some(core::cmp::Ordering::Equal),
            (LogLevel::Quiet, LogLevel::Verbose) => Some(core::cmp::Ordering::Less),
            (LogLevel::Verbose, LogLevel::Quiet) => Some(core::cmp::Ordering::Greater),
            (LogLevel::Verbose, LogLevel::Verbose) => Some(core::cmp::Ordering::Equal),
        }
    }
}

impl vstd::std_specs::cmp::PartialOrdSpecImpl for LogLevel {
    open spec fn obeys_partial_cmp_spec() -> bool {
        true
    }

    open spec fn partial_cmp_spec(&self, other: &LogLevel) -> Option<core::cmp::Ordering> {
        self.partial_cmp_spec_def(*other)
    }
}

/// Errors while turning raw platform argument pointers into strings.
#[derive(Clone, Copy, Debug, PartialEq, Eq, Structural)]
pub enum ApplyArgvError {
    /// A negative argument count.
    NegativeArgc,
    /// Argument `i` was a null pointer.
    NullArg(usize),
    /// The argument vector itself was a null pointer.
    NullArgv,
    /// The argument count did not fit.
    TryFromInt,
    /// Argument `i` held invalid utf8.
    Utf8(usize),
}

/// Errors while applying configuration flags.
#[derive(Debug)]
pub enum ApplyError {
    /// The source of arguments failed.
    ArgSource(String),
    /// Stop with success: help or version information was asked for.
    Exit,
    /// A log file could not be opened.
    FileOpen(String),
    /// A key sequence did not parse.
    KeyParser(key::ParserError),
    /// The named flag wants a value and none was there.
    MissingValue(String),
    /// An unknown log level name.
    UnknownLogLevel(String),
    /// An unknown flag.
    UnknownFlag(String),
    /// An unknown key action name.
    UnknownKeyAction(String),
    /// A key sequence came before any `key-action`.
    UnsetKeyAction,
}

/// The configuration flags the program understands.
#[derive(Clone, Copy, Debug, PartialEq, Eq, Structural)]
pub enum CliFlags {
    Help,
    Version,
    LogLevel,
    LogOutput,
    KeyAction,
    KeySequence,
}

/// What the short-flag table maps a character to.
pub open spec fn spec_short_flag_of(c: char) -> Option<CliFlags> {
    if c == 'h' {
        Some(CliFlags::Help)
    } else if c == 'v' {
        Some(CliFlags::Version)
    } else if c == 'l' {
        Some(CliFlags::LogLevel)
    } else if c == 'o' {
        Some(CliFlags::LogOutput)
    } else if c == 'k' {
        Some(CliFlags::KeyAction)
    } else if c == 'K' {
        Some(CliFlags::KeySequence)
    } else {
        None
    }
}

/// What the long-flag table maps a name to.
pub open spec fn spec_long_flag_of(t: Seq<char>) -> Option<CliFlags> {
    if t == "help"@ {
        Some(CliFlags::Help)
    } else if t == "version"@ {
        Some(CliFlags::Version)
    } else if t == "log-level"@ {
        Some(CliFlags::LogLevel)
    } else if t == "log-output"@ {
        Some(CliFlags::LogOutput)
    } else if t == "key-action"@ {
        Some(CliFlags::KeyAction)
    } else if t == "key-sequence"@ {
        Some(CliFlags::KeySequence)
    } else {
        None
    }
}

impl CliFlags {
    /// Every flag, in declaration order.
    pub fn variants() -> (r: Vec<CliFlags>)
        ensures
            r@ == seq![
                CliFlags::Help,
                CliFlags::Version,
                CliFlags::LogLevel,
                CliFlags::LogOutput,
                CliFlags::KeyAction,
                CliFlags::KeySequence,
            ],
    {
        let mut v: Vec<CliFlags> = Vec::new();
        v.push(CliFlags::Help);
        v.push(CliFlags::Version);
        v.push(CliFlags::LogLevel);
        v.push(CliFlags::LogOutput);
        v.push(CliFlags::KeyAction);
        v.push(CliFlags::KeySequence);
        proof {
            assert(v@ =~= seq![
                CliFlags::Help,
                CliFlags::Version,
                CliFlags::LogLevel,
                CliFlags::LogOutput,
                CliFlags::KeyAction,
                CliFlags::KeySequence,
            ]);
        }
        v
    }

    /// The single-character spelling of the flag.
    pub fn short_flag(&self) -> (r: char)
        ensures
            spec_short_flag_of(r) == Some(*self),
    {
        match self {
            CliFlags::Help => 'h',
            CliFlags::Version => 'v',
            CliFlags::LogLevel => 'l',
            CliFlags::LogOutput => 'o',
            CliFlags::KeyAction => 'k',
            CliFlags::KeySequence => 'K',
        }
    }

    /// The long spelling of the flag.
    pub fn long_flag(&self) -> (r: &'static str)
        ensures
            spec_long_flag_of(r@) == Some(*self),
    {
        let r = match self {
            CliFlags::Help => "help",
            CliFlags::Version => "version",
            CliFlags::LogLevel => "log-level",
            CliFlags::LogOutput => "log-output",
            CliFlags::KeyAction => "key-action",
            CliFlags::KeySequence => "key-sequence",
        };
        proof {
            reveal_strlit("help");
            reveal_strlit("version");
            reveal_strlit("log-level");
            reveal_strlit("log-output");
            reveal_strlit("key-action");
            reveal_strlit("key-sequence");
            assert("key-action"@ != "log-output"@) by {
                if "key-action"@ == "log-output"@ {
                    assert("key-action"@[0] == "log-output"@[0]);
                }
            }
            assert("version"@ != "help"@) by {
                if "version"@ == "help"@ {
                    assert(("version"@).len() == ("help"@).len());
                }
            }
            assert("log-level"@ != "help"@) by {
                if "log-level"@ == "help"@ {
                    assert(("log-level"@).len() == ("help"@).len());
                }
            }
            assert("log-level"@ != "version"@) by {
                if "log-level"@ == "version"@ {
                    assert(("log-level"@).len() == ("version"@).len());
                }
            }
            assert("log-output"@ != "help"@) by {
                if "log-output"@ == "help"@ {
                    assert(("log-output"@).len() == ("help"@).len());
                }
            }
            assert("log-output"@ != "version"@) by {
                if "log-output"@ == "version"@ {
                    assert(("log-output"@).len() == ("version"@).len());
                }
            }
            assert("log-output"@ != "log-level"@) by {
                if "log-output"@ == "log-level"@ {
                    assert(("log-output"@).len() == ("log-level"@).len());
                }
            }
            assert("key-action"@ != "help"@) by {
                if "key-action"@ == "help"@ {
                    assert(("key-action"@).len() == ("help"@).len());
                }
            }
            assert("key-action"@ != "version"@) by {
                if "key-action"@ == "version"@ {
                    assert(("key-action"@).len() == ("version"@).len());
                }
            }
            assert("key-action"@ != "log-level"@) by {
                if "key-action"@ == "log-level"@ {
                    assert(("key-action"@).len() == ("log-level"@).len());
                }
            }
            assert("key-sequence"@ != "help"@) by {
                if "key-sequence"@ == "help"@ {
                    assert(("key-sequence"@).len() == ("help"@).len());
                }
            }
            assert("key-sequence"@ != "version"@) by {
                if "key-sequence"@ == "version"@ {
                    assert(("key-sequence"@).len() == ("version"@).len());
                }
            }
            assert("key-sequence"@ != "log-level"@) by {
                if "key-sequence"@ == "log-level"@ {
                    assert(("key-sequence"@).len() == ("log-level"@).len());
                }
            }
            assert("key-sequence"@ != "log-output"@) by {
                if "key-sequence"@ == "log-output"@ {
                    assert(("key-sequence"@).len() == ("log-output"@).len());
                }
            }
            assert("key-sequence"@ != "key-action"@) by {
                if "key-sequence"@ == "key-action"@ {
                    assert(("key-sequence"@).len() == ("key-action"@).len());
                }
            }
            assert(spec_long_flag_of("help"@) == Some(CliFlags::Help));
            assert(spec_long_flag_of("version"@) == Some(CliFlags::Version));
            assert(spec_long_flag_of("log-level"@) == Some(CliFlags::LogLevel));
            assert(spec_long_flag_of("log-output"@) == Some(CliFlags::LogOutput));
            assert(spec_long_flag_of("key-action"@) == Some(CliFlags::KeyAction));
            assert(spec_long_flag_of("key-sequence"@) == Some(CliFlags::KeySequence));
        }
        r
    }

    /// Look a short flag up.
    pub fn short(c: char) -> (r: Option<CliFlags>)
        ensures
            r == spec_short_flag_of(c),
    {
        if c == 'h' {
            Some(CliFlags::Help)
        } else if c == 'v' {
            Some(CliFlags::Version)
        } else if c == 'l' {
            Some(CliFlags::LogLevel)
        } else if c == 'o' {
            Some(CliFlags::LogOutput)
        } else if c == 'k' {
            Some(CliFlags::KeyAction)
        } else if c == 'K' {
            Some(CliFlags::KeySequence)
        } else {
            None
        }
    }

    /// Look a long flag up.
    pub fn long(s: &str) -> (r: Option<CliFlags>)
        ensures
            r == spec_long_flag_of(s@),
    {
        if str_eq(s, "help") {
            Some(CliFlags::Help)
        } else if str_eq(s, "version") {
            Some(CliFlags::Version)
        } else if str_eq(s, "log-level") {
            Some(CliFlags::LogLevel)
        } else if str_eq(s, "log-output") {
            Some(CliFlags::LogOutput)
        } else if str_eq(s, "key-action") {
            Some(CliFlags::KeyAction)
        } else if str_eq(s, "key-sequence") {
            Some(CliFlags::KeySequence)
        } else {
            None
        }
    }

    /// Whether the flag takes a value.
    pub fn needs_value(&self) -> (r: bool)
        ensures
            r == !(*self == CliFlags::Help || *self == CliFlags::Version),
    {
        match self {
            CliFlags::Help => false,
            CliFlags::Version => false,
            _ => true,
        }
    }
}

} // verus!

verus! {

impl Config {
    /// Whether a parsed long or short flag resolves, and to what.
    pub open spec fn spec_flag_of(f: Flag) -> Option<CliFlags> {
        match f {
            Flag::Short(c) => spec_short_flag_of(c),
            Flag::Long(s) => spec_long_flag_of(s@),
        }
    }

    /// Apply the flags found in `args` one after the other, stopping at
    /// the first error.  Values are taken from the argument stream as
    /// each flag asks for one.
    pub fn apply_args(&mut self, args: Vec<&str>) -> (r: Result<(), ApplyError>)
        requires
            old(self).wf(),
        ensures
            final(self).wf(),
            final(self).key_bindings@.len() >= old(self).key_bindings@.len(),
            forall|i: int|
                0 <= i < old(self).key_bindings@.len() ==> #[trigger] final(self).key_bindings@[i]
                    == old(self).key_bindings@[i],
    {
        let mut parser = Argv::from(args);
        loop
            invariant
                self.wf(),
                self.key_bindings@.len() >= old(self).key_bindings@.len(),
                forall|i: int|
                    0 <= i < old(self).key_bindings@.len()
                        ==> #[trigger] self.key_bindings@[i] == old(self).key_bindings@[i],
            decreases (if parser.idx <= parser.args@.len() {
                parser.args@.len() - parser.idx
            } else {
                0int
            }), (match parser.last {
                Some(a) => a.next@.len() as int + 1,
                None => 0int,
            }),
        {
            let flag = parser.next();
            match flag {
                None => {
                    return Ok(());
                },
                Some(flag) => {
                    let cli_flag = match flag {
                        Flag::Short(c) => CliFlags::short(c),
                        Flag::Long(name) => CliFlags::long(name),
                    };
                    let cli_flag = match cli_flag {
                        Some(f) => f,
                        None => {
                            let name = match flag {
                                Flag::Short(c) => {
                                    let mut v: Vec<char> = Vec::new();
                                    v.push('-');
                                    v.push(c);
                                    crate::config::key::chars_string(&v)
                                },
                                Flag::Long(name) => {
                                    let mut s = String::from_str("--");
                                    s.append(name);
                                    s
                                },
                            };
                            return Err(ApplyError::UnknownFlag(name));
                        },
                    };
                    let value = if cli_flag.needs_value() {
                        parser.value()
                    } else {
                        None
                    };
                    let ghost pre = self.key_bindings@;
                    let applied = cli_flag.apply(self, value);
                    proof {
                        assert(self.key_bindings@.len() == pre.len() || (
                        self.key_bindings@.len() == pre.len() + 1
                            && self.key_bindings@.drop_last() == pre));
                        assert forall|i: int|
                            0 <= i < old(self).key_bindings@.len() implies #[trigger] self.key_bindings@[i]
                            == old(self).key_bindings@[i] by {
                            assert(pre[i] == old(self).key_bindings@[i]);
                            if self.key_bindings@.len() == pre.len() + 1 {
                                assert(self.key_bindings@[i] == self.key_bindings@.drop_last()[i]);
                            } else {
                                assert(self.key_bindings@ == pre);
                            }
                        }
                    }
                    match applied {
                        Ok(()) => {},
                        Err(e) => {
                            return Err(e);
                        },
                    }
                },
            }
        }
    }
}

impl CliFlags {
    /// Apply one flag to the configuration.  `value` is the value the
    /// argument stream offered, for the flags that take one.
    pub fn apply(&self, config: &mut Config, value: Option<&str>) -> (r: Result<(), ApplyError>)
        requires
            old(config).wf(),
        ensures
            final(config).wf(),
            *self == CliFlags::Help ==> (r matches Err(e) && e is Exit) && final(config).wants_help && final(config).key_bindings == old(config).key_bindings,
            *self == CliFlags::Version ==> (r matches Err(e) && e is Exit) && final(config).wants_version && final(config).key_bindings == old(config).key_bindings,
            !(*self == CliFlags::Help || *self == CliFlags::Version) && value is None && !(*self
                == CliFlags::KeySequence && old(config).key_action is None) ==> (r matches Err(e)
                && e is MissingValue) && *final(config) == *old(config),
            *self == CliFlags::LogLevel ==> (value matches Some(v) ==> {
                &&& (v@ == "none"@ ==> r is Ok && final(config).log_level == LogLevel::Off)
                &&& (v@ == "quiet"@ ==> r is Ok && final(config).log_level == LogLevel::Quiet)
                &&& (v@ == "verbose"@ ==> r is Ok && final(config).log_level
                    == LogLevel::Verbose)
                &&& (v@ != "none"@ && v@ != "quiet"@ && v@ != "verbose"@ ==> (r matches Err(e)
                    && e is UnknownLogLevel) && *final(config) == *old(config))
                &&& final(config).key_bindings == old(config).key_bindings
            }),
            *self == CliFlags::LogOutput ==> (value matches Some(v) ==> r is Ok && (final(config).log_output matches Some(p) && p@ == v@) && final(config).key_bindings == old(config).key_bindings),
            *self == CliFlags::KeyAction ==> (value matches Some(v) ==> {
                &&& (v@ == "quit"@ ==> r is Ok && final(config).key_action == Some(
                    key::KeyAction::Quit,
                ))
                &&& (v@ != "quit"@ ==> (r matches Err(e) && e is UnknownKeyAction) && *final(config) == *old(config))
                &&& final(config).key_bindings == old(config).key_bindings
            }),
            *self == CliFlags::KeySequence ==> (old(config).key_action is None ==> (
            r matches Err(e) && e is UnsetKeyAction) && *final(config) == *old(config)),
            *self == CliFlags::KeySequence ==> (value matches Some(v) ==> {
                &&& (old(config).key_action matches Some(action) ==> (match key::spec_parse_seq(
                    v@,
                ) {
                    Ok(p) => r is Ok && (p.0.len() == 0 ==> final(config).key_bindings == old(config).key_bindings) && (p.0.len() > 0 ==> final(config).key_bindings@.len() == old(config).key_bindings@.len() + 1 && final(config).key_bindings@.last().0 == action
                        && final(config).key_bindings@.last().1.atoms() == key::reps_atoms(p.0)
                        && final(config).key_bindings@.drop_last() == old(config).key_bindings@),
                    Err(_) => (r matches Err(e) && e is KeyParser) && *final(config) == *old(config),
                }))
            }),
    {
        proof {
            reveal_strlit("none");
            reveal_strlit("quiet");
            reveal_strlit("verbose");
            assert("none"@ != "quiet"@) by {
                if "none"@ == "quiet"@ {
                    assert(("none"@).len() == ("quiet"@).len());
                }
            }
            assert("none"@ != "verbose"@) by {
                if "none"@ == "verbose"@ {
                    assert(("none"@).len() == ("verbose"@).len());
                }
            }
            assert("quiet"@ != "verbose"@) by {
                if "quiet"@ == "verbose"@ {
                    assert(("quiet"@).len() == ("verbose"@).len());
                }
            }
        }
        match self {
            CliFlags::Help => {
                config.wants_help = true;
                Err(ApplyError::Exit)
            },
            CliFlags::Version => {
                config.wants_version = true;
                Err(ApplyError::Exit)
            },
            CliFlags::LogLevel => {
                let value = match value {
                    Some(v) => v,
                    None => {
                        return Err(ApplyError::MissingValue(String::from_str("log-level")));
                    },
                };
                if str_eq(value, "none") {
                    config.log_level = LogLevel::Off;
                    Ok(())
                } else if str_eq(value, "quiet") {
                    config.log_level = LogLevel::Quiet;
                    Ok(())
                } else if str_eq(value, "verbose") {
                    config.log_level = LogLevel::Verbose;
                    Ok(())
                } else {
                    Err(ApplyError::UnknownLogLevel(String::from_str(value)))
                }
            },
            CliFlags::LogOutput => {
                let value = match value {
                    Some(v) => v,
                    None => {
                        return Err(ApplyError::MissingValue(String::from_str("log-output")));
                    },
                };
                config.log_output = Some(String::from_str(value));
                Ok(())
            },
            CliFlags::KeyAction => {
                let value = match value {
                    Some(v) => v,
                    None => {
                        return Err(ApplyError::MissingValue(String::from_str("key-action")));
                    },
                };
                if str_eq(value, "quit") {
                    config.key_action = Some(key::KeyAction::Quit);
                    Ok(())
                } else {
                    Err(ApplyError::UnknownKeyAction(String::from_str(value)))
                }
            },
            CliFlags::KeySequence => {
                let action = match config.key_action {
                    Some(a) => a,
                    None => {
                        return Err(ApplyError::UnsetKeyAction);
                    },
                };
                let value = match value {
                    Some(v) => v,
                    None => {
                        return Err(ApplyError::MissingValue(String::from_str("key-sequence")));
                    },
                };
                match <KeySequence as KeyParser>::parse(value) {
                    None => Ok(()),
                    Some(Ok((key_sequence, _))) => {
                        config.key_bindings.push((action, key_sequence));
                        Ok(())
                    },
                    Some(Err(e)) => Err(ApplyError::KeyParser(e)),
                }
            },
        }
    }
}

} // verus!
