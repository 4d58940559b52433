//! Argument parsing: each argument string is unpacked into flags, a
//! whole argument vector into a flag stream with attached values.

use vstd::prelude::*;
use vstd::string::StrSliceExecFns;

use crate::config::opts::{find_eq, lemma_find_eq, lemma_find_eq_at, str_eq};

verus! {

broadcast use vstd::group_vstd_default;

/// A flag found in an argument: the `--` separator, a plain value, a
/// one-letter flag, or a named flag.
#[derive(Clone, Copy, Debug)]
pub enum Flag<'arg> {
    Separator,
    Value,
    Short(char),
    Long(&'arg str),
}

impl<'arg> PartialEq for Flag<'arg> {
    fn eq(&self, other: &Flag<'arg>) -> (r: bool) {
        match (self, other) {
            (Flag::Separator, Flag::Separator) => true,
            (Flag::Value, Flag::Value) => true,
            (Flag::Short(a), Flag::Short(b)) => *a == *b,
            (Flag::Long(a), Flag::Long(b)) => str_eq(a, b),
            _ => false,
        }
    }
}

impl<'arg> vstd::std_specs::cmp::PartialEqSpecImpl for Flag<'arg> {
    open spec fn obeys_eq_spec() -> bool {
        true
    }

    open spec fn eq_spec(&self, other: &Flag<'arg>) -> bool {
        match (*self, *other) {
            (Flag::Separator, Flag::Separator) => true,
            (Flag::Value, Flag::Value) => true,
            (Flag::Short(a), Flag::Short(b)) => a == b,
            (Flag::Long(a), Flag::Long(b)) => a@ == b@,
            _ => false,
        }
    }
}

/// The private representation of flags with extra metadata: the flag
/// and what of the argument hangs off it as a possible value.
#[derive(Clone, Copy, Debug)]
pub struct FlagInner<'arg> {
    pub kind: Flag<'arg>,
    pub value: &'arg str,
}

impl<'arg> PartialEq for FlagInner<'arg> {
    fn eq(&self, other: &FlagInner<'arg>) -> (r: bool) {
        self.kind == other.kind && str_eq(self.value, other.value)
    }
}

impl<'arg> vstd::std_specs::cmp::PartialEqSpecImpl for FlagInner<'arg> {
    open spec fn obeys_eq_spec() -> bool {
        true
    }

    open spec fn eq_spec(&self, other: &FlagInner<'arg>) -> bool {
        (match (self.kind, other.kind) {
            (Flag::Separator, Flag::Separator) => true,
            (Flag::Value, Flag::Value) => true,
            (Flag::Short(a), Flag::Short(b)) => a == b,
            (Flag::Long(a), Flag::Long(b)) => a@ == b@,
            _ => false,
        }) && self.value@ == other.value@
    }
}

impl<'arg> FlagInner<'arg> {
    /// Unpack the head of one argument string: `--` alone is the
    /// separator; `--name[=value]` a named flag; `-c...` a one-letter
    /// flag with the rest attached; anything else a plain value.  The
    /// second part returned is what of the argument remains to walk.
    pub fn new(arg: &'arg str) -> (r: (FlagInner<'arg>, &'arg str))
        ensures
            ({
                let t = arg@;
                &&& (t.len() == 2 && t[0] == '-' && t[1] == '-' ==> (r.0.kind is Separator
                    && r.0.value@.len() == 0 && r.1@.len() == 0))
                &&& (t.len() > 2 && t[0] == '-' && t[1] == '-' ==> ((match find_eq(t.skip(2)) {
                    Some(k) => r.0.kind matches Flag::Long(name) && name@ == t.skip(2).take(k)
                        && r.0.value@ == t.skip(2).skip(k + 1),
                    None => r.0.kind matches Flag::Long(name) && name@ == t.skip(2)
                        && r.0.value@.len() == 0,
                }) && r.1@ == t.skip(2)))
                &&& (t.len() >= 2 && t[0] == '-' && t[1] != '-' ==> (r.0.kind matches Flag::Short(
                    c,
                ) && c == t[1] && r.0.value@ == t.skip(2) && r.1@ == t.skip(2)))
                &&& (t.len() < 2 || t[0] != '-' ==> (r.0.kind is Value && r.0.value@ == t && r.1@
                    == t))
            }),
    {
        let n = arg.unicode_len();
        if n < 2 || arg.get_char(0) != '-' {
            return (FlagInner { kind: Flag::Value, value: arg }, arg);
        }
        if arg.get_char(1) != '-' {
            // a short flag and its attached tail
            let c = arg.get_char(1);
            let rest = arg.substring_char(2, n);
            proof {
                assert(rest@ =~= arg@.skip(2));
            }
            return (FlagInner { kind: Flag::Short(c), value: rest }, rest);
        }
        if n == 2 {
            let empty = arg.substring_char(2, 2);
            proof {
                assert(empty@ =~= Seq::<char>::empty());
            }
            return (FlagInner { kind: Flag::Separator, value: empty }, empty);
        }
        // a long flag: the name runs to `=`, the value behind it
        let next = arg.substring_char(2, n);
        proof {
            assert(next@ =~= arg@.skip(2));
        }
        let m = n - 2;
        let mut i: usize = 0;
        while i < m && next.get_char(i) != '='
            invariant
                i <= m,
                m == next@.len(),
                forall|j: int| 0 <= j < i ==> next@[j] != '=',
            decreases m - i,
        {
            i += 1;
        }
        if i < m {
            proof {
                lemma_find_eq_at(next@, i as int);
            }
            let identifier = next.substring_char(0, i);
            let value = next.substring_char(i + 1, m);
            proof {
                assert(identifier@ =~= next@.take(i as int));
                assert(value@ =~= next@.skip(i + 1));
            }
            (FlagInner { kind: Flag::Long(identifier), value }, next)
        } else {
            proof {
                lemma_find_eq(next@);
                if find_eq(next@) is Some {
                    let k = find_eq(next@)->Some_0;
                    assert(next@[k] != '=');
                }
            }
            let empty = next.substring_char(m, m);
            proof {
                assert(empty@ =~= Seq::<char>::empty());
            }
            (FlagInner { kind: Flag::Long(next), value: empty }, next)
        }
    }

    /// The value hanging off the flag, behind an optional `=`; empty
    /// values and the separator yield nothing.
    pub fn value(&self) -> (r: Option<&'arg str>)
        ensures
            self.kind is Separator ==> r is None,
            (self.kind is Value || self.kind is Long) ==> (if self.value@.len() == 0 {
                r is None
            } else {
                r matches Some(v) && v@ == self.value@
            }),
            self.kind is Short ==> ({
                let t = self.value@;
                let cut = if t.len() > 0 && t[0] == '=' {
                    1int
                } else {
                    0int
                };
                if t.skip(cut).len() == 0 {
                    r is None
                } else {
                    r matches Some(v) && v@ == t.skip(cut)
                }
            }),
    {
        let candidate: Option<&'arg str> = match self.kind {
            Flag::Separator => None,
            Flag::Value | Flag::Long(_) => Some(self.value),
            Flag::Short(_) => {
                let n = self.value.unicode_len();
                if n > 0 && self.value.get_char(0) == '=' {
                    let v = self.value.substring_char(1, n);
                    proof {
                        assert(v@ =~= self.value@.skip(1));
                    }
                    Some(v)
                } else {
                    proof {
                        assert(self.value@.skip(0) =~= self.value@);
                    }
                    Some(self.value)
                }
            },
        };
        match candidate {
            Some(v) => {
                if v.unicode_len() == 0 {
                    None
                } else {
                    Some(v)
                }
            },
            None => None,
        }
    }
}


/// A flag at specification level; payloads are character runs (one
/// character for a short flag).
#[verifier::ext_equal]
pub ghost enum FlagRep {
    SepR,
    ValR,
    ShortR(Seq<char>),
    LongR(Seq<char>),
}

/// The specification-level view of a flag.
pub open spec fn flag_rep(f: Flag) -> FlagRep {
    match f {
        Flag::Separator => FlagRep::SepR,
        Flag::Value => FlagRep::ValR,
        Flag::Short(c) => FlagRep::ShortR(seq![c]),
        Flag::Long(s) => FlagRep::LongR(s@),
    }
}

/// The specification-level view of a flag with its attached text.
pub open spec fn inner_rep(f: FlagInner) -> (FlagRep, Seq<char>) {
    (flag_rep(f.kind), f.value@)
}

/// What [FlagInner::new] yields on a text: the unpacked flag and what
/// remains of the argument.
pub open spec fn spec_flag_inner_new(t: Seq<char>) -> ((FlagRep, Seq<char>), Seq<char>) {
    if t.len() == 2 && t[0] == '-' && t[1] == '-' {
        ((FlagRep::SepR, Seq::empty()), Seq::empty())
    } else if t.len() > 2 && t[0] == '-' && t[1] == '-' {
        match crate::config::opts::find_eq(t.skip(2)) {
            Some(k) => ((FlagRep::LongR(t.skip(2).take(k)), t.skip(2).skip(k + 1)), t.skip(2)),
            None => ((FlagRep::LongR(t.skip(2)), Seq::empty()), t.skip(2)),
        }
    } else if t.len() >= 2 && t[0] == '-' {
        ((FlagRep::ShortR(seq![t[1]]), t.skip(2)), t.skip(2))
    } else {
        ((FlagRep::ValR, t), t)
    }
}

/// What one [Argument::next] step yields and leaves behind; the state
/// is the last unpacked flag and the text still to walk.
pub open spec fn spec_argument_next(st: (Option<(FlagRep, Seq<char>)>, Seq<char>)) -> (
    Option<(FlagRep, Seq<char>)>,
    (Option<(FlagRep, Seq<char>)>, Seq<char>),
) {
    let t = st.1;
    if t.len() == 0 {
        (None, st)
    } else {
        match st.0 {
            Some(last) => match last.0 {
                FlagRep::SepR | FlagRep::LongR(_) | FlagRep::ValR => (None, st),
                FlagRep::ShortR(_) => if t[0] == '=' {
                    (None, st)
                } else {
                    let f = (FlagRep::ShortR(seq![t[0]]), t.skip(1));
                    (Some(f), (Some(f), t.skip(1)))
                },
            },
            None => {
                let p = spec_flag_inner_new(t);
                (Some(p.0), (Some(p.0), p.1))
            },
        }
    }
}

/// The specification-level view of a whole [Argument].
pub open spec fn argument_rep(a: Argument) -> (Option<(FlagRep, Seq<char>)>, Seq<char>) {
    (
        match a.last {
            Some(f) => Some(inner_rep(f)),
            None => None,
        },
        a.text@,
    )
}

/// What [Parser::advance] yields and leaves behind: the first flag of
/// the next argument that has one, arguments without flags skipped.
pub open spec fn spec_advance(args: Seq<&str>, pos: int) -> (
    Option<(FlagRep, Seq<char>)>,
    (int, Option<(Option<(FlagRep, Seq<char>)>, Seq<char>)>),
)
    decreases (if 0 <= pos <= args.len() {
        args.len() - pos
    } else {
        0int
    }),
{
    if pos < 0 || pos >= args.len() {
        (None, (pos, None))
    } else {
        let step = spec_argument_next((None, args[pos]@));
        match step.0 {
            Some(f) => (Some(f), (pos + 1, Some(step.1))),
            None => spec_advance(args, pos + 1),
        }
    }
}

/// The value hanging off an unpacked flag, as [FlagInner::value]
/// hands it out.
pub open spec fn spec_inner_value(fi: (FlagRep, Seq<char>)) -> Option<Seq<char>> {
    match fi.0 {
        FlagRep::SepR => None,
        FlagRep::ValR | FlagRep::LongR(_) => if fi.1.len() == 0 {
            None
        } else {
            Some(fi.1)
        },
        FlagRep::ShortR(_) => {
            let cut = if fi.1.len() > 0 && fi.1[0] == '=' {
                1int
            } else {
                0int
            };
            if fi.1.skip(cut).len() == 0 {
                None
            } else {
                Some(fi.1.skip(cut))
            }
        },
    }
}

/// A single string in argv, walked flag by flag.
///
/// The shell command 'ls -l -s -h' contains the flags 'ls', '-l', '-s'
/// and '-h'.
#[derive(Clone, Copy, Debug)]
pub struct Argument<'arg> {
    pub last: Option<FlagInner<'arg>>,
    pub text: &'arg str,
}

impl<'arg> Argument<'arg> {
    pub fn new(text: &'arg str) -> (r: Argument<'arg>)
        ensures
            r.last is None,
            r.text@ == text@,
    {
        Argument { last: None, text }
    }

    /// The next flag packed into the argument: the first via
    /// [FlagInner::new], then one letter at a time while the argument
    /// is a run of short flags; a separator, named flag or plain value
    /// ends the walk after itself.
    pub fn next(&mut self) -> (r: Option<FlagInner<'arg>>)
        ensures
            final(self).text@.len() <= old(self).text@.len(),
            old(self).text@.len() == 0 ==> r is None && *final(self) == *old(self),
            r is Some ==> final(self).last == r && (old(self).last is Some
                ==> final(self).text@.len() < old(self).text@.len()),
            r is None ==> *final(self) == *old(self),
            old(self).text@.len() > 0 ==> (match old(self).last {
                Some(inner) => (match inner.kind {
                    Flag::Separator | Flag::Long(_) | Flag::Value => r is None,
                    Flag::Short(_) => {
                        let t = old(self).text@;
                        if t[0] == '=' {
                            r is None
                        } else {
                            r matches Some(f) && f.kind matches Flag::Short(c) && c == t[0]
                                && f.value@ == t.skip(1) && final(self).text@ == t.skip(1)
                        }
                    },
                }),
                None => (r matches Some(f) && Some(f) == final(self).last && ({
                    let t = old(self).text@;
                    &&& (t.len() == 2 && t[0] == '-' && t[1] == '-' ==> f.kind is Separator
                        && f.value@.len() == 0 && final(self).text@.len() == 0)
                    &&& (t.len() > 2 && t[0] == '-' && t[1] == '-' ==> (f.kind matches Flag::Long(
                        name,
                    ) && (match find_eq(t.skip(2)) {
                        Some(k) => name@ == t.skip(2).take(k) && f.value@ == t.skip(2).skip(k + 1),
                        None => name@ == t.skip(2) && f.value@.len() == 0,
                    }) && final(self).text@ == t.skip(2)))
                    &&& (t.len() >= 2 && t[0] == '-' && t[1] != '-' ==> (f.kind matches Flag::Short(
                        c,
                    ) && c == t[1] && f.value@ == t.skip(2) && final(self).text@ == t.skip(2)))
                    &&& (t.len() < 2 || t[0] != '-' ==> f.kind is Value && f.value@ == t
                        && final(self).text@ == t)
                })),
            }),
    {
        let n = self.text.unicode_len();
        if n == 0 {
            return None;
        }
        match self.last {
            Some(inner) => {
                match inner.kind {
                    Flag::Separator | Flag::Long(_) | Flag::Value => None,
                    Flag::Short(_) => {
                        let c = self.text.get_char(0);
                        if c == '=' {
                            return None;
                        }
                        let rest = self.text.substring_char(1, n);
                        proof {
                            assert(rest@ =~= self.text@.skip(1));
                        }
                        self.text = rest;
                        let flag = FlagInner { kind: Flag::Short(c), value: rest };
                        self.last = Some(flag);
                        Some(flag)
                    },
                }
            },
            None => {
                let (arg, next) = FlagInner::new(self.text);
                proof {
                    if self.text@.len() >= 2 && self.text@[0] == '-' && self.text@[1] == '-' {
                        assert(next@.len() <= self.text@.len());
                    }
                }
                self.last = Some(arg);
                self.text = next;
                Some(arg)
            },
        }
    }
}

/// There was no value to hand out.
#[derive(Clone, Copy, Debug, PartialEq, Eq, Structural)]
pub struct NoValueError;

/// Parser for arguments: walks a whole argument vector flag by flag.
#[derive(Debug)]
pub struct Parser<'arg> {
    pub argv: Vec<&'arg str>,
    pub pos: usize,
    pub arg: Option<Argument<'arg>>,
}

impl<'arg> Parser<'arg> {
    pub fn new(argv: Vec<&'arg str>) -> (r: Parser<'arg>)
        ensures
            r.argv == argv,
            r.pos == 0,
            r.arg is None,
    {
        Parser { argv, pos: 0, arg: None }
    }

    /// Step to the first flag of the next argument that has one, as
    /// [spec_advance] says.
    fn advance(&mut self) -> (r: Option<FlagInner<'arg>>)
        ensures
            final(self).argv == old(self).argv,
            ({
                let out = spec_advance(old(self).argv@, old(self).pos as int);
                match out.0 {
                    Some(f) => (r matches Some(fi) && inner_rep(fi) == f) && final(self).pos
                        == out.1.0 && (final(self).arg matches Some(a) && Some(argument_rep(a))
                        == out.1.1),
                    None => r is None,
                }
            }),
    {
        loop
            invariant
                self.argv == old(self).argv,
                self.pos >= old(self).pos,
                self.pos > old(self).pos ==> self.pos <= self.argv@.len(),
                spec_advance(old(self).argv@, old(self).pos as int) == spec_advance(
                    self.argv@,
                    self.pos as int,
                ),
            decreases (if self.pos <= self.argv@.len() {
                self.argv@.len() - self.pos
            } else {
                0int
            }),
        {
            if self.pos >= self.argv.len() {
                return None;
            }
            let ghost p = self.pos as int;
            let mut argument = Argument::new(self.argv[self.pos]);
            self.pos = self.pos + 1;
            let ghost st0 = argument_rep(argument);
            let step = argument.next();
            proof {
                assert(st0 == (
                    None::<(FlagRep, Seq<char>)>,
                    old(self).argv@[p]@,
                ));
                match step {
                    Some(f) => {
                        if f.value@.len() == 0 {
                            assert(f.value@ =~= Seq::<char>::empty());
                        }
                        if argument.text@.len() == 0 {
                            assert(argument.text@ =~= Seq::<char>::empty());
                        }
                        match f.kind {
                            Flag::Long(name) => {
                                let t = st0.1;
                                assert(t.len() > 2 && t[0] == '-' && t[1] == '-');
                                match find_eq(t.skip(2)) {
                                    Some(k) => {
                                        assert(name@ == t.skip(2).take(k));
                                        assert(f.value@ == t.skip(2).skip(k + 1));
                                        assert(flag_rep(f.kind) == FlagRep::LongR(
                                            t.skip(2).take(k),
                                        ));
                                    },
                                    None => {
                                        assert(name@ == t.skip(2));
                                        assert(f.value@ =~= Seq::<char>::empty());
                                    },
                                }
                                assert(argument.text@ == t.skip(2));
                            },
                            _ => {},
                        }
                        assert(spec_argument_next(st0).0->0 =~~= inner_rep(f));
                        assert(spec_argument_next(st0).0 == Some(inner_rep(f)));
                        assert(spec_argument_next(st0).1 =~~= argument_rep(argument));
                        assert(spec_argument_next(st0).1 == argument_rep(argument));
                    },
                    None => {
                        assert(spec_argument_next(st0).0 is None);
                    },
                }
            }
            match step {
                Some(flag) => {
                    self.arg = Some(argument);
                    return Some(flag);
                },
                None => {
                    self.arg = Some(argument);
                },
            }
        }
    }

    /// The next flag across the whole vector: the current argument's
    /// next flag, else the first flag [spec_advance] finds.
    pub fn next(&mut self) -> (r: Option<Flag<'arg>>)
        ensures
            final(self).argv == old(self).argv,
            ({
                let stepped = match old(self).arg {
                    Some(a) => spec_argument_next(argument_rep(a)).0,
                    None => None,
                };
                match stepped {
                    Some(f) => (r matches Some(g) && flag_rep(g) == f.0) && final(self).pos
                        == old(self).pos,
                    None => (match spec_advance(old(self).argv@, old(self).pos as int).0 {
                        Some(f) => r matches Some(g) && flag_rep(g) == f.0,
                        None => r is None,
                    }),
                }
            }),
    {
        let ghost st0 = match self.arg {
            Some(a) => Some(argument_rep(a)),
            None => None,
        };
        let step = match &mut self.arg {
            Some(argument) => {
                let mut a = *argument;
                let f = a.next();
                *argument = a;
                f
            },
            None => None,
        };
        proof {
            match step {
                Some(f) => {
                    if f.value@.len() == 0 {
                        assert(f.value@ =~= Seq::<char>::empty());
                    }
                    assert(spec_argument_next(st0->0).0 == Some(inner_rep(f)));
                },
                None => {
                    if st0 is Some {
                        assert(spec_argument_next(st0->0).0 is None);
                    }
                },
            }
        }
        match step {
            Some(flag) => Some(flag.kind),
            None => match self.advance() {
                Some(flag) => Some(flag.kind),
                None => None,
            },
        }
    }

    /// Get a value if it exists: what hangs off the last flag, else
    /// the next argument [spec_advance] finds, when that argument is
    /// a plain value.
    pub fn value(&mut self) -> (r: Result<&'arg str, NoValueError>)
        ensures
            final(self).argv == old(self).argv,
            ({
                let attached = match old(self).arg {
                    Some(a) => match a.last {
                        Some(fi) => spec_inner_value(inner_rep(fi)),
                        None => None,
                    },
                    None => None,
                };
                match attached {
                    Some(v) => (r matches Ok(w) && w@ == v) && *final(self) == *old(self),
                    None => (match spec_advance(old(self).argv@, old(self).pos as int).0 {
                        Some(f) => ((f.0 is ValR ==> (r matches Ok(w) && w@ == f.1)) && (!(f.0
                            is ValR) ==> r matches Err(e))),
                        None => r matches Err(e),
                    }),
                }
            }),
    {
        let attached = match &self.arg {
            Some(argument) => match &argument.last {
                Some(flag) => flag.value(),
                None => None,
            },
            None => None,
        };
        match attached {
            Some(v) => Ok(v),
            None => match self.advance() {
                Some(flag) => match flag.kind {
                    Flag::Value => Ok(flag.value),
                    _ => Err(NoValueError),
                },
                None => Err(NoValueError),
            },
        }
    }
}

} // verus!
