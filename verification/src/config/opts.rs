//! Flag-by-flag walking of command-line arguments: one [Arg] yields the
//! flags packed into a single argument string, [Argv] chains a whole
//! argument vector and hands out flag values.

use vstd::prelude::*;
use vstd::string::StrSliceExecFns;

verus! {

broadcast use vstd::group_vstd_default;

/// A flag found in an argument.
#[derive(Clone, Copy, Debug)]
pub enum Flag<'a> {
    /// Arguments that start with `--`.
    Long(&'a str),
    /// Arguments that start with `-`.
    Short(char),
}

/// [Flag] without its contents.
#[derive(Clone, Copy, Debug, PartialEq, Eq, Structural)]
pub enum FlagKind {
    Long,
    Short,
}

/// What ends a walk over one argument: the `--` separator, or a plain
/// value that is no flag at all.
#[derive(Clone, Copy, Debug, PartialEq, Eq, Structural)]
pub enum ArgError {
    Separator,
    Value,
}

/// Whether two strings hold the same characters.
pub fn str_eq(a: &str, b: &str) -> (r: bool)
    ensures
        r == (a@ == b@),
{
    let n = a.unicode_len();
    if n != b.unicode_len() {
        proof {
            assert(a@.len() != b@.len());
        }
        return false;
    }
    let mut i: usize = 0;
    while i < n
        invariant
            i <= n,
            n == a@.len(),
            n == b@.len(),
            forall|j: int| 0 <= j < i ==> a@[j] == b@[j],
        decreases n - i,
    {
        if a.get_char(i) != b.get_char(i) {
            proof {
                if a@ == b@ {
                    assert(a@[i as int] == b@[i as int]);
                }
            }
            return false;
        }
        i += 1;
    }
    proof {
        assert(a@ =~= b@);
    }
    true
}

impl<'a> PartialEq for Flag<'a> {
    fn eq(&self, other: &Flag<'a>) -> (r: bool) {
        match (self, other) {
            (Flag::Long(a), Flag::Long(b)) => str_eq(a, b),
            (Flag::Short(a), Flag::Short(b)) => *a == *b,
            _ => false,
        }
    }
}

impl<'a> vstd::std_specs::cmp::PartialEqSpecImpl for Flag<'a> {
    open spec fn obeys_eq_spec() -> bool {
        true
    }

    open spec fn eq_spec(&self, other: &Flag<'a>) -> bool {
        match (*self, *other) {
            (Flag::Long(a), Flag::Long(b)) => a@ == b@,
            (Flag::Short(a), Flag::Short(b)) => a == b,
            _ => false,
        }
    }
}

/// The least index of `=` in the input, if any.
pub open spec fn find_eq(s: Seq<char>) -> Option<int>
    decreases s.len(),
{
    if s.len() == 0 {
        None
    } else if s[0] == '=' {
        Some(0)
    } else {
        match find_eq(s.drop_first()) {
            Some(i) => Some(i + 1),
            None => None,
        }
    }
}

/// Where [find_eq] points: the first `=` of the input.
pub proof fn lemma_find_eq(s: Seq<char>)
    ensures
        match find_eq(s) {
            Some(i) => 0 <= i < s.len() && s[i] == '=' && (forall|j: int|
                0 <= j < i ==> s[j] != '='),
            None => forall|j: int| 0 <= j < s.len() ==> s[j] != '=',
        },
    decreases s.len(),
{
    if s.len() > 0 && s[0] != '=' {
        lemma_find_eq(s.drop_first());
        match find_eq(s.drop_first()) {
            Some(i) => {
                assert(s[i + 1] == s.drop_first()[i]);
                assert forall|j: int| 0 <= j < i + 1 implies s[j] != '=' by {
                    if j >= 1 {
                        assert(s.drop_first()[j - 1] != '=');
                    }
                }
            },
            None => {
                assert forall|j: int| 0 <= j < s.len() implies s[j] != '=' by {
                    if j >= 1 {
                        assert(s.drop_first()[j - 1] != '=');
                    }
                }
            },
        }
    }
}

/// A first `=` at `i` pins [find_eq] down.
pub proof fn lemma_find_eq_at(s: Seq<char>, i: int)
    requires
        0 <= i < s.len(),
        s[i] == '=',
        forall|j: int| 0 <= j < i ==> s[j] != '=',
    ensures
        find_eq(s) == Some(i),
{
    lemma_find_eq(s);
    match find_eq(s) {
        Some(k) => {
            if k < i {
                assert(s[k] == '=');
            } else if k > i {
                assert(s[i] != '=');
            }
        },
        None => {
            assert(s[i] != '=');
        },
    }
}

/// One argument string, walked flag by flag.
#[derive(Clone, Copy, Debug)]
pub struct Arg<'a> {
    pub last_flag_kind: Option<FlagKind>,
    pub next: &'a str,
}

impl<'a> PartialEq for Arg<'a> {
    fn eq(&self, other: &Arg<'a>) -> (r: bool) {
        let kinds = match (self.last_flag_kind, other.last_flag_kind) {
            (Some(a), Some(b)) => a == b,
            (None, None) => true,
            _ => false,
        };
        kinds && str_eq(self.next, other.next)
    }
}

impl<'a> vstd::std_specs::cmp::PartialEqSpecImpl for Arg<'a> {
    open spec fn obeys_eq_spec() -> bool {
        true
    }

    open spec fn eq_spec(&self, other: &Arg<'a>) -> bool {
        self.last_flag_kind == other.last_flag_kind && self.next@ == other.next@
    }
}

impl<'a> Arg<'a> {
    /// Start a walk over one argument string.
    pub fn from(s: &'a str) -> (r: Arg<'a>)
        ensures
            r.last_flag_kind is None,
            r.next@ == s@,
    {
        Arg { last_flag_kind: None, next: s }
    }

    /// The value attached to the last flag: the rest of the argument,
    /// behind an optional `=`; `None` when no flag was read yet or
    /// nothing is left.
    pub fn value(self) -> (r: Option<&'a str>)
        ensures
            self.last_flag_kind is None ==> r is None,
            self.last_flag_kind is Some && self.next@.len() == 0 ==> r is None,
            self.last_flag_kind is Some && self.next@.len() > 0 && self.next@[0] == '='
                ==> (r matches Some(v) && v@ == self.next@.skip(1)),
            self.last_flag_kind is Some && self.next@.len() > 0 && self.next@[0] != '='
                ==> (r matches Some(v) && v@ == self.next@),
    {
        if self.last_flag_kind.is_none() {
            return None;
        }
        let n = self.next.unicode_len();
        if n == 0 {
            return None;
        }
        if self.next.get_char(0) == '=' {
            let v = self.next.substring_char(1, n);
            proof {
                assert(v@ =~= self.next@.skip(1));
            }
            Some(v)
        } else {
            Some(self.next)
        }
    }

    /// The next flag packed into this argument: short flags letter by
    /// letter, a long flag up to `=`; `--` alone reports the separator
    /// and a plain value reports [ArgError::Value].
    pub fn next(&mut self) -> (r: Option<Result<Flag<'a>, ArgError>>)
        ensures
            old(self).last_flag_kind == Some(FlagKind::Long) ==> r is None && *final(self) == *old(
                self,
            ),
            old(self).last_flag_kind == Some(FlagKind::Short) ==> {
                let t = old(self).next@;
                &&& (t.len() == 0 ==> r is None && *final(self) == *old(self))
                &&& (t.len() > 0 && t[0] == '=' ==> r is None && *final(self) == *old(self))
                &&& (t.len() > 0 && t[0] != '=' ==> (r matches Some(f) && f matches Ok(g)
                    && g matches Flag::Short(c) && c == t[0] && final(self).next@ == t.skip(1)
                    && final(self).last_flag_kind == Some(FlagKind::Short)))
            },
            old(self).last_flag_kind is None ==> {
                let t = old(self).next@;
                &&& (t.len() == 0 ==> r is None && *final(self) == *old(self))
                &&& (t.len() == 2 && t[0] == '-' && t[1] == '-' ==> r == Some(
                    Err::<Flag<'a>, ArgError>(ArgError::Separator),
                ) && *final(self) == *old(self))
                &&& (t.len() > 2 && t[0] == '-' && t[1] == '-' ==> (r matches Some(f)
                    && f matches Ok(g) && g matches Flag::Long(name)
                    && final(self).last_flag_kind == Some(FlagKind::Long)
                    && (match find_eq(t.skip(2)) {
                        Some(k) => name@ == t.skip(2).take(k)
                            && final(self).next@ == t.skip(2).skip(k),
                        None => name@ == t.skip(2) && final(self).next@.len() == 0,
                    })))
                &&& (t.len() >= 2 && t[0] == '-' && t[1] != '-' ==> (r matches Some(f)
                    && f matches Ok(g) && g matches Flag::Short(c) && c == t[1]
                    && final(self).next@ == t.skip(2)
                    && final(self).last_flag_kind == Some(FlagKind::Short)))
                &&& (t.len() == 1 ==> r == Some(Err::<Flag<'a>, ArgError>(ArgError::Value))
                    && *final(self) == *old(self))
                &&& (t.len() > 0 && t[0] != '-' ==> r == Some(
                    Err::<Flag<'a>, ArgError>(ArgError::Value),
                ) && *final(self) == *old(self))
            },
    {
        match self.last_flag_kind {
            Some(FlagKind::Long) => None,
            Some(FlagKind::Short) => {
                let n = self.next.unicode_len();
                if n == 0 {
                    return None;
                }
                let c = self.next.get_char(0);
                if c == '=' {
                    return None;
                }
                let rest = self.next.substring_char(1, n);
                proof {
                    assert(rest@ =~= self.next@.skip(1));
                }
                self.next = rest;
                Some(Ok(Flag::Short(c)))
            },
            None => {
                let n = self.next.unicode_len();
                if n == 0 {
                    return None;
                }
                let c0 = self.next.get_char(0);
                if c0 != '-' {
                    return Some(Err(ArgError::Value));
                }
                if n == 1 {
                    return Some(Err(ArgError::Value));
                }
                let c1 = self.next.get_char(1);
                if c1 == '-' {
                    if n == 2 {
                        return Some(Err(ArgError::Separator));
                    }
                    // long flag: up to `=` if there is one
                    let ghost t = self.next@;
                    let whole = self.next;
                    let mut i: usize = 2;
                    while i < n && whole.get_char(i) != '='
                        invariant
                            2 <= i <= n,
                            n == whole@.len(),
                            forall|j: int| 2 <= j < i ==> whole@[j] != '=',
                        decreases n - i,
                    {
                        i += 1;
                    }
                    let name = whole.substring_char(2, i);
                    let rest = whole.substring_char(i, n);
                    proof {
                        assert(name@ =~= whole@.skip(2).take(i - 2));
                        assert(rest@ =~= whole@.skip(2).skip(i - 2));
                        assert forall|j: int| 0 <= j < i - 2 implies whole@.skip(2)[j] != '=' by {
                            assert(whole@.skip(2)[j] == whole@[j + 2]);
                        }
                        if i < n {
                            assert(whole@.skip(2)[i - 2] == whole@[i as int]);
                            lemma_find_eq_at(whole@.skip(2), i - 2);
                        } else {
                            lemma_find_eq(whole@.skip(2));
                            if find_eq(whole@.skip(2)) is Some {
                                let k = find_eq(whole@.skip(2))->Some_0;
                                assert(whole@.skip(2)[k] != '=');
                            }
                            assert(name@ =~= whole@.skip(2));
                        }
                    }
                    self.next = rest;
                    self.last_flag_kind = Some(FlagKind::Long);
                    Some(Ok(Flag::Long(name)))
                } else {
                    let rest = self.next.substring_char(2, n);
                    proof {
                        assert(rest@ =~= self.next@.skip(2));
                    }
                    self.next = rest;
                    self.last_flag_kind = Some(FlagKind::Short);
                    Some(Ok(Flag::Short(c1)))
                }
            },
        }
    }
}


/// The state of a walk inside one argument, at specification level:
/// the kind of the last flag and the text still to walk.
pub open spec fn arg_rep(a: Arg) -> (Option<FlagKind>, Seq<char>) {
    (a.last_flag_kind, a.next@)
}

/// A flag at specification level: whether it is long, and its payload
/// (the name of a long flag, the one character of a short one).
pub open spec fn flag_rep(f: Flag) -> (bool, Seq<char>) {
    match f {
        Flag::Long(s) => (true, s@),
        Flag::Short(c) => (false, seq![c]),
    }
}

/// What one [Arg::next] step yields and leaves behind.
pub open spec fn spec_arg_step(st: (Option<FlagKind>, Seq<char>)) -> (
    Option<Result<(bool, Seq<char>), ArgError>>,
    (Option<FlagKind>, Seq<char>),
) {
    let t = st.1;
    match st.0 {
        Some(FlagKind::Long) => (None, st),
        Some(FlagKind::Short) => if t.len() == 0 || t[0] == '=' {
            (None, st)
        } else {
            (Some(Ok((false, seq![t[0]]))), (Some(FlagKind::Short), t.skip(1)))
        },
        None => if t.len() == 0 {
            (None, st)
        } else if t.len() == 2 && t[0] == '-' && t[1] == '-' {
            (Some(Err(ArgError::Separator)), st)
        } else if t.len() > 2 && t[0] == '-' && t[1] == '-' {
            match find_eq(t.skip(2)) {
                Some(k) => (
                    Some(Ok((true, t.skip(2).take(k)))),
                    (Some(FlagKind::Long), t.skip(2).skip(k)),
                ),
                None => (Some(Ok((true, t.skip(2)))), (Some(FlagKind::Long), Seq::empty())),
            }
        } else if t.len() >= 2 && t[0] == '-' {
            (Some(Ok((false, seq![t[1]]))), (Some(FlagKind::Short), t.skip(2)))
        } else {
            (Some(Err(ArgError::Value)), st)
        },
    }
}

/// What one [Argv::next] call yields and leaves behind: the walk steps
/// through the current argument, moves to the next one when it is
/// exhausted or a plain value, and stops for good at the separator.
pub open spec fn spec_argv_next(
    args: Seq<&str>,
    idx: int,
    last: Option<(Option<FlagKind>, Seq<char>)>,
    sep: bool,
) -> (Option<(bool, Seq<char>)>, (int, Option<(Option<FlagKind>, Seq<char>)>, bool))
    decreases 2 * (if 0 <= idx <= args.len() {
        args.len() - idx
    } else {
        0int
    }) + (if last is Some {
        1int
    } else {
        0int
    }),
{
    if sep {
        (None, (idx, last, sep))
    } else {
        match last {
            Some(st) => {
                let step = spec_arg_step(st);
                match step.0 {
                    Some(Ok(f)) => (Some(f), (idx, Some(step.1), sep)),
                    Some(Err(ArgError::Separator)) => (None, (idx, Some(st), true)),
                    Some(Err(ArgError::Value)) => spec_argv_next(args, idx, None, sep),
                    None => spec_argv_next(args, idx, None, sep),
                }
            },
            None => if idx < 0 || idx >= args.len() {
                (None, (idx, None, sep))
            } else {
                spec_argv_next(args, idx + 1, Some((None, args[idx]@)), sep)
            },
        }
    }
}

/// The value hanging off a walked argument: what remains behind an
/// optional `=`, none when no flag was read or nothing remains.
pub open spec fn spec_arg_value(st: (Option<FlagKind>, Seq<char>)) -> Option<Seq<char>> {
    match st.0 {
        None => None,
        Some(_) => if st.1.len() == 0 {
            None
        } else if st.1[0] == '=' {
            Some(st.1.skip(1))
        } else {
            Some(st.1)
        },
    }
}

/// Whether an argument string is a plain value: it does not start
/// with a dash, or is the one-character `-`.
pub open spec fn spec_is_plain_value(t: Seq<char>) -> bool {
    t.len() > 0 && (t[0] != '-' || t.len() == 1)
}

/// The walk state of a whole [Argv], at specification level.
pub open spec fn argv_rep(v: Argv) -> (int, Option<(Option<FlagKind>, Seq<char>)>, bool) {
    (
        v.idx as int,
        match v.last {
            Some(a) => Some(arg_rep(a)),
            None => None,
        },
        v.passed_separator,
    )
}

/// An argument vector, walked flag by flag across its arguments.
pub struct Argv<'a> {
    pub args: Vec<&'a str>,
    pub idx: usize,
    pub last: Option<Arg<'a>>,
    pub passed_separator: bool,
}

impl<'a> Argv<'a> {
    /// Start a walk over an argument vector.
    pub fn from(args: Vec<&'a str>) -> (r: Argv<'a>)
        ensures
            r.args == args,
            r.idx == 0,
            r.last is None,
            !r.passed_separator,
    {
        Argv { args, idx: 0, last: None, passed_separator: false }
    }

    /// The argument being walked, or the next one of the vector; `None`
    /// once the vector is exhausted.
    pub fn last_or_next(&mut self) -> (r: Option<&Arg<'a>>)
        ensures
            final(self).args == old(self).args,
            final(self).passed_separator == old(self).passed_separator,
            old(self).last is Some ==> *final(self) == *old(self) && (r matches Some(a) && *a
                == old(self).last->0),
            old(self).last is None && old(self).idx >= old(self).args@.len() ==> r is None
                && *final(self) == *old(self),
            old(self).last is None && old(self).idx < old(self).args@.len() ==> (r matches Some(a)
                && a.last_flag_kind is None && a.next@ == old(self).args@[old(self).idx as int]@
                && final(self).idx == old(self).idx + 1 && final(self).last == Some(*a)),
    {
        if self.last.is_none() {
            if self.idx >= self.args.len() {
                return None;
            }
            let s = self.args[self.idx];
            self.idx += 1;
            self.last = Some(Arg::from(s));
        }
        match &self.last {
            Some(a) => Some(a),
            None => None,
        }
    }

    /// Get a value if it exists: what hangs off the last flag, else the
    /// next argument when that argument is a plain value; a flag-like
    /// next argument is kept for the next walk step instead.
    pub fn value(&mut self) -> (r: Option<&'a str>)
        ensures
            final(self).args == old(self).args,
            final(self).idx >= old(self).idx,
            final(self).idx > old(self).idx ==> final(self).idx <= old(self).args@.len(),
            final(self).idx == old(self).idx ==> final(self).last is None,
            final(self).passed_separator == old(self).passed_separator,
            ({
                let attached = match old(self).last {
                    Some(a) => spec_arg_value(arg_rep(a)),
                    None => None,
                };
                match attached {
                    Some(v) => (r matches Some(w) && w@ == v) && final(self).idx == old(self).idx,
                    None => {
                        let i = old(self).idx as int;
                        if i >= old(self).args@.len() {
                            r is None && final(self).idx == old(self).idx
                        } else {
                            let t = old(self).args@[i]@;
                            &&& final(self).idx == i + 1
                            &&& (spec_is_plain_value(t) ==> (r matches Some(w) && w@ == t)
                                && final(self).last is None)
                            &&& (t.len() == 0 ==> r is None && final(self).last is None)
                            &&& (!spec_is_plain_value(t) && t.len() > 0 ==> r is None && (final(self).last matches Some(a) && arg_rep(a) == (
                                Option::<FlagKind>::None,
                                t,
                            )))
                        }
                    },
                }
            }),
    {
        let taken = match self.last.take() {
            Some(a) => a.value(),
            None => None,
        };
        match taken {
            Some(v) => Some(v),
            None => {
                if self.idx >= self.args.len() {
                    return None;
                }
                let s = self.args[self.idx];
                self.idx += 1;
                let mut probe = Arg::from(s);
                match probe.next() {
                    Some(Err(ArgError::Value)) => Some(s),
                    None => None,
                    _ => {
                        self.last = Some(Arg::from(s));
                        None
                    },
                }
            },
        }
    }

    /// The next flag across the whole vector, exactly as
    /// [spec_argv_next] says: flags of the current argument first,
    /// exhausted arguments and plain values skipped, everything after
    /// a `--` separator ignored.
    pub fn next(&mut self) -> (r: Option<Flag<'a>>)
        ensures
            final(self).args == old(self).args,
            final(self).idx >= old(self).idx,
            final(self).idx > old(self).idx ==> final(self).idx <= old(self).args@.len(),
            r is Some && final(self).idx == old(self).idx ==> (old(self).last matches Some(a1)
                && final(self).last matches Some(a2) && a2.next@.len() < a1.next@.len()),
            ({
                let out = spec_argv_next(
                    old(self).args@,
                    old(self).idx as int,
                    argv_rep(*old(self)).1,
                    old(self).passed_separator,
                );
                &&& argv_rep(*final(self)) == out.1
                &&& (match r {
                    Some(f) => out.0 == Some(flag_rep(f)),
                    None => out.0 is None,
                })
            }),
    {
        loop
            invariant
                self.args == old(self).args,
                self.idx >= old(self).idx,
                self.idx > old(self).idx ==> self.idx <= self.args@.len(),
                self.idx == old(self).idx ==> (self.last == old(self).last || self.last is None),
                spec_argv_next(
                    old(self).args@,
                    old(self).idx as int,
                    argv_rep(*old(self)).1,
                    old(self).passed_separator,
                ) == spec_argv_next(
                    self.args@,
                    self.idx as int,
                    argv_rep(*self).1,
                    self.passed_separator,
                ),
            decreases 2 * (if self.idx <= self.args@.len() {
                self.args@.len() - self.idx
            } else {
                0int
            }) + (if self.last is Some {
                1int
            } else {
                0int
            }) + 1,
        {
            let ghost t_idx = self.idx as int;
            let ghost t_last = argv_rep(*self).1;
            let ghost t_sep = self.passed_separator;
            if self.passed_separator {
                proof {
                    assert(spec_argv_next(self.args@, t_idx, t_last, t_sep) == (
                        None::<(bool, Seq<char>)>,
                        (t_idx, t_last, t_sep),
                    ));
                }
                return None;
            }
            if self.last.is_none() {
                if self.idx >= self.args.len() {
                    proof {
                        assert(spec_argv_next(self.args@, t_idx, t_last, t_sep) == (
                            None::<(bool, Seq<char>)>,
                            (t_idx, t_last, t_sep),
                        ));
                    }
                    return None;
                }
                let s = self.args[self.idx];
                self.idx += 1;
                self.last = Some(Arg::from(s));
                proof {
                    assert(arg_rep(self.last->0) == (Option::<FlagKind>::None, s@));
                    assert(spec_argv_next(self.args@, t_idx, t_last, t_sep) == spec_argv_next(
                        self.args@,
                        self.idx as int,
                        argv_rep(*self).1,
                        self.passed_separator,
                    ));
                }
            }
            let ghost m_idx = self.idx as int;
            let ghost st0 = arg_rep(self.last->0);
            let flag = match self.last {
                Some(mut a) => {
                    let f = a.next();
                    self.last = Some(a);
                    f
                },
                None => None,
            };
            proof {
                let step = spec_arg_step(st0);
                match flag {
                    Some(Ok(f)) => {
                        if st0.0 is None && st0.1.len() > 2 && st0.1[0] == '-' && st0.1[1] == '-'
                            && find_eq(st0.1.skip(2)) is None {
                            assert(self.last->0.next@ =~= Seq::<char>::empty());
                        }
                        assert(step.0 == Some(Ok::<(bool, Seq<char>), ArgError>(flag_rep(f))));
                        assert(step.1 == arg_rep(self.last->0));
                        assert(spec_argv_next(self.args@, m_idx, Some(st0), false) == (
                            Some(flag_rep(f)),
                            (m_idx, Some(step.1), false),
                        ));
                    },
                    Some(Err(ArgError::Separator)) => {
                        assert(step.0 == Some(Err::<(bool, Seq<char>), ArgError>(
                            ArgError::Separator,
                        )));
                        assert(arg_rep(self.last->0) == st0);
                        assert(spec_argv_next(self.args@, m_idx, Some(st0), false) == (
                            None::<(bool, Seq<char>)>,
                            (m_idx, Some(st0), true),
                        ));
                    },
                    Some(Err(ArgError::Value)) => {
                        assert(step.0 == Some(Err::<(bool, Seq<char>), ArgError>(
                            ArgError::Value,
                        )));
                        assert(spec_argv_next(self.args@, m_idx, Some(st0), false)
                            == spec_argv_next(self.args@, m_idx, None, false));
                    },
                    None => {
                        assert(step.0 is None);
                        assert(spec_argv_next(self.args@, m_idx, Some(st0), false)
                            == spec_argv_next(self.args@, m_idx, None, false));
                    },
                }
            }
            match flag {
                Some(Ok(f)) => {
                    proof {
                        if self.idx == old(self).idx {
                            let a1 = old(self).last->0;
                            let a2 = self.last->0;
                            lemma_find_eq(a1.next@.skip(2));
                            assert(old(self).last is Some);
                            match a1.last_flag_kind {
                                Some(FlagKind::Long) => {
                                    assert(false);
                                },
                                Some(FlagKind::Short) => {
                                    assert(a2.next@ == a1.next@.skip(1));
                                },
                                None => {
                                    let t = a1.next@;
                                    if t.len() > 2 && t[0] == '-' && t[1] == '-' {
                                        match find_eq(t.skip(2)) {
                                            Some(k) => {
                                                assert(a2.next@ == t.skip(2).skip(k));
                                                assert(0 <= k < t.skip(2).len());
                                            },
                                            None => {
                                                assert(a2.next@.len() == 0);
                                            },
                                        }
                                    } else {
                                        assert(t.len() >= 2 && t[0] == '-' && t[1] != '-');
                                        assert(a2.next@ == t.skip(2));
                                    }
                                },
                            }
                            assert(a2.next@.len() < a1.next@.len());
                        }
                    }
                    return Some(f);
                },
                Some(Err(ArgError::Separator)) => {
                    self.passed_separator = true;
                    return None;
                },
                Some(Err(ArgError::Value)) => {
                    self.last = None;
                },
                None => {
                    self.last = None;
                },
            }
        }
    }
}


} // verus!
