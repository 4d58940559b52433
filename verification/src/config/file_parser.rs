//! Splits configuration text into words, skipping `#`-led comment
//! words, so that each word can be applied like a command-line flag.

use vstd::prelude::*;
use vstd::string::StrSliceExecFns;

use crate::config::file::lexer::{is_space, is_whitespace_char};

verus! {

broadcast use vstd::group_vstd_default;

/// How many leading characters are whitespace.
pub open spec fn spec_skip_blank(s: Seq<char>) -> int
    decreases s.len(),
{
    if s.len() > 0 && is_space(s[0]) {
        1 + spec_skip_blank(s.drop_first())
    } else {
        0
    }
}

/// How many leading characters are not whitespace.
pub open spec fn spec_skip_word(s: Seq<char>) -> int
    decreases s.len(),
{
    if s.len() > 0 && !is_space(s[0]) {
        1 + spec_skip_word(s.drop_first())
    } else {
        0
    }
}

#[via_fn]
proof fn spec_next_word_dec(s: Seq<char>) {
    lemma_skip_blank_bounds(s);
    lemma_skip_word_bounds(s.skip(spec_skip_blank(s)));
}

/// Blank skipping never outruns the input.
pub proof fn lemma_skip_blank_bounds(s: Seq<char>)
    ensures
        0 <= spec_skip_blank(s) <= s.len(),
    decreases s.len(),
{
    if s.len() > 0 && is_space(s[0]) {
        lemma_skip_blank_bounds(s.drop_first());
    }
}

/// Word skipping never outruns the input.
pub proof fn lemma_skip_word_bounds(s: Seq<char>)
    ensures
        0 <= spec_skip_word(s) <= s.len(),
    decreases s.len(),
{
    if s.len() > 0 && !is_space(s[0]) {
        lemma_skip_word_bounds(s.drop_first());
    }
}

/// The next word of the input and how many characters it takes to
/// reach its end: leading whitespace dropped, a word led by `#`
/// dropped with one whitespace character after it, the word otherwise.
pub open spec fn spec_next_word(s: Seq<char>) -> Option<(Seq<char>, int)>
    decreases s.len(),
    via spec_next_word_dec
{
    let k = spec_skip_blank(s);
    let t = s.skip(k);
    if t.len() == 0 {
        None
    } else if t[0] == '#' {
        let c = spec_skip_word(t);
        if c >= t.len() {
            None
        } else {
            match spec_next_word(t.skip(c + 1)) {
                Some(p) => Some((p.0, k + c + 1 + p.1)),
                None => None,
            }
        }
    } else {
        let e = spec_skip_word(t);
        Some((t.take(e), k + e))
    }
}

/// Walks a text word by word.
#[derive(Clone, Copy, Debug)]
pub struct FileParser<'a> {
    src: &'a str,
    pos: usize,
}

impl<'a> FileParser<'a> {
    /// The whole text.
    pub closed spec fn spec_src(self) -> Seq<char> {
        self.src@
    }

    /// How far the walk has come, in characters.
    pub closed spec fn spec_pos(self) -> int {
        self.pos as int
    }

    /// The walk never leaves the text.
    pub open spec fn wf(self) -> bool {
        0 <= self.spec_pos() <= self.spec_src().len()
    }

    /// What is left to read.
    pub open spec fn remaining(self) -> Seq<char> {
        self.spec_src().skip(self.spec_pos())
    }

    pub fn new(input: &'a str) -> (r: FileParser<'a>)
        ensures
            r.wf(),
            r.spec_src() == input@,
            r.spec_pos() == 0,
    {
        FileParser { src: input, pos: 0 }
    }

    /// The next word, as [spec_next_word] says; `None` once only
    /// whitespace and comments are left.
    pub fn next(&mut self) -> (r: Option<&'a str>)
        requires
            old(self).wf(),
        ensures
            final(self).wf(),
            final(self).spec_src() == old(self).spec_src(),
            final(self).spec_pos() >= old(self).spec_pos(),
            match spec_next_word(old(self).remaining()) {
                Some(p) => (r matches Some(w) && w@ == p.0) && final(self).spec_pos() == old(
                    self,
                ).spec_pos() + p.1,
                None => r is None,
            },
    {
        let n = self.src.unicode_len();
        let ghost rem0 = self.remaining();
        let ghost pos0 = self.spec_pos();
        loop
            invariant
                self.spec_src() == old(self).spec_src(),
                pos0 == old(self).spec_pos(),
                pos0 <= self.spec_pos(),
                self.wf(),
                n == self.src@.len(),
                rem0 == old(self).remaining(),
                match spec_next_word(self.remaining()) {
                    Some(p) => spec_next_word(rem0) == Some::<(Seq<char>, int)>(
                        (p.0, self.spec_pos() - pos0 + p.1),
                    ),
                    None => spec_next_word(rem0) is None,
                },
            decreases n - self.spec_pos(),
        {
            let ghost rem = self.remaining();
            let mut i: usize = self.pos;
            while i < n && is_whitespace_char(self.src.get_char(i))
                invariant
                    self.wf(),
                    n == self.src@.len(),
                    self.spec_pos() <= i <= n,
                    rem == self.remaining(),
                    spec_skip_blank(rem) == i - self.spec_pos() + spec_skip_blank(
                        self.src@.skip(i as int),
                    ),
                decreases n - i,
            {
                proof {
                    let u = self.src@.skip(i as int);
                    assert(u[0] == self.src@[i as int]);
                    assert(u.drop_first() =~= self.src@.skip(i + 1));
                }
                i += 1;
            }
            proof {
                let u = self.src@.skip(i as int);
                if i < n {
                    assert(u[0] == self.src@[i as int]);
                }
                assert(spec_skip_blank(u) == 0);
                assert(rem.skip(spec_skip_blank(rem)) =~= self.src@.skip(i as int));
            }
            let ghost t = self.src@.skip(i as int);
            if i >= n {
                proof {
                    assert(t =~= Seq::<char>::empty());
                }
                return None;
            }
            let c0 = self.src.get_char(i);
            proof {
                assert(t[0] == self.src@[i as int]);
            }
            // find the end of the word starting at i
            let mut j: usize = i;
            while j < n && !is_whitespace_char(self.src.get_char(j))
                invariant
                    self.wf(),
                    n == self.src@.len(),
                    self.spec_pos() <= i <= j <= n,
                    t == self.src@.skip(i as int),
                    spec_skip_word(t) == j - i + spec_skip_word(self.src@.skip(j as int)),
                decreases n - j,
            {
                proof {
                    let u = self.src@.skip(j as int);
                    assert(u[0] == self.src@[j as int]);
                    assert(u.drop_first() =~= self.src@.skip(j + 1));
                }
                j += 1;
            }
            proof {
                let u = self.src@.skip(j as int);
                if j < n {
                    assert(u[0] == self.src@[j as int]);
                }
                assert(spec_skip_word(u) == 0);
                lemma_skip_word_bounds(t);
            }
            if c0 == '#' {
                if j >= n {
                    return None;
                }
                self.pos = j + 1;
                proof {
                    assert(t.skip(j + 1 - i) =~= self.src@.skip(j + 1));
                }
            } else {
                let word = self.src.substring_char(i, j);
                self.pos = j;
                proof {
                    assert(word@ =~= t.take(j - i));
                }
                return Some(word);
            }
        }
    }
}

} // verus!
