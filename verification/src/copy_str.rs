//! String type with copies and splits checked against character
//! boundaries.  Each value owns the text of its run; sharing one
//! backing buffer between runs would only save allocations, so it is
//! not kept here.

use vstd::prelude::*;
use vstd::string::{StringSliceAdditionalSpecFns, StringExecFns};
use vstd::utf8::is_char_boundary;

verus! {

broadcast use vstd::group_vstd_default;

/// The bytes a string value encodes.
pub open spec fn spec_string_bytes(s: String) -> Seq<u8> {
    vstd::utf8::encode_utf8(s@)
}

/// Relies on str::len: the byte length of the slice, which for a real
/// slice always fits a usize.
#[verifier::external_body]
pub(crate) fn byte_len(s: &str) -> (r: usize)
    ensures
        r == s.spec_bytes().len(),
{
    s.len()
}

/// A run of characters; cutting and splitting go by byte index and
/// succeed only on character boundaries.
#[derive(Debug)]
pub struct CopyStr {
    text: String,
}

impl CopyStr {
    /// The bytes of the run.
    pub closed spec fn spec_bytes(self) -> Seq<u8> {
        spec_string_bytes(self.text)
    }

    /// The characters of the run.
    pub closed spec fn spec_chars(self) -> Seq<char> {
        self.text@
    }

    /// Wrap a whole string.
    pub fn from(s: &str) -> (r: CopyStr)
        ensures
            r.spec_bytes() == s.spec_bytes(),
            r.spec_chars() == s@,
    {
        CopyStr { text: String::from_str(s) }
    }

    /// The run as a string slice.
    pub fn as_str(&self) -> (r: &str)
        ensures
            r.spec_bytes() == self.spec_bytes(),
            r@ == self.spec_chars(),
    {
        self.text.as_str()
    }

    /// The sub-run between the byte indices `from` and `to`: `from`
    /// must cut the run on a character boundary and `to` must cut what
    /// remains behind `from` on one, else nothing is returned.
    pub fn get(&self, from: usize, to: usize) -> (r: Option<CopyStr>)
        ensures
            ({
                let whole = self.spec_bytes();
                let ok = from <= to && to <= whole.len() && is_char_boundary(whole, from as int)
                    && is_char_boundary(
                    whole.subrange(from as int, whole.len() as int),
                    to - from,
                );
                &&& (ok ==> (r matches Some(c) && c.spec_bytes() == whole.subrange(
                    from as int,
                    to as int,
                )))
                &&& (!ok ==> r is None)
            }),
    {
        if from > to || to > byte_len(self.text.as_str()) {
            return None;
        }
        if !self.text.as_str().is_char_boundary(from) {
            return None;
        }
        let tail = self.text.as_str().split_at(from).1;
        proof {
            assert(tail.spec_bytes() =~= self.spec_bytes().subrange(
                from as int,
                self.spec_bytes().len() as int,
            ));
        }
        if !tail.is_char_boundary(to - from) {
            return None;
        }
        let run = tail.split_at(to - from).0;
        proof {
            assert(run.spec_bytes() =~= self.spec_bytes().subrange(from as int, to as int));
        }
        let text = String::from_str(run);
        proof {
            assert(spec_string_bytes(text) == run.spec_bytes());
        }
        Some(CopyStr { text })
    }

    /// Drop `at` bytes from the front of the run; `at` must cut on a
    /// character boundary.
    pub fn cut_at(&mut self, at: usize)
        requires
            at <= old(self).spec_bytes().len(),
            is_char_boundary(old(self).spec_bytes(), at as int),
        ensures
            final(self).spec_bytes() == old(self).spec_bytes().subrange(
                at as int,
                old(self).spec_bytes().len() as int,
            ),
    {
        let tail = self.text.as_str().split_at(at).1;
        let next = String::from_str(tail);
        proof {
            assert(spec_string_bytes(next) =~= old(self).spec_bytes().subrange(
                at as int,
                old(self).spec_bytes().len() as int,
            ));
        }
        self.text = next;
    }

    /// [Self::cut_at], refusing an `at` that does not cut on a
    /// character boundary.
    pub fn cut_at_checked(self, at: usize) -> (r: Option<CopyStr>)
        ensures
            at <= self.spec_bytes().len() && is_char_boundary(self.spec_bytes(), at as int) ==> (
            r matches Some(c) && c.spec_bytes() == self.spec_bytes().subrange(
                at as int,
                self.spec_bytes().len() as int,
            )),
            !(at <= self.spec_bytes().len() && is_char_boundary(self.spec_bytes(), at as int))
                ==> r is None,
    {
        if at <= byte_len(self.text.as_str()) && self.text.as_str().is_char_boundary(at) {
            let mut out = self;
            out.cut_at(at);
            Some(out)
        } else {
            None
        }
    }

    /// Split the run at `at` bytes: keep the front, hand the back out;
    /// `at` must cut on a character boundary.
    pub fn split_off(&mut self, at: usize) -> (r: CopyStr)
        requires
            at <= old(self).spec_bytes().len(),
            is_char_boundary(old(self).spec_bytes(), at as int),
        ensures
            final(self).spec_bytes() == old(self).spec_bytes().subrange(0, at as int),
            r.spec_bytes() == old(self).spec_bytes().subrange(
                at as int,
                old(self).spec_bytes().len() as int,
            ),
    {
        let parts = self.text.as_str().split_at(at);
        let head = String::from_str(parts.0);
        let tail = String::from_str(parts.1);
        proof {
            assert(spec_string_bytes(head) =~= old(self).spec_bytes().subrange(0, at as int));
            assert(spec_string_bytes(tail) =~= old(self).spec_bytes().subrange(
                at as int,
                old(self).spec_bytes().len() as int,
            ));
        }
        self.text = head;
        CopyStr { text: tail }
    }
}

} // verus!
