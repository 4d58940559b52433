//! String type that cuts its front off at a checked byte index.

use vstd::prelude::*;
use vstd::string::{StringSliceAdditionalSpecFns, StringExecFns};
use vstd::utf8::is_char_boundary;

use crate::copy_str::byte_len;

verus! {

broadcast use vstd::group_vstd_default;

/// A run of characters, borrowed or owned, whose front can be cut off
/// at a character boundary.
#[derive(Debug)]
pub enum CutStr<'a> {
    Borrowed(&'a str),
    Owned(String),
}

impl<'a> CutStr<'a> {
    /// The bytes of the run.
    pub closed spec fn spec_bytes(self) -> Seq<u8> {
        match self {
            CutStr::Borrowed(s) => s.spec_bytes(),
            CutStr::Owned(s) => vstd::utf8::encode_utf8(s@),
        }
    }

    /// Wrap a borrowed string.
    pub fn from(s: &'a str) -> (r: CutStr<'a>)
        ensures
            r.spec_bytes() == s.spec_bytes(),
    {
        CutStr::Borrowed(s)
    }

    /// Wrap an owned string.
    pub fn from_string(s: String) -> (r: CutStr<'a>)
        ensures
            r.spec_bytes() == vstd::utf8::encode_utf8(s@),
    {
        CutStr::Owned(s)
    }

    /// The run as a string slice.
    pub fn as_str(&self) -> (r: &str)
        ensures
            r.spec_bytes() == self.spec_bytes(),
    {
        match self {
            CutStr::Borrowed(s) => s,
            CutStr::Owned(s) => s.as_str(),
        }
    }

    /// Drop `index` bytes from the front, when `index` cuts the run on
    /// a character boundary; else nothing is returned.
    pub fn cut_checked(self, index: usize) -> (r: Option<CutStr<'a>>)
        ensures
            index <= self.spec_bytes().len() && is_char_boundary(self.spec_bytes(), index as int)
                ==> (r matches Some(c) && c.spec_bytes() == self.spec_bytes().subrange(
                index as int,
                self.spec_bytes().len() as int,
            )),
            !(index <= self.spec_bytes().len() && is_char_boundary(
                self.spec_bytes(),
                index as int,
            )) ==> r is None,
    {
        match self {
            CutStr::Borrowed(s) => {
                if index <= byte_len(s) && s.is_char_boundary(index) {
                    let tail = s.split_at(index).1;
                    proof {
                        assert(tail.spec_bytes() =~= s.spec_bytes().subrange(
                            index as int,
                            s.spec_bytes().len() as int,
                        ));
                    }
                    Some(CutStr::Borrowed(tail))
                } else {
                    None
                }
            },
            CutStr::Owned(s) => {
                if index <= byte_len(s.as_str()) && s.as_str().is_char_boundary(index) {
                    let tail = s.as_str().split_at(index).1;
                    let next = String::from_str(tail);
                    proof {
                        assert(vstd::utf8::encode_utf8(next@) =~= vstd::utf8::encode_utf8(
                            s@,
                        ).subrange(index as int, vstd::utf8::encode_utf8(s@).len() as int));
                    }
                    Some(CutStr::Owned(next))
                } else {
                    None
                }
            },
        }
    }
}

} // verus!
