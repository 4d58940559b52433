//! String type that splits in two at a checked byte index.

use vstd::prelude::*;
use vstd::string::{StringSliceAdditionalSpecFns, StringExecFns};
use vstd::utf8::is_char_boundary;

use crate::copy_str::byte_len;

verus! {

broadcast use vstd::group_vstd_default;

/// A run of characters, borrowed or owned, that can be split in two at
/// a character boundary.
#[derive(Debug)]
pub enum SplitStr<'a> {
    Borrowed(&'a str),
    Owned(String),
}

impl<'a> SplitStr<'a> {
    /// The bytes of the run.
    pub closed spec fn spec_bytes(self) -> Seq<u8> {
        match self {
            SplitStr::Borrowed(s) => s.spec_bytes(),
            SplitStr::Owned(s) => vstd::utf8::encode_utf8(s@),
        }
    }

    /// Wrap a borrowed string.
    pub fn from(s: &'a str) -> (r: SplitStr<'a>)
        ensures
            r.spec_bytes() == s.spec_bytes(),
    {
        SplitStr::Borrowed(s)
    }

    /// Wrap an owned string.
    pub fn from_string(s: String) -> (r: SplitStr<'a>)
        ensures
            r.spec_bytes() == vstd::utf8::encode_utf8(s@),
    {
        SplitStr::Owned(s)
    }

    /// The run as a string slice.
    pub fn as_str(&self) -> (r: &str)
        ensures
            r.spec_bytes() == self.spec_bytes(),
    {
        match self {
            SplitStr::Borrowed(s) => s,
            SplitStr::Owned(s) => s.as_str(),
        }
    }

    /// Split in two at `index` bytes, when `index` cuts the run on a
    /// character boundary; else nothing is returned.
    pub fn split_at_checked(self, index: usize) -> (r: Option<(SplitStr<'a>, SplitStr<'a>)>)
        ensures
            index <= self.spec_bytes().len() && is_char_boundary(self.spec_bytes(), index as int)
                ==> (r matches Some(p) && p.0.spec_bytes() == self.spec_bytes().subrange(
                0,
                index as int,
            ) && p.1.spec_bytes() == self.spec_bytes().subrange(
                index as int,
                self.spec_bytes().len() as int,
            )),
            !(index <= self.spec_bytes().len() && is_char_boundary(
                self.spec_bytes(),
                index as int,
            )) ==> r is None,
    {
        match self {
            SplitStr::Borrowed(s) => {
                if index <= byte_len(s) && s.is_char_boundary(index) {
                    let parts = s.split_at(index);
                    Some((SplitStr::Borrowed(parts.0), SplitStr::Borrowed(parts.1)))
                } else {
                    None
                }
            },
            SplitStr::Owned(s) => {
                if index <= byte_len(s.as_str()) && s.as_str().is_char_boundary(index) {
                    let parts = s.as_str().split_at(index);
                    let head = String::from_str(parts.0);
                    let tail = String::from_str(parts.1);
                    proof {
                        assert(vstd::utf8::encode_utf8(head@) =~= vstd::utf8::encode_utf8(
                            s@,
                        ).subrange(0, index as int));
                        assert(vstd::utf8::encode_utf8(tail@) =~= vstd::utf8::encode_utf8(
                            s@,
                        ).subrange(index as int, vstd::utf8::encode_utf8(s@).len() as int));
                    }
                    Some((SplitStr::Owned(head), SplitStr::Owned(tail)))
                } else {
                    None
                }
            },
        }
    }
}

} // verus!
