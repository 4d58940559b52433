//! Zipping two runs until both have run out, not just the shorter.

use vstd::prelude::*;

verus! {

broadcast use vstd::group_vstd_default;

/// Zip `self` with another run, yielding pairs until both are done.
pub trait IterExt<T: Copy>: Sized {
    fn zip_all<R: Copy>(self, r: Vec<R>) -> ZipAll<T, R>;
}

impl<T: Copy> IterExt<T> for Vec<T> {
    /// Zip until both runs have run out.
    fn zip_all<R: Copy>(self, r: Vec<R>) -> (z: ZipAll<T, R>)
        ensures
            z.l@ == self@,
            z.r@ == r@,
            z.i == 0,
    {
        ZipAll { l: self, r, i: 0 }
    }
}

/// The state of a [IterExt::zip_all] walk.
pub struct ZipAll<L, R> {
    pub l: Vec<L>,
    pub r: Vec<R>,
    pub i: usize,
}

impl<L: Copy, R: Copy> ZipAll<L, R> {
    /// The next pair: each side yields its element while it has one;
    /// `None` once both are done.
    pub fn next(&mut self) -> (p: Option<(Option<L>, Option<R>)>)
        ensures
            final(self).l == old(self).l,
            final(self).r == old(self).r,
            ({
                let i = old(self).i as int;
                if i < old(self).l@.len() || i < old(self).r@.len() {
                    &&& final(self).i == i + 1
                    &&& p matches Some(q)
                    &&& (i < old(self).l@.len() ==> q.0 == Some(old(self).l@[i]))
                    &&& (i >= old(self).l@.len() ==> q.0 is None)
                    &&& (i < old(self).r@.len() ==> q.1 == Some(old(self).r@[i]))
                    &&& (i >= old(self).r@.len() ==> q.1 is None)
                } else {
                    p is None && final(self).i == old(self).i
                }
            }),
    {
        let a = if self.i < self.l.len() {
            Some(self.l[self.i])
        } else {
            None
        };
        let b = if self.i < self.r.len() {
            Some(self.r[self.i])
        } else {
            None
        };
        match (a, b) {
            (None, None) => None,
            z => {
                self.i = self.i + 1;
                Some(z)
            },
        }
    }
}

} // verus!
