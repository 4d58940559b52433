//! The capabilities a platform backend supplies: one interface per
//! window, and small helpers for its error conventions.

use vstd::prelude::*;

verus! {

/// A platform window handle: liveness, focus and visibility queries,
/// and focus, visibility and position mutators.  Implemented once per
/// target platform, outside this crate.
pub trait Window {
    type Error;

    type Title;

    fn is_alive(&self) -> bool;

    fn is_focused(&self) -> bool;

    fn is_visible(&self) -> bool;

    fn move_to(&self, to: Rect) -> Result<(), Self::Error>;

    fn position(&self) -> Result<Rect, Self::Error>;

    fn title(&self) -> Result<Self::Title, Self::Error>;

    fn set_focus(&mut self, focused: bool) -> Result<(), Self::Error>;

    fn set_visibility(&mut self, visible: bool) -> Result<(), Self::Error>;
}

/// A window's place on the screen.
#[derive(Clone, Copy, Debug, PartialEq, Eq, Structural)]
pub struct Rect {
    pub x: i16,
    pub y: i16,
    pub width: u16,
    pub height: u16,
}

/// Marks a return type whose zero value signals a platform error.
pub trait ReturnError: Sized {
    type Into;

    fn attempt_into(self) -> Option<Self::Into>;
}

impl ReturnError for i32 {
    type Into = i32;

    /// The value, unless it is the error sentinel zero.
    fn attempt_into(self) -> (r: Option<i32>)
        ensures
            self != 0 ==> r == Some(self),
            self == 0 ==> r is None,
    {
        if self != 0 {
            Some(self)
        } else {
            None
        }
    }
}

impl ReturnError for isize {
    type Into = isize;

    /// The value, unless it is the error sentinel zero.
    fn attempt_into(self) -> (r: Option<isize>)
        ensures
            self != 0 ==> r == Some(self),
            self == 0 ==> r is None,
    {
        if self != 0 {
            Some(self)
        } else {
            None
        }
    }
}

impl ReturnError for u32 {
    type Into = u32;

    /// The value, unless it is the error sentinel zero.
    fn attempt_into(self) -> (r: Option<u32>)
        ensures
            self != 0 ==> r == Some(self),
            self == 0 ==> r is None,
    {
        if self != 0 {
            Some(self)
        } else {
            None
        }
    }
}

impl ReturnError for usize {
    type Into = usize;

    /// The value, unless it is the error sentinel zero.
    fn attempt_into(self) -> (r: Option<usize>)
        ensures
            self != 0 ==> r == Some(self),
            self == 0 ==> r is None,
    {
        if self != 0 {
            Some(self)
        } else {
            None
        }
    }
}

/// A window handle that was null where the platform promises one.
#[derive(Clone, Copy, Debug, PartialEq, Eq, Structural)]
pub struct NullHwndError;

} // verus!
