//! Logging callbacks at three verbosity levels: which of the given
//! closures run is all a logger decides.

use vstd::prelude::*;

verus! {

/// Runs what is handed to it, or not, by how verbose it is.
pub trait Logger {
    /// Run `f` when error messages are shown.
    fn error<F: Fn() -> ()>(&self, f: F)
        requires
            f.requires(()),
    ;

    /// Run `f` when status messages are shown.
    fn status<F: Fn() -> ()>(&self, f: F)
        requires
            f.requires(()),
    ;
}

/// Shows nothing.
pub struct Null;

impl Logger for Null {
    fn error<F: Fn() -> ()>(&self, f: F) {
    }

    fn status<F: Fn() -> ()>(&self, f: F) {
    }
}

/// Shows errors only.
pub struct Quiet;

impl Logger for Quiet {
    fn error<F: Fn() -> ()>(&self, f: F) {
        f();
    }

    fn status<F: Fn() -> ()>(&self, f: F) {
    }
}

/// Shows everything.
pub struct Verbose;

impl Logger for Verbose {
    fn error<F: Fn() -> ()>(&self, f: F) {
        f();
    }

    fn status<F: Fn() -> ()>(&self, f: F) {
        f();
    }
}

} // verus!
