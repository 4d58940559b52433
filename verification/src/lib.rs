//! Core of a tiling window manager: key-sequence model and matcher,
//! workspace registry, event dispatcher, and the configuration layer
//! that feeds them.

pub mod backend;
pub mod config;
pub mod const_string;
pub mod copy_str;
pub mod cut_str;
pub mod iter_ext;
pub mod opts;
pub mod path_cache;
pub mod split_str;
pub mod state;

use vstd::prelude::*;

verus! {

/// Name of the program, kept in sync with the package manifest.
pub const NAME: &'static str = "storm";

/// Version of the program, kept in sync with the package manifest.
pub const VERSION: &'static str = "0.1.0";

} // verus!
