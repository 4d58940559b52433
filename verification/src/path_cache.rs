//! Where the configuration file is looked for: an explicitly
//! configured path wins over the platform default.

use vstd::prelude::*;
use vstd::string::StringExecFns;

verus! {

/// Where a chosen path came from.
#[derive(Clone, Copy, Debug, PartialEq, Eq, Structural)]
pub enum PathOrigin {
    /// The platform's default configuration directory.
    Default,
    /// A path named in the configuration itself.
    Config,
}

/// The platform's default configuration file path, computed once by
/// the caller (looking directories up is platform work) and consulted
/// here.
pub struct PathCache {
    /// The default path, when the platform offers one.
    pub config: Option<String>,
}

impl PathCache {
    pub fn new(config: Option<String>) -> (r: PathCache)
        ensures
            r.config == config,
    {
        PathCache { config }
    }

    /// The configuration file to read: the explicitly configured path
    /// when there is one, else the platform default.
    pub fn get_config(&self, configured: &Option<String>) -> (r: Option<(String, PathOrigin)>)
        ensures
            configured matches Some(p) ==> (r matches Some(q) && q.0@ == p@ && q.1
                == PathOrigin::Config),
            configured is None ==> (self.config matches Some(p) ==> (r matches Some(q) && q.0@
                == p@ && q.1 == PathOrigin::Default)),
            configured is None && self.config is None ==> r is None,
    {
        match configured {
            Some(p) => Some((p.clone(), PathOrigin::Config)),
            None => match &self.config {
                Some(p) => Some((p.clone(), PathOrigin::Default)),
                None => None,
            },
        }
    }
}

} // verus!
