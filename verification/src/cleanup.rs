//! Shutdown bookkeeping for shared resources.

use vstd::prelude::*;

verus! {

/// Tracks whether shutdown of shared resources has been initiated.
pub struct ResourceManager {
    shutdown_initiated: bool,
}

impl ResourceManager {
    pub closed spec fn shutting_down_spec(&self) -> bool {
        self.shutdown_initiated
    }

    /// A fresh manager: shutdown not yet initiated.
    pub fn new() -> (r: Self)
        ensures
            !r.shutting_down_spec(),
    {
        ResourceManager { shutdown_initiated: false }
    }

    /// Initiates shutdown of shared resources.
    pub fn shutdown(&mut self)
        ensures
            final(self).shutting_down_spec(),
    {
        self.shutdown_initiated = true;
    }

    /// Whether shutdown has been initiated.
    pub fn is_shutting_down(&self) -> (r: bool)
        ensures
            r == self.shutting_down_spec(),
    {
        self.shutdown_initiated
    }
}

impl Default for ResourceManager {
    /// The default manager: shutdown not yet initiated.
    fn default() -> (r: Self)
        ensures
            !r.shutting_down_spec(),
    {
        ResourceManager::new()
    }
}

} // verus!
