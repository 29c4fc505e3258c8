//! Bringing working trees in line with their commits at startup.
use vstd::prelude::*;
use crate::config::ServerConfig;

verus! {

/// What a pass over all working trees did.
#[derive(Debug, Clone, Copy)]
pub struct HealReport {
    pub healed_repositories: usize,
    pub healed_files: usize,
}

/// Whether working trees are brought in line at startup: where files are kept
/// on disk, and only if asked for.
pub fn heals_on_start(server: &ServerConfig) -> (result: bool)
    ensures
        result == (server.checkout_files && server.checkout_files_autoheal),
{
    server.checkout_files && server.checkout_files_autoheal
}

impl HealReport {
    /// A pass that has not begun.
    pub fn new() -> (result: Self)
        ensures
            result.healed_repositories == 0,
            result.healed_files == 0,
    {
        HealReport { healed_repositories: 0, healed_files: 0 }
    }

    /// Takes up how many files of a repository were touched.
    pub fn note(&mut self, touched: usize)
        requires
            old(self).healed_repositories < usize::MAX,
            old(self).healed_files + touched <= usize::MAX,
        ensures
            final(self).healed_files == old(self).healed_files + touched,
            final(self).healed_repositories == old(self).healed_repositories + if touched > 0 {
                1int
            } else {
                0int
            },
    {
        if touched > 0 {
            self.healed_repositories = self.healed_repositories + 1;
            self.healed_files = self.healed_files + touched;
        }
    }
}

} // verus!
