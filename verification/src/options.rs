//! How a bundle is watched.

use std::time::Duration;

use vstd::prelude::*;

verus! {

/// Options for starting a watched bundle. `H` is the type of the hook that is consulted
/// before each poll.
pub struct BundleReloadOptions<H> {
    /// The time between two polls.
    pub interval: Duration,
    /// The hook, if polls need permission. It returns a permit to go ahead, or `None` to skip
    /// the poll; the permit is held until the poll is over.
    pub pre_tick: Option<H>,
}

impl<H> BundleReloadOptions<H> {
    /// Options with the given interval and no hook.
    #[must_use]
    pub fn new(interval: Duration) -> (options: Self)
        ensures
            options.interval == interval,
            options.pre_tick is None,
    {
        BundleReloadOptions { interval, pre_tick: None }
    }

    /// The same options with the given hook.
    #[must_use]
    pub fn with_pre_tick(self, hook: H) -> (options: Self)
        ensures
            options.interval == self.interval,
            options.pre_tick == Some(hook),
    {
        BundleReloadOptions { interval: self.interval, pre_tick: Some(hook) }
    }
}

} // verus!
