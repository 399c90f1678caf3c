//! Pull orchestration: requests travel as pairwise GCM control packets.

use vstd::prelude::*;

use crate::error::{Error, Result};
use crate::protocol::pull::PullRequest;

verus! {

/// Sends pull requests for missing chunks.
pub trait PullCoordinator {
    fn request(&self, request: &PullRequest) -> Result<()>;
}

/// The coordinator used until pull orchestration exists: it refuses every
/// request.
pub struct PendingPullCoordinator;

impl PullCoordinator for PendingPullCoordinator {
    fn request(&self, request: &PullRequest) -> (r: Result<()>)
        ensures
            r matches Err(e) && e is NotImplemented,
    {
        Err(Error::NotImplemented("pull orchestration"))
    }
}

} // verus!
