//! Deployment behavior.
use vstd::prelude::*;

verus! {

/// The deployment that is used when none is registered: it deploys nothing
/// and says so.
#[derive(Copy, Clone)]
pub struct DoNothing;

impl DoNothing {
    /// What deploying with it tells the user.
    pub fn message(&self) -> (r: &'static str)
        ensures
            r@ == "no deploy command is registered"@,
    {
        "no deploy command is registered"
    }
}

} // verus!
