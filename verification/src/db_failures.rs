use vstd::prelude::*;

verus! {

/// A count of the database calls that failed.  Only a failure's own error can
/// raise it, so a count that grew shows that the database did fail.
pub struct FailureLog {
    count: Ghost<nat>,
}

impl FailureLog {
    /// The number of failures recorded.
    pub closed spec fn count(&self) -> nat {
        self.count@
    }

    /// A log with no failure recorded.
    pub fn new() -> (r: FailureLog)
        ensures
            r.count() == 0,
    {
        FailureLog { count: Ghost(0) }
    }

    /// Records the failure that `error` reports.
    pub fn record(&mut self, error: &sled::Error)
        ensures
            final(self).count() == old(self).count() + 1,
    {
        self.count = Ghost(self.count@ + 1);
    }
}

} // verus!
