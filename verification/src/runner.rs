//! The run's control flow: one linear pass from cache check over an optional
//! download to aggregation and the report. The runner only decides; the
//! surrounding program performs each `Action` and reports its outcome back.

use vstd::prelude::*;
use crate::fetch::FetchError;

verus! {

/// What the surrounding program must do next.
#[derive(Clone, Copy, PartialEq, Eq, Structural, Debug)]
pub enum Action {
    /// Download the object into the destination file.
    Download,
    /// Aggregate the local CSV file.
    Aggregate,
    /// Print the aggregated table and finish.
    Report,
    /// Stop with an error; nothing further runs.
    Abort,
}

/// Where the run stands.
#[derive(Clone, Copy, PartialEq, Eq, Structural, Debug)]
pub enum Phase {
    /// Nothing has been decided yet.
    Start,
    /// The download is under way.
    Fetching,
    /// The local file is being aggregated.
    Aggregating,
    /// The table was produced and reported.
    Reported,
    /// The run aborted on its first failure.
    Failed,
}

/// State of one fetch-then-aggregate run.
pub struct Runner {
    phase: Phase,
    cache_hit: bool,
    fetch_started: bool,
    fetch_ok: bool,
}

impl Runner {
    /// Where the run stands.
    pub closed spec fn phase(self) -> Phase {
        self.phase
    }

    /// The destination file already existed when the run began.
    pub closed spec fn cache_hit(self) -> bool {
        self.cache_hit
    }

    /// A download was started at some point of the run.
    pub closed spec fn fetch_started(self) -> bool {
        self.fetch_started
    }

    /// A started download finished successfully.
    pub closed spec fn fetch_ok(self) -> bool {
        self.fetch_ok
    }

    /// What holds of every reachable run state: a cache hit never starts a
    /// download, a download succeeds only if one was started, and aggregation
    /// or the report is reached only over a file that either already existed
    /// or was downloaded completely.
    pub open spec fn wf(self) -> bool {
        &&& self.cache_hit() ==> !self.fetch_started()
        &&& self.fetch_ok() ==> self.fetch_started()
        &&& self.phase() is Start ==> !self.fetch_started() && !self.cache_hit()
        &&& self.phase() is Fetching ==> self.fetch_started() && !self.fetch_ok()
        &&& self.phase() is Aggregating || self.phase() is Reported ==> self.cache_hit()
            || self.fetch_ok()
    }

    /// A run begins with nothing decided.
    pub fn start() -> (r: Runner)
        ensures
            r.wf(),
            r.phase() is Start,
    {
        Runner { phase: Phase::Start, cache_hit: false, fetch_started: false, fetch_ok: false }
    }

    /// Feeds in the cache check's answer. A file already present is used as
    /// it is: the fetcher is not invoked and the run moves straight to
    /// aggregation; otherwise a download is ordered.
    pub fn on_cache_check(&mut self, exists: bool) -> (a: Action)
        requires
            old(self).wf(),
            old(self).phase() is Start,
        ensures
            final(self).wf(),
            final(self).cache_hit() == exists,
            exists ==> a is Aggregate && final(self).phase() is Aggregating
                && !final(self).fetch_started(),
            !exists ==> a is Download && final(self).phase() is Fetching,
    {
        self.cache_hit = exists;
        if exists {
            self.phase = Phase::Aggregating;
            Action::Aggregate
        } else {
            self.fetch_started = true;
            self.phase = Phase::Fetching;
            Action::Download
        }
    }

    /// Feeds in the fetcher's outcome. A failure aborts the run at once;
    /// aggregation is ordered only after a download that succeeded.
    pub fn on_fetch_result(&mut self, outcome: &Result<usize, FetchError>) -> (a: Action)
        requires
            old(self).wf(),
            old(self).phase() is Fetching,
        ensures
            final(self).wf(),
            final(self).cache_hit() == old(self).cache_hit(),
            final(self).fetch_started(),
            outcome is Ok ==> a is Aggregate && final(self).phase() is Aggregating
                && final(self).fetch_ok(),
            outcome is Err ==> a is Abort && final(self).phase() is Failed
                && !final(self).fetch_ok(),
    {
        match outcome {
            Ok(_) => {
                self.fetch_ok = true;
                self.phase = Phase::Aggregating;
                Action::Aggregate
            },
            Err(_) => {
                self.phase = Phase::Failed;
                Action::Abort
            },
        }
    }

    /// Feeds in the aggregation's outcome: report the table on success, abort
    /// on failure.
    pub fn on_aggregate_result(&mut self, ok: bool) -> (a: Action)
        requires
            old(self).wf(),
            old(self).phase() is Aggregating,
        ensures
            final(self).wf(),
            ok ==> a is Report && final(self).phase() is Reported,
            !ok ==> a is Abort && final(self).phase() is Failed,
    {
        if ok {
            self.phase = Phase::Reported;
            Action::Report
        } else {
            self.phase = Phase::Failed;
            Action::Abort
        }
    }
}

/// Idempotence of the cache check: a run that found the destination file
/// already present never starts a download, so the file's prior contents are
/// used unmodified.
pub proof fn lemma_cache_hit_skips_fetch(r: Runner)
    requires
        r.wf(),
        r.cache_hit(),
    ensures
        !r.fetch_started(),
{
}

/// A fetch failure is never a silent success: in a run whose file was not
/// already present, no state whose download has not succeeded aggregates or
/// reports anything.
pub proof fn lemma_failed_fetch_blocks_aggregation(r: Runner)
    requires
        r.wf(),
        !r.cache_hit(),
        !r.fetch_ok(),
    ensures
        !(r.phase() is Aggregating),
        !(r.phase() is Reported),
{
}

} // verus!
