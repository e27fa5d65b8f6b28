//! Failure detection by probing: a subject that fails to answer, or that keeps
//! answering that it is still bootstrapping, is reported.
//!
//! Sending the probes, waiting for their answers and the pause between them are
//! the caller's part; it hands each outcome to a `ProbeTally`.
use crate::transport::proto::{NodeStatus, ResponseKind, ResponseKindView};
use crate::transport::Response;
use core::time::Duration;
use vstd::prelude::*;

verus! {

/// Number of bootstrapping responses allowed by a node before being treated as
/// a failure condition.
pub const BOOTSTRAP_COUNT_THRESHOLD: usize = 30;

/// Number of failures after which the subject is reported.
pub const FAILURE_THRESHOLD: usize = 5;

/// A monitor that probes its subject at a fixed pace.
#[derive(Debug)]
pub struct PingPong {
    timeout: Duration,
    tick_delay: Duration,
}

impl PingPong {
    pub closed spec fn timeout_spec(&self) -> Duration {
        self.timeout
    }

    pub closed spec fn tick_delay_spec(&self) -> Duration {
        self.tick_delay
    }

    /// A monitor that waits `timeout` for each answer and `tick_delay` between
    /// probes.
    pub fn new(timeout: Duration, tick_delay: Duration) -> (p: Self)
        ensures
            p.timeout_spec() == timeout,
            p.tick_delay_spec() == tick_delay,
    {
        PingPong { timeout, tick_delay }
    }

    /// How long to wait for an answer to a probe.
    pub fn timeout(&self) -> (d: Duration)
        ensures
            d == self.timeout_spec(),
    {
        self.timeout
    }

    /// How long to pause between probes.
    pub fn tick_delay(&self) -> (d: Duration)
        ensures
            d == self.tick_delay_spec(),
    {
        self.tick_delay
    }
}

/// What came of one probe.
pub enum ProbeOutcome {
    /// No answer came within the timeout.
    TimedOut,
    /// The probe could not be sent.
    Failed,
    /// The subject answered.
    Answered(Response),
}

/// Whether an outcome is an answer that the subject is still bootstrapping.
pub open spec fn reports_bootstrapping(outcome: ProbeOutcome) -> bool {
    outcome matches ProbeOutcome::Answered(r) && r.kind_view() == ResponseKindView::Probe(NodeStatus::Bootstrapping)
}

/// The counts a monitor keeps for its subject.
pub struct ProbeTally {
    failures: usize,
    bootstraps: usize,
}

impl ProbeTally {
    pub closed spec fn failures_spec(&self) -> nat {
        self.failures as nat
    }

    pub closed spec fn bootstraps_spec(&self) -> nat {
        self.bootstraps as nat
    }

    pub fn new() -> (t: Self)
        ensures
            t.failures_spec() == 0,
            t.bootstraps_spec() == 0,
    {
        ProbeTally { failures: 0, bootstraps: 0 }
    }

    /// Count the outcome of one probe. A probe that times out is a failure; so
    /// is each answer that the subject is still bootstrapping once more than
    /// `BOOTSTRAP_COUNT_THRESHOLD` such answers came. Returns whether the
    /// subject is to be reported: `FAILURE_THRESHOLD` failures were counted.
    pub fn record(&mut self, outcome: &ProbeOutcome) -> (report: bool)
        requires
            old(self).failures_spec() + 2 <= usize::MAX,
            old(self).bootstraps_spec() + 1 <= usize::MAX,
        ensures
            final(self).bootstraps_spec() == old(self).bootstraps_spec() + if reports_bootstrapping(*outcome) {
                1int
            } else {
                0int
            },
            final(self).failures_spec() == old(self).failures_spec() + if *outcome is TimedOut {
                1int
            } else {
                0int
            } + if reports_bootstrapping(*outcome) && final(self).bootstraps_spec() > BOOTSTRAP_COUNT_THRESHOLD {
                1int
            } else {
                0int
            },
            report == (final(self).failures_spec() >= FAILURE_THRESHOLD),
    {
        match outcome {
            ProbeOutcome::TimedOut => {
                self.failures += 1;
            },
            ProbeOutcome::Failed => {},
            ProbeOutcome::Answered(response) => {
                if let ResponseKind::Probe(status) = response.kind() {
                    if *status == NodeStatus::Bootstrapping {
                        self.bootstraps += 1;
                        if self.bootstraps > BOOTSTRAP_COUNT_THRESHOLD {
                            self.failures += 1;
                        }
                    }
                }
            },
        }
        self.failures >= FAILURE_THRESHOLD
    }
}

} // verus!
