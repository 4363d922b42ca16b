//! The counts a benchmark keeps per second.

use vstd::prelude::*;

verus! {

/// Requests sent, their total latency, and how many failed.
#[derive(Clone, Copy, Debug, PartialEq, Eq, Structural)]
pub struct BenchmarkStatsPerSecond {
    pub num_requests: u64,
    pub total_latency: u128,
    pub num_errors: u64,
}

impl Default for BenchmarkStatsPerSecond {
    fn default() -> (r: Self)
        ensures
            r == (BenchmarkStatsPerSecond { num_requests: 0, total_latency: 0, num_errors: 0 }),
    {
        BenchmarkStatsPerSecond { num_requests: 0, total_latency: 0, num_errors: 0 }
    }
}

impl BenchmarkStatsPerSecond {
    /// Counts a request that succeeded after `latency`.
    pub fn update_success(&mut self, latency: u128)
        requires
            old(self).num_requests < u64::MAX,
            old(self).total_latency + latency <= u128::MAX,
        ensures
            *final(self) == (BenchmarkStatsPerSecond {
                num_requests: (old(self).num_requests + 1) as u64,
                total_latency: (old(self).total_latency + latency) as u128,
                num_errors: old(self).num_errors,
            }),
    {
        self.num_requests = self.num_requests + 1;
        self.total_latency = self.total_latency + latency;
    }

    /// Counts a request that failed.
    pub fn update_error(&mut self)
        requires
            old(self).num_requests < u64::MAX,
            old(self).num_errors < u64::MAX,
        ensures
            *final(self) == (BenchmarkStatsPerSecond {
                num_requests: (old(self).num_requests + 1) as u64,
                total_latency: old(self).total_latency,
                num_errors: (old(self).num_errors + 1) as u64,
            }),
    {
        self.num_requests = self.num_requests + 1;
        self.num_errors = self.num_errors + 1;
    }
}

/// What one second of a benchmark shows: requests, errors, and the average
/// latency of the successful requests.
#[derive(Clone, Copy, Debug, PartialEq, Eq, Structural)]
pub struct SecondReport {
    pub requests_per_second: u64,
    pub errors_per_second: u64,
    pub average_latency: u128,
}

impl BenchmarkStatsPerSecond {
    /// The report of the second from `prev` to `self`: the requests and errors
    /// counted since, and the latency gained since divided by the successful
    /// requests since (zero when there were no requests).
    pub fn report_since(&self, prev: &BenchmarkStatsPerSecond) -> (r: SecondReport)
        requires
            prev.num_requests <= self.num_requests,
            prev.num_errors <= self.num_errors,
            prev.total_latency <= self.total_latency,
            self.num_errors - prev.num_errors <= self.num_requests - prev.num_requests,
            self.num_requests != prev.num_requests ==>
                self.num_errors - prev.num_errors < self.num_requests - prev.num_requests,
        ensures
            r.requests_per_second == self.num_requests - prev.num_requests,
            r.errors_per_second == self.num_errors - prev.num_errors,
            r.average_latency == if r.requests_per_second == 0 {
                0
            } else {
                ((self.total_latency - prev.total_latency) as int / (r.requests_per_second - r.errors_per_second) as int) as u128
            },
    {
        let requests_per_second = self.num_requests - prev.num_requests;
        let errors_per_second = self.num_errors - prev.num_errors;
        let average_latency = if requests_per_second == 0 {
            0
        } else {
            (self.total_latency - prev.total_latency) / ((requests_per_second - errors_per_second) as u128)
        };
        SecondReport { requests_per_second, errors_per_second, average_latency }
    }
}

} // verus!
