//! Round-trip time estimation and the retransmission timeout, in milliseconds.

use vstd::prelude::*;

verus! {

/// The shortest retransmission timeout.
pub const MIN_RTO: u64 = 1_000;

/// The longest retransmission timeout.
pub const MAX_RTO: u64 = 60_000;

/// The granularity of the clock.
pub const GRANULARITY: u64 = 1;

/// The smoothed round-trip time, its variance and the timeout derived from them.
#[derive(Clone, Copy, Debug, PartialEq, Eq, Structural)]
pub struct RttEstimator {
    pub srtt: u64,
    pub rttvar: u64,
    pub rto: u64,
    /// A first sample has been taken.
    pub sampled: bool,
}

/// The timeout for a smoothed round-trip time and a variance:
/// `srtt + max(G, 4 * rttvar)`, kept between one second and one minute.
pub open spec fn timeout_for(srtt: u64, rttvar: u64) -> u64 {
    let k = if 4 * rttvar > GRANULARITY {
        4 * rttvar
    } else {
        GRANULARITY as int
    };
    let t = srtt + k;
    if t < MIN_RTO {
        MIN_RTO
    } else if t > MAX_RTO {
        MAX_RTO
    } else {
        t as u64
    }
}

impl RttEstimator {
    pub open spec fn wf(self) -> bool {
        &&& self.srtt <= MAX_RTO
        &&& self.rttvar <= MAX_RTO
        &&& MIN_RTO <= self.rto <= MAX_RTO
    }

    /// The estimator before any sample: a timeout of one second.
    pub open spec fn initial() -> RttEstimator {
        RttEstimator { srtt: 0, rttvar: 0, rto: MIN_RTO, sampled: false }
    }

    /// The estimator after a measured round trip of `r` milliseconds. A measurement above one
    /// minute counts as one minute. The first sample sets `srtt = r` and `rttvar = r / 2`;
    /// a later one moves `rttvar` a quarter of the way to `|srtt - r|` and then `srtt` an
    /// eighth of the way to `r`.
    pub open spec fn sampled_with(self, r: u64) -> RttEstimator {
        let r = if r > MAX_RTO {
            MAX_RTO
        } else {
            r
        };
        let (srtt, rttvar) = if !self.sampled {
            (r, r / 2)
        } else {
            let dev = if self.srtt > r {
                self.srtt - r
            } else {
                r - self.srtt
            };
            (((7 * self.srtt + r) / 8) as u64, ((3 * self.rttvar + dev) / 4) as u64)
        };
        RttEstimator { srtt, rttvar, rto: timeout_for(srtt, rttvar), sampled: true }
    }

    /// The estimator after a retransmission timeout: the timeout doubles, up to one minute.
    pub open spec fn backed_off(self) -> RttEstimator {
        RttEstimator {
            rto: if 2 * self.rto > MAX_RTO {
                MAX_RTO
            } else {
                (2 * self.rto) as u64
            },
            ..self
        }
    }

    /// A well-formed estimator is well-formed after a sample and after a timeout.
    pub proof fn lemma_stays_wf(self, r: u64)
        requires
            self.wf(),
        ensures
            self.sampled_with(r).wf(),
            self.backed_off().wf(),
    {
    }

    pub fn new() -> (r: RttEstimator)
        ensures
            r == Self::initial(),
            r.wf(),
    {
        RttEstimator { srtt: 0, rttvar: 0, rto: MIN_RTO, sampled: false }
    }

    /// Takes in a measured round trip of `r` milliseconds.
    pub fn sample(&mut self, r: u64)
        requires
            old(self).wf(),
        ensures
            *final(self) == old(self).sampled_with(r),
            final(self).wf(),
    {
        let r: u64 = if r > MAX_RTO {
            MAX_RTO
        } else {
            r
        };
        let srtt: u64;
        let rttvar: u64;
        if !self.sampled {
            srtt = r;
            rttvar = r / 2;
        } else {
            let dev: u64 = if self.srtt > r {
                self.srtt - r
            } else {
                r - self.srtt
            };
            srtt = (7 * self.srtt + r) / 8;
            rttvar = (3 * self.rttvar + dev) / 4;
        }
        let k: u64 = if 4 * rttvar > GRANULARITY {
            4 * rttvar
        } else {
            GRANULARITY
        };
        let t: u64 = srtt + k;
        let rto: u64 = if t < MIN_RTO {
            MIN_RTO
        } else if t > MAX_RTO {
            MAX_RTO
        } else {
            t
        };
        *self = RttEstimator { srtt, rttvar, rto, sampled: true };
    }

    /// Doubles the timeout after a retransmission, up to one minute.
    pub fn back_off(&mut self)
        requires
            old(self).wf(),
        ensures
            *final(self) == old(self).backed_off(),
            final(self).wf(),
    {
        let doubled: u64 = 2 * self.rto;
        self.rto = if doubled > MAX_RTO {
            MAX_RTO
        } else {
            doubled
        };
    }
}

} // verus!
