use vstd::prelude::*;

use crate::bundle::Priority;
use crate::transport::TransportKind;

verus! {

/// The priority of a simulated message from a roll in `0..100`: rolls below
/// 5 are urgent, below 25 important, the rest routine.
pub open spec fn priority_for_roll_spec(roll: u32) -> Priority {
    if roll <= 4 {
        Priority::Urgent
    } else if roll <= 24 {
        Priority::Important
    } else {
        Priority::Routine
    }
}

pub fn priority_for_roll(roll: u32) -> (p: Priority)
    ensures
        p == priority_for_roll_spec(roll),
{
    match roll {
        0..=4 => Priority::Urgent,
        5..=24 => Priority::Important,
        _ => Priority::Routine,
    }
}

/// Counts of simulated deliveries: how many, over which transport, and the
/// sum of their latencies.
#[derive(Debug, Clone)]
pub struct DeliveryTally {
    delivered: usize,
    latency_total: u128,
    short_range: usize,
    long_range: usize,
    delay_tolerant: usize,
    internet: usize,
}

impl DeliveryTally {
    pub closed spec fn delivered_spec(&self) -> nat {
        self.delivered as nat
    }

    pub closed spec fn latency_total_spec(&self) -> nat {
        self.latency_total as nat
    }

    /// Deliveries counted over one transport.
    pub closed spec fn count_spec(&self, kind: TransportKind) -> nat {
        match kind {
            TransportKind::ShortRange => self.short_range as nat,
            TransportKind::LongRange => self.long_range as nat,
            TransportKind::DelayTolerant => self.delay_tolerant as nat,
            TransportKind::Internet => self.internet as nat,
        }
    }

    /// The per-transport counts add up to the deliveries, and no latency
    /// exceeds what a `u64` holds.
    pub closed spec fn wf(&self) -> bool {
        &&& self.short_range + self.long_range + self.delay_tolerant + self.internet == self.delivered
        &&& self.latency_total <= self.delivered * (u64::MAX as int)
    }

    pub fn new() -> (t: Self)
        ensures
            t.wf(),
            t.delivered_spec() == 0,
            t.latency_total_spec() == 0,
            forall|k: TransportKind| #[trigger] t.count_spec(k) == 0,
    {
        DeliveryTally {
            delivered: 0,
            latency_total: 0,
            short_range: 0,
            long_range: 0,
            delay_tolerant: 0,
            internet: 0,
        }
    }

    /// Counts one delivery over `kind` that took `latency_ms`.
    pub fn record(&mut self, kind: TransportKind, latency_ms: u64)
        requires
            old(self).wf(),
            old(self).delivered_spec() < usize::MAX,
        ensures
            final(self).wf(),
            final(self).delivered_spec() == old(self).delivered_spec() + 1,
            final(self).latency_total_spec() == old(self).latency_total_spec() + latency_ms,
            final(self).count_spec(kind) == old(self).count_spec(kind) + 1,
            forall|k: TransportKind| k != kind ==> #[trigger] final(self).count_spec(k) == old(self).count_spec(k),
    {
        proof {
            assert(self.delivered * (u64::MAX as int) + (u64::MAX as int) == (self.delivered + 1) * (u64::MAX as int))
                by (nonlinear_arith);
            assert((self.delivered + 1) * (u64::MAX as int) <= (usize::MAX as int) * (u64::MAX as int))
                by (nonlinear_arith)
                requires
                    self.delivered < usize::MAX,
            ;
            assert((usize::MAX as int) * (u64::MAX as int) <= (u64::MAX as int) * (u64::MAX as int))
                by (nonlinear_arith)
                requires
                    usize::MAX <= u64::MAX,
            ;
            assert((u64::MAX as int) * (u64::MAX as int) < u128::MAX);
        }
        self.delivered = self.delivered + 1;
        self.latency_total = self.latency_total + latency_ms as u128;
        match kind {
            TransportKind::ShortRange => self.short_range = self.short_range + 1,
            TransportKind::LongRange => self.long_range = self.long_range + 1,
            TransportKind::DelayTolerant => self.delay_tolerant = self.delay_tolerant + 1,
            TransportKind::Internet => self.internet = self.internet + 1,
        }
    }

    pub fn delivered(&self) -> (n: usize)
        ensures
            n == self.delivered_spec(),
    {
        self.delivered
    }

    pub fn count(&self, kind: TransportKind) -> (n: usize)
        ensures
            n == self.count_spec(kind),
    {
        match kind {
            TransportKind::ShortRange => self.short_range,
            TransportKind::LongRange => self.long_range,
            TransportKind::DelayTolerant => self.delay_tolerant,
            TransportKind::Internet => self.internet,
        }
    }

    /// The mean latency of the counted deliveries, rounded down; 0 when
    /// nothing was delivered.
    pub fn mean_latency_ms(&self) -> (mean: u64)
        requires
            self.wf(),
        ensures
            self.delivered_spec() == 0 ==> mean == 0,
            self.delivered_spec() > 0 ==> mean == self.latency_total_spec() / self.delivered_spec(),
    {
        if self.delivered == 0 {
            0
        } else {
            let d = self.delivered as u128;
            let q = self.latency_total / d;
            proof {
                let t = self.latency_total as int;
                let n = self.delivered as int;
                assert(t / n <= u64::MAX) by (nonlinear_arith)
                    requires
                        t <= n * (u64::MAX as int),
                        n > 0,
                        t >= 0,
                ;
            }
            q as u64
        }
    }
}

} // verus!
