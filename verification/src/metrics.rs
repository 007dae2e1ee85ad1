//! Performance counters and latency telemetry.
//!
//! Counters wrap on overflow, as hardware counters do; the minimum starts at
//! `u64::MAX` (no sample yet) and the maximum at zero.

use vstd::prelude::*;

verus! {

/// `a + b` modulo 2^64.
pub open spec fn wrap_add(a: u64, b: u64) -> u64 {
    if a + b > u64::MAX { (a + b - u64::MAX - 1) as u64 } else { (a + b) as u64 }
}

pub struct PerformanceMetrics {
    pub orders_processed: u64,
    pub trades_generated: u64,
    pub cumulative_service_nanos: u64,
    pub min_latency_nanos: u64,
    pub max_latency_nanos: u64,
}

impl PerformanceMetrics {
    pub fn new() -> (r: PerformanceMetrics)
        ensures
            r.orders_processed == 0,
            r.trades_generated == 0,
            r.cumulative_service_nanos == 0,
            r.min_latency_nanos == u64::MAX,
            r.max_latency_nanos == 0,
    {
        PerformanceMetrics {
            orders_processed: 0,
            trades_generated: 0,
            cumulative_service_nanos: 0,
            min_latency_nanos: u64::MAX,
            max_latency_nanos: 0,
        }
    }

    /// Records one processed order that took `duration_nanos` and produced
    /// `trades` trades.
    pub fn record_order_latency(&mut self, duration_nanos: u64, trades: usize)
        ensures
            final(self).orders_processed == wrap_add(old(self).orders_processed, 1),
            final(self).trades_generated == wrap_add(old(self).trades_generated, trades as u64),
            final(self).cumulative_service_nanos == wrap_add(old(self).cumulative_service_nanos, duration_nanos),
            final(self).min_latency_nanos == if duration_nanos < old(self).min_latency_nanos {
                duration_nanos
            } else {
                old(self).min_latency_nanos
            },
            final(self).max_latency_nanos == if duration_nanos > old(self).max_latency_nanos {
                duration_nanos
            } else {
                old(self).max_latency_nanos
            },
            final(self).min_latency_nanos <= duration_nanos <= final(self).max_latency_nanos,
    {
        self.orders_processed = self.orders_processed.wrapping_add(1);
        self.trades_generated = self.trades_generated.wrapping_add(trades as u64);
        self.cumulative_service_nanos = self.cumulative_service_nanos.wrapping_add(duration_nanos);
        if duration_nanos < self.min_latency_nanos {
            self.min_latency_nanos = duration_nanos;
        }
        if duration_nanos > self.max_latency_nanos {
            self.max_latency_nanos = duration_nanos;
        }
    }

    /// The smallest latency recorded, or 0 before the first sample.
    pub fn min_latency_nanos(&self) -> (r: u64)
        ensures
            r == if self.min_latency_nanos == u64::MAX { 0 } else { self.min_latency_nanos },
    {
        if self.min_latency_nanos == u64::MAX {
            0
        } else {
            self.min_latency_nanos
        }
    }

    /// The largest latency recorded.
    pub fn max_latency_nanos(&self) -> (r: u64)
        ensures
            r == self.max_latency_nanos,
    {
        self.max_latency_nanos
    }
}

impl Default for PerformanceMetrics {
    fn default() -> (r: PerformanceMetrics)
        ensures
            r.orders_processed == 0,
            r.trades_generated == 0,
            r.cumulative_service_nanos == 0,
            r.min_latency_nanos == u64::MAX,
            r.max_latency_nanos == 0,
    {
        PerformanceMetrics::new()
    }
}

} // verus!
