//! Node-level monitoring counters, as an explicit sink object. The
//! original processing-time histogram is not carried here: its values
//! are floating point and out of the verified core's scope.

use vstd::prelude::*;

use crate::metrics::bump;

verus! {

/// Counters for node-level monitoring.
pub struct MonitoringRegistry {
    pub message_count: u64,
    pub queue_size: u64,
}

/// A fresh registry with every counter at zero.
pub fn register_metrics() -> (r: MonitoringRegistry)
    ensures
        r.message_count == 0,
        r.queue_size == 0,
{
    MonitoringRegistry { message_count: 0, queue_size: 0 }
}

impl MonitoringRegistry {
    pub fn record_message(&mut self)
        ensures
            final(self).message_count == bump(old(self).message_count),
            final(self).queue_size == old(self).queue_size,
    {
        if self.message_count < u64::MAX {
            self.message_count = self.message_count + 1;
        }
    }

    pub fn set_queue_size(&mut self, size: u64)
        ensures
            final(self).queue_size == size,
            final(self).message_count == old(self).message_count,
    {
        self.queue_size = size;
    }
}

} // verus!
