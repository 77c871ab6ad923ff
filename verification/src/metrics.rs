//! The broker's metrics, as an explicit sink object handed to the
//! constructor instead of a process-wide registry. Counters saturate at
//! their bounds rather than wrap.

use vstd::prelude::*;

verus! {

/// Counters for the messaging core.
pub struct MetricsRegistry {
    pub messages_published: u64,
    pub messages_consumed: u64,
    pub queue_count: u64,
    pub total_messages: u64,
}

/// A fresh registry with every counter at zero.
pub fn register_metrics() -> (r: MetricsRegistry)
    ensures
        r.messages_published == 0,
        r.messages_consumed == 0,
        r.queue_count == 0,
        r.total_messages == 0,
{
    MetricsRegistry {
        messages_published: 0,
        messages_consumed: 0,
        queue_count: 0,
        total_messages: 0,
    }
}

/// `c + 1`, saturating at the counter bound.
pub open spec fn bump(c: u64) -> u64 {
    if c < u64::MAX {
        (c + 1) as u64
    } else {
        c
    }
}

/// `c - 1`, saturating at zero.
pub open spec fn drop_one(c: u64) -> u64 {
    if c > 0 {
        (c - 1) as u64
    } else {
        0
    }
}

impl MetricsRegistry {
    pub fn inc_published(&mut self)
        ensures
            *final(self) == (MetricsRegistry {
                messages_published: bump(old(self).messages_published),
                ..*old(self)
            }),
    {
        if self.messages_published < u64::MAX {
            self.messages_published = self.messages_published + 1;
        }
    }

    pub fn inc_consumed(&mut self)
        ensures
            *final(self) == (MetricsRegistry {
                messages_consumed: bump(old(self).messages_consumed),
                ..*old(self)
            }),
    {
        if self.messages_consumed < u64::MAX {
            self.messages_consumed = self.messages_consumed + 1;
        }
    }

    pub fn inc_queue_count(&mut self)
        ensures
            *final(self) == (MetricsRegistry { queue_count: bump(old(self).queue_count), ..*old(self) }),
    {
        if self.queue_count < u64::MAX {
            self.queue_count = self.queue_count + 1;
        }
    }

    pub fn inc_total(&mut self)
        ensures
            *final(self) == (MetricsRegistry {
                total_messages: bump(old(self).total_messages),
                ..*old(self)
            }),
    {
        if self.total_messages < u64::MAX {
            self.total_messages = self.total_messages + 1;
        }
    }

    pub fn dec_total(&mut self)
        ensures
            *final(self) == (MetricsRegistry {
                total_messages: drop_one(old(self).total_messages),
                ..*old(self)
            }),
    {
        if self.total_messages > 0 {
            self.total_messages = self.total_messages - 1;
        }
    }
}

} // verus!
