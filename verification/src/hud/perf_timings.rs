//! Timing rows: the last time of a section, and its recent peak, held for a while.
use vstd::prelude::*;

verus! {

/// How long a peak is held, in microseconds.
pub const PEAK_HOLD_MICROS: u64 = 1_000_000;

/// How often the rows are refreshed, in microseconds.
pub const REFRESH_MICROS: u64 = 250_000;

/// A peak and how long it has been held.
#[derive(Debug, Clone, Copy, PartialEq, Eq, Structural)]
pub struct PeakHold {
    pub peak_ns: u64,
    pub age_us: u64,
}

impl Default for PeakHold {
    fn default() -> (held: Self)
        ensures
            held.peak_ns == 0,
            held.age_us == 0,
    {
        PeakHold { peak_ns: 0, age_us: 0 }
    }
}

impl PeakHold {
    /// Takes the peak of the last `dt` microseconds: a higher one replaces the held peak, and
    /// a held peak is dropped once it has been held long enough.
    pub fn update(&mut self, candidate_ns: u64, dt: u64)
        ensures
            *final(self) == if candidate_ns > old(self).peak_ns {
                PeakHold { peak_ns: candidate_ns, age_us: 0 }
            } else if old(self).age_us + dt >= PEAK_HOLD_MICROS {
                PeakHold { peak_ns: 0, age_us: 0 }
            } else {
                PeakHold { peak_ns: old(self).peak_ns, age_us: (old(self).age_us + dt) as u64 }
            },
    {
        if candidate_ns > self.peak_ns {
            self.peak_ns = candidate_ns;
            self.age_us = 0;
        } else {
            self.age_us = self.age_us.saturating_add(dt);
            if self.age_us >= PEAK_HOLD_MICROS {
                self.peak_ns = 0;
                self.age_us = 0;
            }
        }
    }
}

/// Lets time pass towards the next refresh; when it is due, the time since the last one.
pub fn refresh_after(elapsed: &mut u64, dt: u64) -> (since: Option<u64>)
    requires
        *old(elapsed) + dt <= u64::MAX,
    ensures
        match since {
            Some(t) => t == *old(elapsed) + dt && t >= REFRESH_MICROS && *final(elapsed) == 0,
            None => *final(elapsed) == *old(elapsed) + dt && *final(elapsed) < REFRESH_MICROS,
        },
{
    let t: u64 = *elapsed + dt;
    if t < REFRESH_MICROS {
        *elapsed = t;
        return None;
    }
    *elapsed = 0;
    Some(t)
}

/// The two times that a section has on record.
#[derive(Debug, Clone, Copy, PartialEq, Eq, Structural)]
pub struct SectionTime {
    pub last_ns: u64,
    pub peak_ns: u64,
}

impl SectionTime {
    /// Records a measured time.
    pub fn record(&mut self, nanos: u64)
        ensures
            final(self).last_ns == nanos,
            final(self).peak_ns == if nanos > old(self).peak_ns {
                nanos
            } else {
                old(self).peak_ns
            },
    {
        self.last_ns = nanos;
        if nanos > self.peak_ns {
            self.peak_ns = nanos;
        }
    }

    /// Hands out the peak and starts a new one.
    pub fn take_peak(&mut self) -> (peak: u64)
        ensures
            peak == old(self).peak_ns,
            final(self).peak_ns == 0,
            final(self).last_ns == old(self).last_ns,
    {
        let peak: u64 = self.peak_ns;
        self.peak_ns = 0;
        peak
    }
}

} // verus!
